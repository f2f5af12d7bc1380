use horsetab::cli::subcommands::format_watch_events;
use horsetab::click_length_detector::ClickLengthDetector;
use horsetab::click_sequence_detector::{ClickSequenceDetector, MouseClickKind};
use horsetab::event_observe::{decode_event, decode_events, encode_event, EventType};
use horsetab::ipc_tcp::{
    decode_tcp_action, encode_tcp_action, encode_tcp_action_result, handshake_reply, TcpAction,
    TcpActionResult,
};
use horsetab::logger::{ends_with_newline, format_log_msg};
use horsetab::sequence_automata::{AutomataInstruction, SequenceAutomata};
use horsetab::server::commands_installer::{install_commands, InstallResult};
use horsetab::server::global_context::MainProcessState;
use horsetab::server::global_context_installer::install_state_from_lines;
use horsetab::server::http::{installed_commands_text, sequence_to_instructions};
use horsetab::server::mouse_events::{click_kind_to_instruction, press_instruction};
use horsetab::server::process_manager::ProcessManager;
use horsetab::util::{
    format_date, seconds_elapsed, u64_to_string, DateParts, PayloadOverwriter,
};

fn strings<const N: usize>(strs: [&str; N]) -> Vec<String> {
    strs.iter().copied().map(|x| x.to_owned()).collect()
}

#[test]
fn classifier_short_then_long_without_reset() {
    let mut detector = ClickSequenceDetector::new(200);
    let _ = detector.click(0);
    assert!(matches!(detector.release(150), MouseClickKind::Short));
    let gap = detector.click(300);
    assert_eq!(gap, 150);
    assert!(press_instruction(gap, 500).is_none());
    assert!(matches!(detector.release(900), MouseClickKind::Long));
}

#[test]
fn classifier_boundary_hold_is_short() {
    let mut detector = ClickSequenceDetector::new(200);
    let _ = detector.click(1000);
    assert!(matches!(detector.release(1200), MouseClickKind::Short));
    let _ = detector.click(1300);
    assert!(matches!(detector.release(1501), MouseClickKind::Long));
}

#[test]
fn classifier_long_gap_emits_reset() {
    let mut detector = ClickLengthDetector::new(200);
    let _ = detector.click(0);
    let _ = detector.release(100);
    let gap = detector.click(700);
    assert_eq!(gap, 600);
    assert!(matches!(
        press_instruction(gap, 500),
        Some(AutomataInstruction::Reset)
    ));
}

#[test]
fn click_kinds_map_to_dot_and_dash() {
    assert!(matches!(
        click_kind_to_instruction(MouseClickKind::Short),
        AutomataInstruction::Char('.')
    ));
    assert!(matches!(
        click_kind_to_instruction(MouseClickKind::Long),
        AutomataInstruction::Char('-')
    ));
}

#[test]
fn event_codec_round_trips_every_kind() {
    for ev in [
        EventType::SequenceReset,
        EventType::FoundResults,
        EventType::SequenceItem('.'),
        EventType::SequenceItem('-'),
        EventType::SequenceItem('\u{65e5}'),
    ] {
        let bytes = encode_event(ev);
        let (back, used) = decode_event(&bytes, 0).unwrap();
        assert_eq!(used, bytes.len());
        match (ev, back) {
            (EventType::SequenceReset, EventType::SequenceReset) => {}
            (EventType::FoundResults, EventType::FoundResults) => {}
            (EventType::SequenceItem(a), EventType::SequenceItem(b)) => assert_eq!(a, b),
            _ => panic!("event changed in the codec"),
        }
    }
}

#[test]
fn event_codec_rejects_bad_tag() {
    let bytes = vec![9u8];
    assert!(decode_event(&bytes, 0).is_none());
}

#[test]
fn payload_overwriter_holds_one_record() {
    let mut payload = PayloadOverwriter::new();
    payload.overwrite_serialize(EventType::SequenceReset);
    assert_eq!(payload.payload().len(), 1);
    payload.overwrite_serialize(EventType::SequenceItem('a'));
    assert_eq!(payload.payload().len(), 5);
    payload.overwrite_serialize(EventType::FoundResults);
    assert_eq!(payload.payload(), &vec![1u8]);
}

#[test]
fn watch_stream_renders_with_markers() {
    let events = [
        EventType::SequenceReset,
        EventType::SequenceItem('.'),
        EventType::SequenceItem('.'),
        EventType::SequenceItem('-'),
        EventType::FoundResults,
        EventType::SequenceReset,
        EventType::SequenceItem('.'),
        EventType::SequenceItem('.'),
        EventType::SequenceItem('-'),
        EventType::FoundResults,
        EventType::SequenceReset,
    ];
    let mut bytes: Vec<u8> = Vec::new();
    for ev in events {
        bytes.extend(encode_event(ev));
    }
    let decoded = decode_events(&bytes).unwrap();
    assert_eq!(decoded.len(), events.len());
    let out = format_watch_events(&decoded, " * Match found");
    assert_eq!(out, "..- * Match found\n..- * Match found\n");
    assert!(!out.contains("\n\n"));
    assert!(!out.starts_with('\n'));
}

#[test]
fn watch_stream_without_final_match_still_closes_line() {
    let events = vec![
        EventType::SequenceReset,
        EventType::SequenceItem('.'),
        EventType::SequenceItem('.'),
        EventType::FoundResults,
        EventType::SequenceReset,
        EventType::SequenceItem('-'),
        EventType::SequenceItem('-'),
        EventType::SequenceReset,
    ];
    let out = format_watch_events(&events, "*");
    assert_eq!(out, "..*\n--\n");
}

#[test]
fn tcp_handshake_accepts_watch_and_rejects_noise() {
    let ok = encode_tcp_action(TcpAction::Watch);
    let action = decode_tcp_action(&ok);
    assert!(matches!(action, Some(TcpAction::Watch)));
    assert_eq!(handshake_reply(&action), TcpActionResult::Accepted);
    assert_eq!(encode_tcp_action_result(TcpActionResult::Accepted), vec![0u8]);

    let noise = vec![0x10u8, 0x01u8];
    let bad = decode_tcp_action(&noise);
    assert!(bad.is_none());
    assert_eq!(handshake_reply(&bad), TcpActionResult::Wrong);
    assert_eq!(encode_tcp_action_result(TcpActionResult::Wrong), vec![1u8]);
}

#[test]
fn log_line_header_pads_the_pid() {
    let date = DateParts { year: 2023, month: 1, day: 2, hour: 0, minute: 11, second: 22 };
    assert_eq!(
        format_log_msg("aa", "stdout", 123, &date),
        "[stdout 2023-01-02 00:11:22    123] aa"
    );
    assert_eq!(
        format_log_msg("aa", "stdout", 1, &date),
        "[stdout 2023-01-02 00:11:22      1] aa"
    );
    assert_eq!(
        format_log_msg("aa", "stderr", 12312377, &date),
        "[stderr 2023-01-02 00:11:22 12312377] aa"
    );
    assert!(!ends_with_newline("aa"));
    assert!(ends_with_newline("aa\n"));
}

#[test]
fn date_renders_zero_padded() {
    let date = DateParts { year: 987, month: 12, day: 3, hour: 7, minute: 5, second: 59 };
    assert_eq!(format_date(&date), "0987-12-03 07:05:59");
    assert_eq!(u64_to_string(0), "0");
    assert_eq!(u64_to_string(10070), "10070");
}

#[test]
fn elapsed_seconds_prefers_the_end_time() {
    assert_eq!(seconds_elapsed(100, Some(160), 500), 60);
    assert_eq!(seconds_elapsed(100, None, 500), 400);
}

#[test]
fn process_listing_shows_running_and_exited_children() {
    let mut manager = ProcessManager::new();
    assert_eq!(manager.format_information(0), "PID            TIME (s)       STATUS                   COMMAND");
    manager.insert(42, "sleep 5".to_owned(), 100);
    manager.insert(7, "echo hi".to_owned(), 110);
    manager.record_exit(7, "exit status: 0".to_owned(), 112);
    let listing = manager.format_information(130);
    let lines: Vec<&str> = listing.split('\n').collect();
    assert_eq!(lines.len(), 3);
    assert_eq!(lines[1], "42             30             Running                  sleep 5");
    assert_eq!(lines[2], "7              2              exit status: 0           echo hi");
    manager.remove(42);
    let listing = manager.format_information(130);
    assert!(!listing.contains("sleep 5"));
    assert!(listing.contains("echo hi"));
}

#[test]
fn install_swaps_state_and_reports_count() {
    let mut state = MainProcessState::new("/bin/sh");
    let result = install_state_from_lines(&strings([".- echo a", "-. echo b"]), &mut state);
    assert_eq!(result.to_string(), "Installed 2 commands");
    assert_eq!(state.commands.len(), 2);
    assert_eq!(state.interpreter, "/bin/sh");
    assert_eq!(
        installed_commands_text(&state.commands),
        ".- echo a\n-. echo b"
    );
}

#[test]
fn install_reports_unreachable_sequences() {
    let mut automata = SequenceAutomata::new(&[]);
    let mut commands = Vec::new();
    let mut pre_script = String::new();
    let mut interpreter = Vec::new();
    let result = install_commands(
        &strings([".- a", ".-.- b"]),
        &mut automata,
        &mut commands,
        &mut pre_script,
        &mut interpreter,
    );
    assert_eq!(
        result.to_string(),
        "Installed 2 commands, with some unreachable sequence(s):\n.-.-"
    );
    assert!(matches!(result, InstallResult::Unreachable(_)));
}

#[test]
fn install_file_error_message() {
    let result = InstallResult::FileError("permission denied".to_owned());
    assert_eq!(
        result.to_string(),
        "Cannot install commands from file: permission denied"
    );
}

#[test]
fn reinstall_keeps_running_children_and_matches_new_rules() {
    let mut manager = ProcessManager::new();
    manager.insert(321, "old-config-child".to_owned(), 50);

    let mut state = MainProcessState::new("/bin/sh");
    let _ = install_state_from_lines(&strings([".- echo old"]), &mut state);
    let _ = install_state_from_lines(&strings(["-- echo new"]), &mut state);

    let listing = manager.format_information(60);
    assert!(listing.contains("old-config-child"));

    for instr in sequence_to_instructions("--") {
        if let Some(results) = state.automata.put(instr) {
            assert_eq!(results, vec![0]);
            assert_eq!(state.commands[results[0]].command, "echo new");
            return;
        }
    }
    panic!("the new rule did not match");
}

#[test]
fn pushed_sequence_is_wrapped_in_resets() {
    let instrs = sequence_to_instructions(".-");
    assert_eq!(instrs.len(), 4);
    assert!(matches!(instrs[0], AutomataInstruction::Reset));
    assert!(matches!(instrs[1], AutomataInstruction::Char('.')));
    assert!(matches!(instrs[2], AutomataInstruction::Char('-')));
    assert!(matches!(instrs[3], AutomataInstruction::Reset));
}

#[test]
fn largest_numbers_render_exactly() {
    assert_eq!(u64_to_string(u64::MAX), "18446744073709551615");
    let date = DateParts { year: 9999, month: 12, day: 31, hour: 23, minute: 59, second: 59 };
    assert_eq!(format_date(&date), "9999-12-31 23:59:59");
}
