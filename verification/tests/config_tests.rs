use horsetab::server::config_file_parser::{
    get_unreachable_sequences, parse_lines, Configuration,
};

fn string_vec<const N: usize>(strs: [&str; N]) -> Vec<String> {
    strs.iter().copied().map(|x| x.to_owned()).collect()
}

#[test]
fn test_get_unreachable_sequences_all_ok() {
    assert!(get_unreachable_sequences(&["abc", "bca"]).is_empty());
    assert!(get_unreachable_sequences(&["abc", "abb"]).is_empty());
    assert!(get_unreachable_sequences(&["abc", "aaa"]).is_empty());
    assert!(get_unreachable_sequences(&["abc", "abd"]).is_empty());
}

#[test]
fn test_get_unreachable_sequences_some_fail() {
    assert_eq!(get_unreachable_sequences(&["abc", "abcc"]), vec!["abcc"]);
    assert_eq!(
        get_unreachable_sequences(&["abc", "abcc", "abccc"]),
        vec!["abcc", "abccc"]
    );
    assert_eq!(
        get_unreachable_sequences(&["abccc", "abcc", "abcx"]),
        vec!["abccc"]
    );
}

#[test]
fn test_get_unreachable_sequences_same() {
    assert!(get_unreachable_sequences(&["abc", "abc"]).is_empty());
    assert!(get_unreachable_sequences(&["a", "a"]).is_empty());
}

#[test]
fn test_parse_lines_multiple_empty_lines() {
    let (cmds, other) = parse_lines(&string_vec([" ", "   ", " "]));
    assert!(cmds.is_empty());
    assert_eq!(other, " \n   \n ");
}

#[test]
fn test_parse_lines_with_comments() {
    let (cmds, other) = parse_lines(&string_vec([" #", "  # .-.- aa ", "#", " #.-."]));
    assert!(cmds.is_empty());
    assert_eq!(other, " #\n  # .-.- aa \n#\n #.-.");
}

#[test]
fn test_parse_lines_with_comments_2() {
    let (cmds, other) = parse_lines(&string_vec([".-.-  #"]));

    assert!(other.is_empty());
    assert_eq!(cmds.len(), 1);
    assert_eq!(cmds[0].sequence, ".-.-");
    assert_eq!(cmds[0].command, "#");
}

#[test]
fn test_two_commands_no_prelude() {
    let config = Configuration::from_lines(&string_vec([".- echo a", "-. echo b"]));
    assert_eq!(config.commands.len(), 2);
    assert_eq!(config.commands[0].sequence, ".-");
    assert_eq!(config.commands[0].command, "echo a");
    assert_eq!(config.commands[1].sequence, "-.");
    assert_eq!(config.commands[1].command, "echo b");
    assert!(config.pre_script.is_empty());
    assert!(config.unreachable_sequences.is_empty());
    assert_eq!(config.interpreter, vec!["/bin/sh"]);
}

#[test]
fn test_non_command_line_goes_to_prelude() {
    let config = Configuration::from_lines(&string_vec(["abc nope", ".- ok"]));
    assert_eq!(config.commands.len(), 1);
    assert_eq!(config.commands[0].sequence, ".-");
    assert_eq!(config.commands[0].command, "ok");
    assert_eq!(config.pre_script, "abc nope");
    assert!(config.unreachable_sequences.is_empty());
}

#[test]
fn test_prefix_rule_makes_longer_rule_unreachable() {
    let config = Configuration::from_lines(&string_vec([".- first", ".-.- second"]));
    assert_eq!(config.commands.len(), 2);
    assert_eq!(config.unreachable_sequences, vec![".-.-"]);
}

#[test]
fn test_shebang_names_the_interpreter() {
    let config = Configuration::from_lines(&string_vec([
        "#!/bin/zsh -c",
        "echo prelude",
        ".- echo a",
    ]));
    assert_eq!(config.interpreter, vec!["/bin/zsh", "-c"]);
    assert_eq!(config.pre_script, "#!/bin/zsh -c\necho prelude");
}

#[test]
fn test_shebang_with_spread_spaces() {
    let config = Configuration::from_lines(&string_vec(["   #!  /bin/zsh  -c  ", "world"]));
    assert_eq!(config.interpreter, vec!["/bin/zsh", "-c"]);
}

#[test]
fn test_comment_line_is_no_shebang() {
    let config = Configuration::from_lines(&string_vec([" # /bin/zsh -c ", "default"]));
    assert_eq!(config.interpreter, vec!["/bin/sh"]);
}

#[test]
fn test_compiler_round_trip_on_own_output() {
    let lines = string_vec([" .- x ", "prelude stuff", ".--   yyy  "]);
    let config = Configuration::from_lines(&lines);
    let rendered: Vec<String> = config
        .commands
        .iter()
        .map(|c| format!("{} {}", c.sequence, c.command))
        .collect();
    let again = Configuration::from_lines(&rendered);
    assert_eq!(again.commands.len(), config.commands.len());
    for (a, b) in again.commands.iter().zip(config.commands.iter()) {
        assert_eq!(a.sequence, b.sequence);
        assert_eq!(a.command, b.command);
    }
    assert!(again.pre_script.is_empty());
}

#[test]
fn test_empty_config_installs_nothing() {
    let config = Configuration::from_lines(&Vec::new());
    assert!(config.commands.is_empty());
    assert!(config.pre_script.is_empty());
    assert!(config.unreachable_sequences.is_empty());
    assert_eq!(config.interpreter, vec!["/bin/sh"]);
}
