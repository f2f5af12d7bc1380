use horsetab::sequence_automata::{AutomataInstruction, SequenceAutomata};

fn char_to_instruction(c: char) -> AutomataInstruction {
    match c {
        'R' => AutomataInstruction::Reset,
        _ => AutomataInstruction::Char(c),
    }
}

fn build_automata(binary_strings: &[&str]) -> SequenceAutomata {
    SequenceAutomata::new(binary_strings)
}

fn check_results(
    automata: &mut SequenceAutomata,
    sequence: &str,
    results: &[Option<Vec<usize>>],
) {
    assert_eq!(sequence.len(), results.len());
    let instructions: Vec<AutomataInstruction> =
        sequence.chars().map(char_to_instruction).collect();
    for i in 0..sequence.len() {
        let result = automata.put(instructions[i]);
        assert_eq!(result, results[i]);
    }
}

#[test]
fn test_sequence_1() {
    let mut automata = build_automata(&["0101"]);
    check_results(&mut automata, "0101", &[None, None, None, Some(vec![0])]);
}

#[test]
fn test_sequence_2() {
    let mut automata = build_automata(&["10", "1", "abc"]);
    check_results(
        &mut automata,
        "01Rabc",
        &[None, None, None, None, None, Some(vec![2])],
    );
}

#[test]
fn test_overlap() {
    let mut automata = build_automata(&["01", "011"]);
    check_results(&mut automata, "011", &[None, Some(vec![0]), None]);
}

#[test]
fn test_sequence_match_multiple_simultaneously() {
    let mut automata = build_automata(&["0101", "0111", "0101"]);
    check_results(&mut automata, "0101", &[None, None, None, Some(vec![0, 2])]);
}

#[test]
fn test_sequence_match_twice_in_a_row() {
    let mut automata = build_automata(&["0101"]);
    check_results(
        &mut automata,
        "01010101",
        &[
            None,
            None,
            None,
            Some(vec![0]),
            None,
            None,
            None,
            Some(vec![0]),
        ],
    );
}

#[test]
fn test_must_be_resetted_otherwise_wont_match() {
    let mut automata = build_automata(&["011"]);
    check_results(
        &mut automata,
        "0011R011",
        &[None, None, None, None, None, None, None, Some(vec![0])],
    );
}

#[test]
fn test_sequence_becomes_unreachable() {
    let mut automata = build_automata(&["0111", "011"]);
    check_results(&mut automata, "0111", &[None, None, Some(vec![1]), None]);
}

#[test]
fn test_dot_dash_rules_fire_in_order() {
    let mut automata = build_automata(&[".-", ".-.-"]);
    check_results(
        &mut automata,
        ".-.-",
        &[None, Some(vec![0]), None, Some(vec![0])],
    );
}

#[test]
fn test_char_against_empty_tree_fails_until_reset() {
    let mut automata = build_automata(&[]);
    check_results(&mut automata, "ab", &[None, None]);
    let mut other = build_automata(&["x"]);
    check_results(&mut other, "abRx", &[None, None, None, Some(vec![0])]);
}
