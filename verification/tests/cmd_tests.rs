use horsetab::cmd::Cmd;
use horsetab::cmd_parser::parse_cmd;

#[test]
fn cmd_test_error() {
    assert_eq!(
        Cmd::parse(" x ").err().unwrap().to_string(),
        "Some commands have incorrect format"
    );
    assert_eq!(
        Cmd::parse(" .-.x-  x ").err().unwrap().to_string(),
        "Some commands have incorrect format"
    );
    assert_eq!(
        Cmd::parse(" . x ").err().unwrap().to_string(),
        "Some commands have incorrect format"
    );
}

#[test]
fn cmd_test_empty_line() {
    assert!(Cmd::parse("").is_err());
    assert!(Cmd::parse("  ").is_err());
}

#[test]
fn cmd_test_command_parse() {
    let res = Cmd::parse(" .-.-   some_cmd.sh    >>log ");
    assert!(res.is_ok());
    let cmd = res.unwrap();
    assert_eq!(cmd.command, "some_cmd.sh    >>log");
    assert_eq!(cmd.sequence, ".-.-");
}

#[test]
fn cmd_test_command_parse_2() {
    let cmd = Cmd::parse("  .-.- one .-.- two").unwrap();
    assert_eq!(cmd.sequence, ".-.-");
    assert_eq!(cmd.command, "one .-.- two")
}

#[test]
fn cmd_parser_test_error() {
    println!("{:?}", parse_cmd(" .-.x-  x ").is_err());
    assert_eq!(
        parse_cmd(" x ").err().unwrap().to_string(),
        "Some commands have incorrect format"
    );
    assert_eq!(
        parse_cmd(" .-.x-  x ").err().unwrap().to_string(),
        "Some commands have incorrect format"
    );
}

#[test]
fn cmd_parser_test_empty_line() {
    assert!(parse_cmd("").is_err());
    assert!(parse_cmd("  ").is_err());
}

#[test]
fn cmd_parser_test_command_parse() {
    let res = parse_cmd(" .-.-   some_cmd.sh    >>log ");
    assert!(res.is_ok());
    let cmd = res.unwrap();
    assert_eq!(cmd.command, "some_cmd.sh    >>log");
    assert_eq!(cmd.sequence, ".-.-");
}

#[test]
fn cmd_parser_test_command_parse_2() {
    let cmd = parse_cmd("  .-.- one .-.- two").unwrap();
    assert_eq!(cmd.sequence, ".-.-");
    assert_eq!(cmd.command, "one .-.- two")
}

#[test]
fn cmd_single_dot_sequences_differ_between_parsers() {
    assert!(Cmd::parse(" . x ").is_err());
    let cmd = parse_cmd(" . x ").unwrap();
    assert_eq!(cmd.sequence, ".");
    assert_eq!(cmd.command, "x");
}
