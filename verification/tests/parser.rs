use ctxmerge::command::{parse, Command};

#[test]
fn parse_add_with_arg() {
    match parse("/add src/main.rs").unwrap() {
        Command::Add(p) => assert_eq!(p, "src/main.rs"),
        other => panic!("wrong command: {:?}", other),
    }
}

#[test]
fn parse_add_without_arg_gives_empty_path() {
    match parse("/add").unwrap() {
        Command::Add(p) => assert_eq!(p, ""),
        other => panic!("wrong command: {:?}", other),
    }
}

#[test]
fn parse_remove() {
    match parse("/remove a.txt").unwrap() {
        Command::Remove(p) => assert_eq!(p, "a.txt"),
        other => panic!("wrong command: {:?}", other),
    }
}

#[test]
fn parse_simple_commands() {
    assert!(matches!(parse("/context").unwrap(), Command::ShowContext));
    assert!(matches!(parse("/copy").unwrap(), Command::Copy));
    assert!(matches!(parse("/reset").unwrap(), Command::Reset));
    assert!(matches!(parse("/help").unwrap(), Command::Help));
    assert!(matches!(parse("/quit").unwrap(), Command::Quit));
    assert!(matches!(parse("/resetprompt").unwrap(), Command::ResetPrompt));
    assert!(matches!(parse("/prompt").unwrap(), Command::Prompt));
}

#[test]
fn parse_mode_query_and_switch() {
    assert!(matches!(parse("/mode").unwrap(), Command::Mode(None)));
    match parse("/mode prompt").unwrap() {
        Command::Mode(Some(m)) => assert_eq!(m, "prompt"),
        other => panic!("wrong command: {:?}", other),
    }
}

#[test]
fn parse_non_sigil_line_is_unknown() {
    match parse("hello there").unwrap() {
        Command::Unknown(s) => assert_eq!(s, "hello there"),
        other => panic!("wrong command: {:?}", other),
    }
}

#[test]
fn parse_unrecognised_command_is_unknown() {
    match parse("/frobnicate now").unwrap() {
        Command::Unknown(s) => assert_eq!(s, "/frobnicate now"),
        other => panic!("wrong command: {:?}", other),
    }
}

#[test]
fn parse_ignores_extra_tokens() {
    match parse("/add one two three").unwrap() {
        Command::Add(p) => assert_eq!(p, "one"),
        other => panic!("wrong command: {:?}", other),
    }
}

#[test]
fn parse_empty_line_is_unknown() {
    assert!(matches!(parse("").unwrap(), Command::Unknown(_)));
}
