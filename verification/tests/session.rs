use ctxmerge::command::Command;
use ctxmerge::engine::{
    route_line, LineAction, SubmitValidator, commit_multiline, handle_interrupt, enter_multiline,
};
use ctxmerge::executor::{execute_pure, is_command_valid_in_mode, Directive};
use ctxmerge::state::{AppState, ReplMode, ReplEditorMode};

fn snapshot(st: &AppState) -> (Vec<String>, usize, usize, Vec<(String, String)>, String, ReplMode, String, ReplEditorMode) {
    (
        st.selected_paths.clone(),
        st.file_count,
        st.token_count,
        st.partial_docs.iter().map(|s| (s.path.clone(), s.text.clone())).collect(),
        st.cached_xml.clone(),
        st.mode,
        st.prompt_text.clone(),
        st.editor_mode,
    )
}

#[test]
fn new_state_is_empty() {
    let st = AppState::new();
    assert!(st.selected_paths.is_empty());
    assert_eq!(st.file_count, 0);
    assert_eq!(st.token_count, 0);
    assert!(st.partial_docs.is_empty());
    assert_eq!(st.cached_xml, "");
    assert_eq!(st.mode, ReplMode::Manual);
    assert_eq!(st.prompt_text, "");
    assert_eq!(st.editor_mode, ReplEditorMode::SingleLine);
}

#[test]
fn allow_list_matches_modes() {
    let add = Command::Add(String::from("x"));
    let append = Command::AppendPromptText(String::from("x"));
    assert!(is_command_valid_in_mode(&add, &ReplMode::Manual));
    assert!(!is_command_valid_in_mode(&add, &ReplMode::Prompt));
    assert!(!is_command_valid_in_mode(&append, &ReplMode::Manual));
    assert!(is_command_valid_in_mode(&append, &ReplMode::Prompt));
    assert!(!is_command_valid_in_mode(&Command::Reset, &ReplMode::Prompt));
    assert!(is_command_valid_in_mode(&Command::Copy, &ReplMode::Prompt));
    assert!(is_command_valid_in_mode(&Command::Quit, &ReplMode::Manual));
}

#[test]
fn rejected_command_leaves_state_untouched() {
    let mut st = AppState::new();
    st.mode = ReplMode::Prompt;
    st.prompt_text = String::from("keep me");
    st.selected_paths.push(String::from("a.txt"));
    st.file_count = 1;
    st.token_count = 5;
    st.cached_xml = String::from("<documents>\n</documents>");
    let before = snapshot(&st);
    let d = execute_pure(&mut st, &Command::Add(String::from("b.txt")));
    assert!(matches!(d, Directive::Rejected));
    assert_eq!(snapshot(&st), before);
    let d2 = execute_pure(&mut st, &Command::Reset);
    assert!(matches!(d2, Directive::Rejected));
    assert_eq!(snapshot(&st), before);
}

#[test]
fn unknown_command_leaves_state_untouched() {
    let mut st = AppState::new();
    st.prompt_text = String::from("p");
    let before = snapshot(&st);
    let d = execute_pure(&mut st, &Command::Unknown(String::from("/nope")));
    assert!(matches!(d, Directive::UnknownNotice));
    assert_eq!(snapshot(&st), before);
}

#[test]
fn reset_clears_everything_at_once() {
    let mut st = AppState::new();
    st.selected_paths.push(String::from("a.txt"));
    st.file_count = 1;
    st.token_count = 7;
    st.cached_xml = String::from("doc");
    st.prompt_text = String::from("pending");
    let d = execute_pure(&mut st, &Command::Reset);
    assert!(matches!(d, Directive::Done));
    assert!(st.selected_paths.is_empty());
    assert_eq!(st.file_count, 0);
    assert_eq!(st.token_count, 0);
    assert!(st.partial_docs.is_empty());
    assert_eq!(st.cached_xml, "");
    assert_eq!(st.prompt_text, "");
    assert_eq!(st.mode, ReplMode::Manual);
}

#[test]
fn mode_switch_and_query() {
    let mut st = AppState::new();
    let d = execute_pure(&mut st, &Command::Mode(Some(String::from("PROMPT"))));
    assert!(matches!(d, Directive::ModeSwitched));
    assert_eq!(st.mode, ReplMode::Prompt);
    let d2 = execute_pure(&mut st, &Command::Mode(Some(String::from("manual"))));
    assert!(matches!(d2, Directive::ModeSwitched));
    assert_eq!(st.mode, ReplMode::Manual);
    let d3 = execute_pure(&mut st, &Command::Mode(Some(String::from("weird"))));
    assert!(matches!(d3, Directive::UnknownMode));
    assert_eq!(st.mode, ReplMode::Manual);
    let d4 = execute_pure(&mut st, &Command::Mode(None));
    assert!(matches!(d4, Directive::ShowMode));
}

#[test]
fn prompt_command_auto_switches_and_opens_capture() {
    let mut st = AppState::new();
    let d = execute_pure(&mut st, &Command::Prompt);
    assert!(matches!(d, Directive::EnterMultiline(true)));
    assert_eq!(st.mode, ReplMode::Prompt);
    assert_eq!(st.editor_mode, ReplEditorMode::MultiLine);
    st.editor_mode = ReplEditorMode::SingleLine;
    let d2 = execute_pure(&mut st, &Command::Prompt);
    assert!(matches!(d2, Directive::EnterMultiline(false)));
}

#[test]
fn appending_instruction_lines() {
    let mut st = AppState::new();
    st.mode = ReplMode::Prompt;
    execute_pure(&mut st, &Command::AppendPromptText(String::from("Explain X")));
    assert_eq!(st.prompt_text, "Explain X");
    execute_pure(&mut st, &Command::AppendPromptText(String::from("Also Y")));
    assert_eq!(st.prompt_text, "Explain X\nAlso Y");
}

#[test]
fn reset_prompt_clears_only_instruction() {
    let mut st = AppState::new();
    st.prompt_text = String::from("x");
    st.token_count = 3;
    let d = execute_pure(&mut st, &Command::ResetPrompt);
    assert!(matches!(d, Directive::Done));
    assert_eq!(st.prompt_text, "");
    assert_eq!(st.token_count, 3);
}

#[test]
fn validator_detects_sentinel() {
    let v = SubmitValidator;
    assert!(v.validate("hello\n:submit"));
    assert!(v.validate("hello\n  :submit  "));
    assert!(v.validate(":submit"));
    assert!(!v.validate("hello"));
    assert!(!v.validate("hello\n:submit\nmore"));
    assert!(!v.validate(""));
}

#[test]
fn commit_strips_sentinel_line() {
    let mut st = AppState::new();
    st.editor_mode = ReplEditorMode::MultiLine;
    commit_multiline(&mut st, "line one\nline two\n:submit");
    assert_eq!(st.prompt_text, "line one\nline two");
    assert_eq!(st.editor_mode, ReplEditorMode::SingleLine);
}

#[test]
fn commit_of_sentinel_only_gives_empty_instruction() {
    let mut st = AppState::new();
    st.editor_mode = ReplEditorMode::MultiLine;
    commit_multiline(&mut st, ":submit");
    assert_eq!(st.prompt_text, "");
}

#[test]
fn interrupt_cancels_capture_keeping_instruction() {
    let mut st = AppState::new();
    st.prompt_text = String::from("committed earlier");
    enter_multiline(&mut st);
    assert_eq!(st.editor_mode, ReplEditorMode::MultiLine);
    let quit = handle_interrupt(&mut st);
    assert!(!quit);
    assert_eq!(st.editor_mode, ReplEditorMode::SingleLine);
    assert_eq!(st.prompt_text, "committed earlier");
    let quit2 = handle_interrupt(&mut st);
    assert!(quit2);
}

#[test]
fn routing_blank_and_text_and_commands() {
    assert!(matches!(route_line(&ReplMode::Manual, "   "), LineAction::Ignore));
    match route_line(&ReplMode::Prompt, "free text line") {
        LineAction::Dispatch(Command::AppendPromptText(t)) => assert_eq!(t, "free text line"),
        other => panic!("wrong action: {:?}", dbg_action(&other)),
    }
    assert!(matches!(route_line(&ReplMode::Prompt, "/prompt"), LineAction::EnterMultiline));
    match route_line(&ReplMode::Manual, "/prompt") {
        LineAction::Dispatch(Command::Prompt) => {},
        other => panic!("wrong action: {:?}", dbg_action(&other)),
    }
    match route_line(&ReplMode::Manual, "/add x") {
        LineAction::Dispatch(Command::Add(p)) => assert_eq!(p, "x"),
        other => panic!("wrong action: {:?}", dbg_action(&other)),
    }
    match route_line(&ReplMode::Manual, "plain words") {
        LineAction::Dispatch(Command::Unknown(s)) => assert_eq!(s, "plain words"),
        other => panic!("wrong action: {:?}", dbg_action(&other)),
    }
}

fn dbg_action(a: &LineAction) -> &'static str {
    match a {
        LineAction::Ignore => "Ignore",
        LineAction::EnterMultiline => "EnterMultiline",
        LineAction::Dispatch(_) => "Dispatch",
    }
}
