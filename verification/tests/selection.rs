use ctxmerge::executor::{apply_add_paths, apply_remove_paths, prepare_copy_text, execute_pure};
use ctxmerge::command::Command;
use ctxmerge::snippet_manager::{SnippetManager, FileData};
use ctxmerge::state::{AppState, ReplMode};
use ctxmerge::tokenizer::{calculate_tokens_in_string, calculate_tokens};
use ctxmerge::error::AppError;

fn frag(idx: usize, path: &str, content: &str) -> String {
    let body = if content.is_empty() {
        String::new()
    } else if content.ends_with('\n') {
        content.to_string()
    } else {
        format!("{}\n", content)
    };
    format!(
        "<document index=\"{}\">\n<source>{}</source>\n<document_content>\n{}</document_content>\n</document>",
        idx, path, body
    )
}

fn file(path: &str, content: &str) -> FileData {
    FileData { path: String::from(path), content: String::from(content) }
}

#[test]
fn adding_builds_set_union() {
    let mut st = AppState::new();
    let scanned = vec![String::from("a.txt"), String::from("b.txt")];
    let added = apply_add_paths(&mut st, &scanned);
    assert_eq!(added, 2);
    assert_eq!(st.file_count, 2);
    let mut sel = st.selected_paths.clone();
    sel.sort();
    assert_eq!(sel, vec![String::from("a.txt"), String::from("b.txt")]);
}

#[test]
fn adding_appends_new_paths_in_scan_order() {
    let mut st = AppState::new();
    apply_add_paths(&mut st, &vec![String::from("b.txt")]);
    let added = apply_add_paths(
        &mut st,
        &vec![
            String::from("c.txt"),
            String::from("b.txt"),
            String::from("a.txt"),
            String::from("c.txt"),
        ],
    );
    assert_eq!(added, 2);
    assert_eq!(
        st.selected_paths,
        vec![String::from("b.txt"), String::from("c.txt"), String::from("a.txt")]
    );
}

#[test]
fn readding_is_a_noop() {
    let mut st = AppState::new();
    let scanned = vec![String::from("a.txt")];
    assert_eq!(apply_add_paths(&mut st, &scanned), 1);
    assert_eq!(apply_add_paths(&mut st, &scanned), 0);
    assert_eq!(st.file_count, 1);
    assert_eq!(st.selected_paths, vec![String::from("a.txt")]);
}

#[test]
fn removing_drops_selection_and_fragment_together() {
    let mut st = AppState::new();
    let scanned = vec![String::from("a.txt"), String::from("b.txt")];
    apply_add_paths(&mut st, &scanned);
    SnippetManager::add_files_snippet(
        &mut st,
        &vec![file("a.txt", "alpha\n"), file("b.txt", "beta\n")],
    );
    assert_eq!(st.partial_docs.len(), 2);
    let removed = apply_remove_paths(&mut st, &vec![String::from("a.txt")]);
    assert_eq!(removed, 1);
    assert_eq!(st.selected_paths, vec![String::from("b.txt")]);
    assert_eq!(st.file_count, 1);
    assert_eq!(st.partial_docs.len(), 1);
    assert_eq!(st.partial_docs[0].path, "b.txt");
}

#[test]
fn tokenizer_counts_empty_text_as_zero() {
    assert_eq!(calculate_tokens_in_string("").unwrap(), 0);
}

#[test]
fn tokenizer_counts_known_text() {
    assert_eq!(calculate_tokens_in_string("hello world").unwrap(), 2);
}

#[test]
fn batch_count_is_the_sum() {
    let texts = vec![String::from("hello world"), String::from("alpha beta gamma")];
    let a = calculate_tokens_in_string("hello world").unwrap();
    let b = calculate_tokens_in_string("alpha beta gamma").unwrap();
    assert_eq!(calculate_tokens(&texts).unwrap(), a + b);
}

#[test]
fn rebuild_keeps_count_and_document_consistent() {
    let mut st = AppState::new();
    apply_add_paths(&mut st, &vec![String::from("a.txt")]);
    SnippetManager::add_files_snippet(&mut st, &vec![file("a.txt", "alpha\n")]);
    SnippetManager::update_project_tree_snippet(&mut st, "root\n");
    SnippetManager::rebuild_and_recalc(&mut st).unwrap();
    let recount = calculate_tokens_in_string(st.cached_xml.as_str()).unwrap();
    assert_eq!(st.token_count, recount);
    assert!(st.token_count > 0);
}

#[test]
fn overwriting_a_fragment_keeps_one_entry_per_path() {
    let mut st = AppState::new();
    apply_add_paths(&mut st, &vec![String::from("a.txt")]);
    SnippetManager::add_files_snippet(&mut st, &vec![file("a.txt", "one\n")]);
    SnippetManager::add_files_snippet(&mut st, &vec![file("a.txt", "two\n")]);
    assert_eq!(st.partial_docs.len(), 1);
    assert_eq!(st.partial_docs[0].text, frag(0, "a.txt", "two\n"));
}

#[test]
fn full_refresh_scenario_three_then_two_documents() {
    // add a directory holding a.txt and b.txt, copy, remove a.txt, copy again
    let mut st = AppState::new();
    let scanned = vec![String::from("a.txt"), String::from("b.txt")];
    apply_add_paths(&mut st, &scanned);
    let files = vec![file("a.txt", "alpha\n"), file("b.txt", "beta\n")];
    SnippetManager::full_refresh(&mut st, &files, "tree\n").unwrap();
    let expected = format!(
        "<documents>\n{}\n{}\n{}\n</documents>",
        frag(1, "__PROJECT_TREE__", "tree\n"),
        frag(2, "a.txt", "alpha\n"),
        frag(3, "b.txt", "beta\n"),
    );
    assert_eq!(st.cached_xml, expected);

    apply_remove_paths(&mut st, &vec![String::from("a.txt")]);
    assert_eq!(st.selected_paths, vec![String::from("b.txt")]);
    let files2 = vec![file("b.txt", "beta\n")];
    SnippetManager::full_refresh(&mut st, &files2, "tree\n").unwrap();
    let expected2 = format!(
        "<documents>\n{}\n{}\n</documents>",
        frag(1, "__PROJECT_TREE__", "tree\n"),
        frag(2, "b.txt", "beta\n"),
    );
    assert_eq!(st.cached_xml, expected2);
}

#[test]
fn copy_embeds_the_pending_instruction() {
    let mut st = AppState::new();
    execute_pure(&mut st, &Command::Mode(Some(String::from("prompt"))));
    assert_eq!(st.mode, ReplMode::Prompt);
    execute_pure(&mut st, &Command::AppendPromptText(String::from("Explain X")));
    execute_pure(&mut st, &Command::AppendPromptText(String::from("Also Y")));
    assert_eq!(st.prompt_text, "Explain X\nAlso Y");
    SnippetManager::full_refresh(&mut st, &Vec::new(), "tree\n").unwrap();
    let text = prepare_copy_text(&mut st);
    assert!(text.ends_with("\n<instruction>\nExplain X\nAlso Y\n</instruction></documents>"));
    assert_eq!(st.cached_xml, text);
}

#[test]
fn copy_without_instruction_hands_back_the_document() {
    let mut st = AppState::new();
    SnippetManager::full_refresh(&mut st, &Vec::new(), "tree\n").unwrap();
    let before = st.cached_xml.clone();
    let text = prepare_copy_text(&mut st);
    assert_eq!(text, before);
    assert_eq!(st.cached_xml, before);
}

#[test]
fn error_messages_name_the_failure() {
    assert_eq!(AppError::TokenizerUnavailable.message(), "tokenizer unavailable");
    assert_eq!(AppError::PathNotFound.message(), "path not found");
    assert_eq!(AppError::ReadFailure.message(), "file could not be read");
    assert_eq!(AppError::ClipboardFailure.message(), "clipboard write failed");
}
