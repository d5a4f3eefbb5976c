use ctxmerge::xml::{
    generate_single_file_snippet, set_fragment_index, merge_all_snippets, append_instruction,
    Snippet,
};

fn frag(idx: usize, path: &str, content: &str) -> String {
    let body = if content.is_empty() {
        String::new()
    } else if content.ends_with('\n') {
        content.to_string()
    } else {
        format!("{}\n", content)
    };
    format!(
        "<document index=\"{}\">\n<source>{}</source>\n<document_content>\n{}</document_content>\n</document>",
        idx, path, body
    )
}

fn snip(path: &str, content: &str) -> Snippet {
    Snippet {
        path: String::from(path),
        text: generate_single_file_snippet(path, content, 0),
    }
}

#[test]
fn snippet_exact_text() {
    let s = generate_single_file_snippet("a.txt", "alpha\n", 7);
    assert_eq!(s, frag(7, "a.txt", "alpha\n"));
}

#[test]
fn snippet_appends_missing_newline() {
    let s = generate_single_file_snippet("a.txt", "alpha", 0);
    assert_eq!(s, frag(0, "a.txt", "alpha\n"));
}

#[test]
fn snippet_empty_content() {
    let s = generate_single_file_snippet("a.txt", "", 0);
    assert_eq!(
        s,
        "<document index=\"0\">\n<source>a.txt</source>\n<document_content>\n</document_content>\n</document>"
    );
}

#[test]
fn renumbering_replaces_placeholder() {
    let s = generate_single_file_snippet("a.txt", "alpha\n", 0);
    let r = set_fragment_index(s.as_str(), 42);
    assert_eq!(r, frag(42, "a.txt", "alpha\n"));
}

#[test]
fn merge_empty_cache() {
    let docs: Vec<Snippet> = Vec::new();
    assert_eq!(merge_all_snippets(&docs), "<documents>\n</documents>");
}

#[test]
fn merge_virtual_only() {
    let docs = vec![snip("__PROJECT_TREE__", "root\n")];
    let expected = format!("<documents>\n{}\n</documents>", frag(1, "__PROJECT_TREE__", "root\n"));
    assert_eq!(merge_all_snippets(&docs), expected);
}

#[test]
fn merge_sorts_real_files_and_pins_virtual_first() {
    // inserted out of order: b before a, virtual in the middle
    let docs = vec![
        snip("b.txt", "beta\n"),
        snip("__PROJECT_TREE__", "tree\n"),
        snip("a.txt", "alpha\n"),
    ];
    let expected = format!(
        "<documents>\n{}\n{}\n{}\n</documents>",
        frag(1, "__PROJECT_TREE__", "tree\n"),
        frag(2, "a.txt", "alpha\n"),
        frag(3, "b.txt", "beta\n"),
    );
    assert_eq!(merge_all_snippets(&docs), expected);
}

#[test]
fn merge_is_insertion_order_independent() {
    let one = vec![
        snip("a.txt", "alpha\n"),
        snip("b.txt", "beta\n"),
        snip("__PROJECT_TREE__", "tree\n"),
    ];
    let two = vec![
        snip("__PROJECT_TREE__", "tree\n"),
        snip("b.txt", "beta\n"),
        snip("a.txt", "alpha\n"),
    ];
    assert_eq!(merge_all_snippets(&one), merge_all_snippets(&two));
}

#[test]
fn merge_without_virtual_starts_at_two() {
    let docs = vec![snip("z.txt", "zed\n"), snip("a.txt", "alpha\n")];
    let expected = format!(
        "<documents>\n{}\n{}\n</documents>",
        frag(2, "a.txt", "alpha\n"),
        frag(3, "z.txt", "zed\n"),
    );
    assert_eq!(merge_all_snippets(&docs), expected);
}

#[test]
fn instruction_is_spliced_before_root_close() {
    let xml = "<documents>\n</documents>";
    let out = append_instruction(xml, "Explain X\nAlso Y");
    assert_eq!(
        out,
        "<documents>\n\n<instruction>\nExplain X\nAlso Y\n</instruction></documents>"
    );
}

#[test]
fn instruction_appended_when_root_close_missing() {
    let out = append_instruction("partial", "note");
    assert_eq!(out, "partial\n<instruction>\nnote\n</instruction>\n</documents>");
}
