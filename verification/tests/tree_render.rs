use ctxmerge::tree::generate_project_tree_string;
use ctxmerge::ignore_rules::IgnoreConfig;
use ctxmerge::complete::{suggest_commands, suggest_context_paths};
use ctxmerge::strutil::usize_to_string;

fn entry(parts: &[&str]) -> Vec<String> {
    parts.iter().map(|p| String::from(*p)).collect()
}

#[test]
fn renders_root_only() {
    let entries: Vec<Vec<String>> = Vec::new();
    assert_eq!(generate_project_tree_string("proj", &entries), "proj");
}

#[test]
fn renders_nested_tree() {
    let entries = vec![
        entry(&["src"]),
        entry(&["src", "main.rs"]),
        entry(&["README.md"]),
    ];
    let expected = "proj\n├── README.md\n└── src\n    └── main.rs";
    assert_eq!(generate_project_tree_string("proj", &entries), expected);
}

#[test]
fn tree_output_does_not_depend_on_input_order() {
    let a = vec![entry(&["src"]), entry(&["src", "main.rs"]), entry(&["README.md"])];
    let b = vec![entry(&["README.md"]), entry(&["src", "main.rs"]), entry(&["src"])];
    assert_eq!(
        generate_project_tree_string("proj", &a),
        generate_project_tree_string("proj", &b)
    );
}

#[test]
fn continuation_markers_under_non_last_directories() {
    let entries = vec![
        entry(&["alpha"]),
        entry(&["alpha", "one.txt"]),
        entry(&["alpha", "two.txt"]),
        entry(&["beta"]),
        entry(&["beta", "inner"]),
        entry(&["beta", "inner", "deep.txt"]),
    ];
    let lines = vec![
        "p",
        "├── alpha",
        "│   ├── one.txt",
        "│   └── two.txt",
        "└── beta",
        "    └── inner",
        "        └── deep.txt",
    ];
    assert_eq!(generate_project_tree_string("p", &entries), lines.join("\n"));
}

#[test]
fn ignore_policy_flags_hidden_and_dependency_dirs() {
    let cfg = IgnoreConfig::default();
    assert!(cfg.should_ignore_path(".git"));
    assert!(cfg.should_ignore_path("a/.hidden"));
    assert!(cfg.should_ignore_path("node_modules/pkg/index.js"));
    assert!(cfg.should_ignore_path("a/node_modules/x"));
    assert!(!cfg.should_ignore_path("src/lib.rs"));
    assert!(!cfg.should_ignore_path("my_node_modules_fork"));
}

#[test]
fn ignore_policy_respects_disabled_flags() {
    let cfg = IgnoreConfig { ignore_hidden: false, use_gitignore: false, ignore_node_modules: false };
    assert!(!cfg.should_ignore_path(".git"));
    assert!(!cfg.should_ignore_path("node_modules/x"));
}

#[test]
fn command_suggestions_filter_by_prefix() {
    let all = suggest_commands("/");
    assert_eq!(all, vec!["/add", "/remove", "/context", "/copy", "/help", "/quit"]);
    let c = suggest_commands("/c");
    assert_eq!(c, vec!["/context", "/copy"]);
    let none = suggest_commands("/z");
    assert!(none.is_empty());
}

#[test]
fn context_path_suggestions_filter_selected_paths() {
    let selected = vec![
        String::from("src/lib.rs"),
        String::from("src/main.rs"),
        String::from("README.md"),
    ];
    let s = suggest_context_paths(&selected, "src/");
    assert_eq!(s, vec!["src/lib.rs", "src/main.rs"]);
    let all = suggest_context_paths(&selected, "");
    assert_eq!(all.len(), 3);
}

#[test]
fn decimal_rendering_matches() {
    assert_eq!(usize_to_string(0), "0");
    assert_eq!(usize_to_string(9), "9");
    assert_eq!(usize_to_string(10), "10");
    assert_eq!(usize_to_string(125), "125");
    assert_eq!(usize_to_string(98765), "98765");
}
