//! The injection commands on small workspaces.

use deepseek_tui::conversation::{App, AppAction, ContentBlock, HistoryCell};
use deepseek_tui::inject::{
    full_codes_tokens, inject_full_codes, is_countable, parse_inject_arg, tokens_to_bytes,
    DEFAULT_MAX_INJECT_TOKENS, NO_AGENTSEE, NO_AGENTSEE_TO_ESTIMATE, NO_MATCH,
    NO_MATCH_TO_ESTIMATE,
};
use deepseek_tui::workspace::{AgentseeFile, Entry, Workspace};

/// An application whose workspace holds the given files. A file `.ignore` hides
/// what its patterns match, and hidden files are not walked.
fn app_with(files: &[(&str, &str)]) -> App {
    let text_of = |name: &str| files.iter().find(|f| f.0 == name).map(|f| f.1);
    let mut ignored = ignore::gitignore::GitignoreBuilder::new("");
    for line in text_of(".ignore").unwrap_or("").lines() {
        ignored.add_line(None, line).unwrap();
    }
    let ignored = ignored.build().unwrap();
    let mut entries: Vec<Entry> = Vec::new();
    for (path, content) in files {
        let hidden = path.split('/').any(|part| part.starts_with('.'));
        if hidden || ignored.matched_path_or_any_parents(path, false).is_ignore() {
            continue;
        }
        entries.push(Entry {
            path: path.to_string(),
            is_file: true,
            content: Some(content.to_string()),
        });
    }
    App {
        workspace: Workspace {
            root: "/work".to_string(),
            is_dir: true,
            agentsee: match text_of(".agentsee") {
                Some(text) => AgentseeFile::Text(text.to_string()),
                None => AgentseeFile::Missing,
            },
            entries,
        },
        max_inject_tokens: DEFAULT_MAX_INJECT_TOKENS,
        api_messages: Vec::new(),
        history: Vec::new(),
        history_updated: false,
    }
}

fn injected_paths(app: &App) -> Vec<String> {
    let mut paths = Vec::new();
    for msg in &app.api_messages {
        for block in &msg.content {
            if let ContentBlock::ToolUse { name, input, .. } = block {
                if name == "read_file" {
                    paths.push(input.path.clone());
                }
            }
        }
    }
    paths
}

fn injected_contents(app: &App) -> Vec<String> {
    let mut contents = Vec::new();
    for msg in &app.api_messages {
        for block in &msg.content {
            if let ContentBlock::ToolResult { content, .. } = block {
                contents.push(content.clone());
            }
        }
    }
    contents
}

fn sent(action: &Option<AppAction>) -> Option<&str> {
    match action {
        Some(AppAction::SendMessage(text)) => Some(text.as_str()),
        None => None,
    }
}

fn cell(app: &App, i: usize) -> &str {
    match &app.history[i] {
        HistoryCell::System { content } => content.as_str(),
    }
}

#[test]
fn inject_empty_workspace_returns_message() {
    let mut app = app_with(&[]);
    let result = inject_full_codes(&mut app, None);
    assert!(result.message.is_some());
    let msg = result.message.unwrap();
    assert!(msg.contains("No .agentsee file found"), "unexpected message: {msg}");
}

#[test]
fn inject_collects_source_and_doc_files() {
    let mut app = app_with(&[
        (".agentsee", "*.rs\n*.md\n*.toml\n"),
        ("main.rs", "fn main() {}"),
        ("README.md", "# My Project"),
        ("Cargo.toml", "[package]\nname = \"x\""),
    ]);
    let result = inject_full_codes(&mut app, None);

    assert!(result.message.is_some());
    let status = result.message.unwrap();
    assert!(status.contains("Injected 3 files"), "got: {status}");

    let paths = injected_paths(&app);
    assert!(paths.contains(&"main.rs".to_string()), "paths: {paths:?}");
    assert!(paths.contains(&"README.md".to_string()), "paths: {paths:?}");
    assert!(paths.contains(&"Cargo.toml".to_string()), "paths: {paths:?}");

    let contents = injected_contents(&app);
    let all_content = contents.join("\n");
    assert!(all_content.contains("fn main() {}"));
    assert!(all_content.contains("# My Project"));
    assert!(all_content.contains("[package]"));

    assert!(
        matches!(&result.action, Some(AppAction::SendMessage(t)) if t.contains("Full Project Code Injection"))
    );
}

#[test]
fn inject_respects_agentsee() {
    let mut app = app_with(&[
        (".agentsee", "*.rs\n*.py\n!excluded/\n"),
        ("excluded/hidden.rs", "fn hidden() {}"),
        ("secret.py", "print('secret')"),
        ("visible.rs", "fn visible() {}"),
        ("README.md", "# not listed"),
        ("excluded/keep.py", "print('nope')"),
    ]);
    let _ = inject_full_codes(&mut app, None);

    let paths = injected_paths(&app);
    assert!(
        paths.contains(&"visible.rs".to_string()),
        "visible.rs should be included; paths: {paths:?}"
    );
    assert!(
        paths.contains(&"secret.py".to_string()),
        "secret.py should be included; paths: {paths:?}"
    );
    assert!(
        !paths.contains(&"excluded/hidden.rs".to_string()),
        "excluded/hidden.rs should be force-excluded; paths: {paths:?}"
    );
    assert!(
        !paths.contains(&"excluded/keep.py".to_string()),
        "excluded/keep.py should be force-excluded; paths: {paths:?}"
    );
    assert!(
        !paths.contains(&"README.md".to_string()),
        "README.md should not be included (not in .agentsee); paths: {paths:?}"
    );

    let rs_idx =
        paths.iter().position(|p| p == "visible.rs").expect("visible.rs should be present");
    let py_idx = paths.iter().position(|p| p == "secret.py").expect("secret.py should be present");
    assert!(rs_idx < py_idx, "*.rs (higher priority) must appear before *.py in tool call list");
}

#[test]
fn inject_agentsee_last_match_wins_include_overrides_early_exclude() {
    let mut app =
        app_with(&[(".agentsee", "!excluded/\n*.py\n"), ("excluded/keep.py", "print('kept')")]);
    let _ = inject_full_codes(&mut app, None);

    let paths = injected_paths(&app);
    assert!(
        paths.contains(&"excluded/keep.py".to_string()),
        "excluded/keep.py should be included: *.py (pos 1) overrides !excluded/ (pos 0); paths: {paths:?}"
    );
}

#[test]
fn inject_agentsee_budget_skips_low_priority_first() {
    let big_content = "x".repeat(tokens_to_bytes(DEFAULT_MAX_INJECT_TOKENS));
    let mut app = app_with(&[
        (".agentsee", "*.toml\n*.rs\n"),
        ("Cargo.toml", "[package]\nname = \"x\""),
        ("big.rs", &big_content),
        ("small.rs", "fn main() {}"),
    ]);
    let _ = inject_full_codes(&mut app, None);

    let paths = injected_paths(&app);
    assert!(paths.contains(&"Cargo.toml".to_string()));
    assert!(!paths.contains(&"big.rs".to_string()));
}

#[test]
fn inject_agentsee_nested_dir_priority() {
    let mut app = app_with(&[
        (".agentsee", "core/utils/\ncore/\n"),
        ("core/utils/helpers.py", "def help(): pass"),
        ("core/lib.rs", "pub mod utils;"),
        ("README.md", "# readme"),
    ]);
    let _ = inject_full_codes(&mut app, None);

    let paths = injected_paths(&app);
    let utils_idx =
        paths.iter().position(|p| p.contains("helpers.py")).expect("helpers.py should be present");
    let lib_idx =
        paths.iter().position(|p| p == "core/lib.rs").expect("core/lib.rs should be present");
    assert!(utils_idx < lib_idx, "core/utils/ (higher priority) must come before core/ files");
    assert!(!paths.contains(&"README.md".to_string()));
}

#[test]
fn inject_agentsee_specificity_wins_over_bare_pattern() {
    let mut app = app_with(&[
        (".agentsee", "README.md\ndocs/\n"),
        ("docs/README.md", "# sub readme"),
        ("README.md", "# root readme"),
    ]);
    let _ = inject_full_codes(&mut app, None);

    let paths = injected_paths(&app);
    assert!(paths.contains(&"README.md".to_string()));
    assert!(paths.contains(&"docs/README.md".to_string()));
    let root_pos =
        paths.iter().position(|p| p == "README.md").expect("root README.md should be present");
    let docs_pos =
        paths.iter().position(|p| p == "docs/README.md").expect("docs/README.md should be present");
    assert!(root_pos < docs_pos, "root README.md (pos 0) should come before docs/README.md (pos 1)");
}

#[test]
fn inject_no_agentsee_reports_missing_file() {
    let mut app = app_with(&[("a.rs", "fn a() {}"), ("b.py", "print('b')")]);
    let result = inject_full_codes(&mut app, None);

    let msg = result.message.unwrap();
    assert!(
        msg.contains("No .agentsee file found"),
        "expected missing-.agentsee error, got: {msg}"
    );
}

#[test]
fn inject_respects_gitignore() {
    let mut app = app_with(&[
        (".agentsee", "*.rs\n"),
        (".ignore", "ignored/\n"),
        ("ignored/secret.rs", "fn secret() {}"),
        ("visible.rs", "fn visible() {}"),
    ]);
    let _ = inject_full_codes(&mut app, None);

    let paths = injected_paths(&app);
    assert!(paths.contains(&"visible.rs".to_string()), "paths: {paths:?}");
    assert!(!paths.contains(&"secret.rs".to_string()), "ignored file leaked: {paths:?}");
    assert!(!paths.contains(&"ignored/secret.rs".to_string()), "ignored file leaked: {paths:?}");
}

#[test]
fn inject_skips_empty_files() {
    let mut app =
        app_with(&[(".agentsee", "*.rs\n"), ("empty.rs", ""), ("real.rs", "fn real() {}")]);
    let _ = inject_full_codes(&mut app, None);

    let paths = injected_paths(&app);
    assert!(paths.contains(&"real.rs".to_string()));
    assert!(!paths.contains(&"empty.rs".to_string()));
}

#[test]
fn inject_skips_files_not_in_agentsee() {
    let mut app = app_with(&[
        (".agentsee", "*.rs\n"),
        ("image.png", "fake-png-data"),
        ("lib.rs", "pub fn x() {}"),
    ]);
    let _ = inject_full_codes(&mut app, None);

    let paths = injected_paths(&app);
    assert!(paths.contains(&"lib.rs".to_string()));
    assert!(!paths.contains(&"image.png".to_string()));
}

#[test]
fn inject_with_user_text_adds_final_message() {
    let mut app = app_with(&[(".agentsee", "*.rs\n"), ("main.rs", "fn main() {}")]);
    let result = inject_full_codes(&mut app, Some("总结项目内容".to_string()));

    assert!(result.message.is_some());
    let status = result.message.unwrap();
    assert!(status.contains("Injected 1 file"), "got: {status}");

    assert!(
        matches!(&result.action, Some(AppAction::SendMessage(t)) if t == "总结项目内容")
    );

    let paths = injected_paths(&app);
    assert!(paths.contains(&"main.rs".to_string()));
}

#[test]
fn injection_writes_its_texts_exactly() {
    let mut app = app_with(&[
        (".agentsee", "*.md\n*.rs\n"),
        ("b.rs", "bb"),
        ("a.rs", "a"),
        ("__init__.md", "# x"),
        ("blank.rs", " \n\t"),
    ]);
    let result = inject_full_codes(&mut app, None);

    let header = "## Full Project Code Injection\n\nWorkspace: /work\nFiles injected: 3 (~0 KB total)\n\nThe following files have been loaded via read_file calls and are now available in your context.";
    assert_eq!(app.history.len(), 2);
    assert_eq!(cell(&app, 0), header);
    assert_eq!(
        cell(&app, 1),
        "Injected 3 files as read_file calls:\n  `__init__.md`\n  `a.rs`\n  `b.rs`\n"
    );
    assert!(app.history_updated);
    assert_eq!(
        result.message.as_deref(),
        Some("Injected 3 files (~0 KB) into context as read_file calls (budget: ~200K tokens)")
    );
    assert_eq!(sent(&result.action), Some(header));
    assert_eq!(injected_paths(&app), ["__init__.md", "a.rs", "b.rs"]);
    assert_eq!(injected_contents(&app), ["# x", "a", "bb"]);
}

#[test]
fn injection_adds_a_call_and_its_result_for_each_file() {
    let names: Vec<String> = (0..12).map(|i| format!("f{i:02}.rs")).collect();
    let mut files: Vec<(&str, &str)> = vec![(".agentsee", "*.rs")];
    for name in &names {
        files.push((name.as_str(), name.as_str()));
    }
    let mut app = app_with(&files);
    let _ = inject_full_codes(&mut app, None);
    assert_eq!(app.api_messages.len(), 24);
    for i in 0..12 {
        let call = &app.api_messages[2 * i];
        let result = &app.api_messages[2 * i + 1];
        assert_eq!(call.role, "assistant");
        assert_eq!(result.role, "user");
        assert_eq!(call.content.len(), 1);
        assert_eq!(result.content.len(), 1);
        match &call.content[0] {
            ContentBlock::ToolUse { id, name, input } => {
                assert_eq!(id, &format!("inj_{i}"));
                assert_eq!(name, "read_file");
                assert_eq!(&input.path, &names[i]);
            }
            ContentBlock::ToolResult { .. } => panic!("a result in place of a call"),
        }
        match &result.content[0] {
            ContentBlock::ToolResult { tool_use_id, content, is_error } => {
                assert_eq!(tool_use_id, &format!("inj_{i}"));
                assert_eq!(content, &names[i]);
                assert!(is_error.is_none());
            }
            ContentBlock::ToolUse { .. } => panic!("a call in place of a result"),
        }
    }
}

#[test]
fn injection_notes_what_it_skips() {
    let kilobyte = "k".repeat(1024);
    let mut app = app_with(&[
        (".agentsee", "*.rs\n"),
        ("a.rs", &kilobyte),
        ("b.rs", &kilobyte),
        ("c.rs", &kilobyte),
        ("d.rs", "d"),
    ]);
    let result = inject_full_codes(&mut app, Some("--max-tokens 513 go on ".to_string()));
    assert_eq!(injected_paths(&app), ["a.rs", "b.rs", "d.rs"]);
    assert_eq!(
        result.message.as_deref(),
        Some("Injected 3 files (~2 KB) into context as read_file calls (budget: ~0K tokens) (1 file(s) skipped due to size budget)")
    );
    assert!(cell(&app, 0).contains(
        "Files injected: 3 (~2 KB total) (1 file(s) skipped due to size budget)\n\nThe following"
    ));
    assert_eq!(sent(&result.action), Some("go on"));
}

#[test]
fn injection_without_a_plan_changes_nothing() {
    let mut missing = app_with(&[("a.rs", "a")]);
    let result = inject_full_codes(&mut missing, None);
    assert_eq!(result.message.as_deref(), Some(NO_AGENTSEE));
    assert_eq!(
        NO_AGENTSEE,
        "No .agentsee file found at workspace root.\n\n\
         Create a .agentsee file to specify which files to inject. \
         Each line is a gitignore-style pattern for files to INCLUDE \
         (e.g. \"*.rs\", \"src/\"). Lines starting with ! are force-excluded \
         (e.g. \"!tests/\")."
    );
    assert!(result.action.is_none());
    assert!(missing.api_messages.is_empty() && missing.history.is_empty());
    assert!(!missing.history_updated);

    let mut unmatched = app_with(&[(".agentsee", "*.rs"), ("a.py", "a")]);
    let result = inject_full_codes(&mut unmatched, None);
    assert_eq!(result.message.as_deref(), Some(NO_MATCH));
    assert_eq!(
        NO_MATCH,
        "No files matched the .agentsee patterns. \
         Check that your patterns match files in the workspace."
    );
    assert!(result.action.is_none());
    assert!(unmatched.api_messages.is_empty() && unmatched.history.is_empty());

    let mut blank = app_with(&[(".agentsee", " \n"), ("a.rs", "a")]);
    assert_eq!(inject_full_codes(&mut blank, None).message.as_deref(), Some(NO_MATCH));

    let mut unreadable = app_with(&[(".agentsee", "*.rs"), ("a.rs", "a")]);
    unreadable.workspace.agentsee = AgentseeFile::Unreadable;
    assert_eq!(inject_full_codes(&mut unreadable, None).message.as_deref(), Some(NO_MATCH));
}

#[test]
fn selected_files_that_are_all_blank_still_make_a_plan() {
    let mut app = app_with(&[(".agentsee", "*.rs"), ("a.rs", "\n")]);
    let result = inject_full_codes(&mut app, None);
    assert_eq!(
        result.message.as_deref(),
        Some("Injected 0 files (~0 KB) into context as read_file calls (budget: ~200K tokens)")
    );
    assert!(app.api_messages.is_empty());
    assert_eq!(cell(&app, 1), "Injected 0 files as read_file calls:\n");
}

#[test]
fn blank_user_text_sends_the_header() {
    let mut app = app_with(&[(".agentsee", "*.rs"), ("a.rs", "a")]);
    let result = inject_full_codes(&mut app, Some("  \t".to_string()));
    assert!(sent(&result.action).unwrap().starts_with("## Full Project Code Injection"));
}

#[test]
fn injection_keeps_what_is_already_there() {
    let mut app = app_with(&[(".agentsee", "*.rs"), ("a.rs", "a")]);
    let _ = inject_full_codes(&mut app, None);
    let _ = inject_full_codes(&mut app, None);
    assert_eq!(app.api_messages.len(), 4);
    assert_eq!(app.history.len(), 4);
    assert_eq!(injected_paths(&app), ["a.rs", "a.rs"]);
}

#[test]
fn the_walk_may_come_in_any_order() {
    let files = [("b.rs", "2"), ("a/z.rs", "1"), ("Cargo.toml", "0"), ("c.rs", "3")];
    let mut orders: Vec<Vec<String>> = Vec::new();
    for turn in 0..files.len() {
        let mut turned: Vec<(&str, &str)> = vec![(".agentsee", "*.toml\n*.rs\n")];
        for i in 0..files.len() {
            turned.push(files[(i + turn) % files.len()]);
        }
        let mut app = app_with(&turned);
        let _ = inject_full_codes(&mut app, None);
        orders.push(injected_paths(&app));
    }
    for order in &orders {
        assert_eq!(order, &["Cargo.toml", "a/z.rs", "b.rs", "c.rs"]);
    }
}

#[test]
fn estimate_reports_exactly() {
    let app = app_with(&[
        (".agentsee", "*.md\nsrc/\n"),
        ("README.md", "12345"),
        ("src/main.rs", "fn main() {}"),
        ("src/ünï.rs", "é"),
    ]);
    assert!(is_countable(&app.workspace));
    let result = full_codes_tokens(&app, None);
    // README.md: 9 + 64 + 8 + 32, src/main.rs: 11 + 64 + 12 + 32,
    // src/ünï.rs: 12 bytes of path + 64 + 4 + 32, and 256 for the header.
    assert_eq!(
        result.message.as_deref(),
        Some(
            "Full Codes Token Estimate (as read_file tool calls)\n\
             Workspace: /work\n\
             Budget: ~200000 tokens\n\
             Files: 3\n\
             Content size: ~0 KB\n\
             Estimated tokens: ~150  (~4 chars/token heuristic)\n\
             content: ~6\n\
             framing: ~144\n\
             \n\
             Per-file breakdown (priority order):\n\
             \u{20} `README.md`     ~2 tokens\n\
             \u{20} `src/main.rs`   ~3 tokens\n\
             \u{20} `src/ünï.rs`  ~1 tokens\n"
        )
    );
    assert!(result.action.is_none());
}

#[test]
fn estimate_pads_to_eight_columns_at_least() {
    let app = app_with(&[(".agentsee", "*.c\n"), ("a.c", "1")]);
    assert!(is_countable(&app.workspace));
    let message = full_codes_tokens(&app, None).message.unwrap();
    assert!(message.ends_with("(priority order):\n  `a.c`     ~1 tokens\n"), "got: {message}");
}

#[test]
fn estimate_tells_what_is_skipped() {
    let app = app_with(&[(".agentsee", "*.rs\n"), ("a.rs", "12345678"), ("b.rs", "1")]);
    assert!(is_countable(&app.workspace));
    let message = full_codes_tokens(&app, Some("--max-tokens 2".to_string())).message.unwrap();
    assert!(message.contains("Budget: ~2 tokens\nFiles: 1\n"), "got: {message}");
    assert!(
        message.contains("\nFiles skipped (budget): 1\n\nPer-file breakdown"),
        "got: {message}"
    );
}

#[test]
fn estimate_without_a_plan() {
    let missing = app_with(&[("a.rs", "a")]);
    assert!(is_countable(&missing.workspace));
    let result = full_codes_tokens(&missing, None);
    assert_eq!(result.message.as_deref(), Some(NO_AGENTSEE_TO_ESTIMATE));
    assert_eq!(
        NO_AGENTSEE_TO_ESTIMATE,
        "No .agentsee file found at workspace root. \
         Create one first, then use /full-codes-tokens to estimate."
    );
    assert!(result.action.is_none());

    let unmatched = app_with(&[(".agentsee", "*.py"), ("a.rs", "a")]);
    assert!(is_countable(&unmatched.workspace));
    let result = full_codes_tokens(&unmatched, None);
    assert_eq!(result.message.as_deref(), Some(NO_MATCH_TO_ESTIMATE));
    assert_eq!(NO_MATCH_TO_ESTIMATE, "No files matched the .agentsee patterns.");
}

#[test]
fn estimate_and_injection_have_the_same_files() {
    let mut app = app_with(&[
        (".agentsee", "*.rs\n"),
        ("a.rs", "aaaa"),
        ("b.rs", "bbbbbbbbbbbb"),
        ("c.rs", "cc"),
    ]);
    assert!(is_countable(&app.workspace));
    let arg = Some("--max-tokens 2".to_string());
    let estimate = full_codes_tokens(&app, arg.clone()).message.unwrap();
    let _ = inject_full_codes(&mut app, arg);
    assert_eq!(injected_paths(&app), ["a.rs", "c.rs"]);
    for path in injected_paths(&app) {
        assert!(estimate.contains(&format!("`{path}`")), "got: {estimate}");
    }
    assert!(!estimate.contains("`b.rs`"), "got: {estimate}");
}

#[test]
fn user_text_does_not_change_the_estimate() {
    let app = app_with(&[(".agentsee", "*.rs\n"), ("a.rs", "aaaaaaaaa"), ("b.rs", "b")]);
    assert!(is_countable(&app.workspace));
    let estimate = |arg: Option<&str>| {
        let result = full_codes_tokens(&app, arg.map(|a| a.to_string()));
        assert!(result.action.is_none());
        result.message.unwrap()
    };
    assert_eq!(estimate(Some("do this")), estimate(None));
    assert_eq!(estimate(Some("--max-tokens 2 do this")), estimate(Some("--max-tokens 2")));
    assert_ne!(estimate(Some("--max-tokens 2")), estimate(None));
}

#[test]
fn arguments_are_split() {
    let parse = |arg: &str| parse_inject_arg(Some(arg));
    let text = |t: &str| Some(t.to_string());
    assert_eq!(parse_inject_arg(None), (None, None));
    assert_eq!(parse("hello"), (None, text("hello")));
    assert_eq!(parse(""), (None, text("")));
    assert_eq!(parse(" --max-tokens 5"), (None, text(" --max-tokens 5")));
    assert_eq!(parse("--max-tokens"), (None, None));
    assert_eq!(parse("--max-tokens  "), (None, None));
    assert_eq!(parse("--max-tokens 5000"), (Some(5000), None));
    assert_eq!(parse("--max-tokens5000"), (Some(5000), None));
    assert_eq!(parse("--max-tokens +7"), (Some(7), None));
    assert_eq!(parse("--max-tokens 5000 "), (Some(5000), None));
    assert_eq!(parse("--max-tokens 5000  do it  now "), (Some(5000), text("do it  now")));
    assert_eq!(parse("--max-tokens\u{3000}9\u{a0}x"), (Some(9), text("x")));
    assert_eq!(parse("--max-tokens many words"), (None, text("words")));
    assert_eq!(parse("--max-tokens -1"), (None, None));
    assert_eq!(parse("--max-tokens 99999999999999999999999"), (None, None));
    for n in [0usize, 1, 42, 200_000, usize::MAX] {
        assert_eq!(parse(&format!("--max-tokens {n}\tok")), (Some(n), text("ok")));
    }
}

#[test]
fn a_budget_that_is_no_number_falls_back() {
    let mut app = app_with(&[(".agentsee", "*.rs"), ("a.rs", "a")]);
    app.max_inject_tokens = 3_500;
    let result = inject_full_codes(&mut app, Some("--max-tokens lots".to_string()));
    assert_eq!(
        result.message.as_deref(),
        Some("Injected 1 files (~0 KB) into context as read_file calls (budget: ~3K tokens)")
    );
}

#[test]
fn token_budgets_in_bytes() {
    assert_eq!(tokens_to_bytes(0), 0);
    assert_eq!(tokens_to_bytes(DEFAULT_MAX_INJECT_TOKENS), 800_000);
    assert_eq!(tokens_to_bytes(usize::MAX / 4), usize::MAX - 3);
    assert_eq!(tokens_to_bytes(usize::MAX / 4 + 1), usize::MAX);
    assert_eq!(tokens_to_bytes(usize::MAX), usize::MAX);
}
