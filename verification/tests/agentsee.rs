//! The include filter, the selection of files and the plan.

use deepseek_tui::agentsee::{Agentsee, Rule};
use deepseek_tui::inject::{is_countable, make_estimate};
use deepseek_tui::plan::{collect_project_files, InjectPlan};
use deepseek_tui::workspace::{
    rank_candidates, select_files, AgentseeFile, Candidate, Entry, Workspace,
};

fn filter(text: &str) -> Agentsee {
    Agentsee::load(Some(text)).unwrap()
}

fn entry(path: &str, content: Option<&str>) -> Entry {
    Entry { path: path.to_string(), is_file: true, content: content.map(|c| c.to_string()) }
}

fn workspace(rules: &str, entries: Vec<Entry>) -> Workspace {
    Workspace {
        root: "/w".to_string(),
        is_dir: true,
        agentsee: AgentseeFile::Text(rules.to_string()),
        entries,
    }
}

fn paths(plan: &InjectPlan) -> Vec<&str> {
    plan.files.iter().map(|f| f.0.as_str()).collect()
}

#[test]
fn a_missing_or_blank_file_is_no_filter() {
    assert!(Agentsee::load(None).is_none());
    assert!(Agentsee::load(Some("")).is_none());
    assert!(Agentsee::load(Some(" \n\t\r\n")).is_none());
    assert!(Agentsee::load(Some("# nothing")).is_some());
}

#[test]
fn rules_are_counted_by_kind() {
    let f = filter("# rust\n*.rs\r\n\n  !target/ \n! *.tmp\n/x\n");
    assert_eq!(f.include_count(), 2);
    assert_eq!(f.exclude_count(), 2);
    assert_eq!(f.priority("a.rs"), Some(0));
    assert_eq!(f.priority("target/a.rs"), None);
    assert_eq!(f.priority("a.tmp"), None);
    assert_eq!(f.priority("x"), Some(3));
    assert_eq!(f.priority("x/y.tmp"), Some(3));
    assert_eq!(f.priority("a/x"), None);
}

#[test]
fn a_rule_that_does_not_compile_keeps_its_place() {
    let f = filter("a***\n*.rs\n[\n*.py");
    assert_eq!(f.include_count(), 2);
    assert_eq!(f.priority("a.rs"), Some(1));
    assert_eq!(f.priority("a.py"), Some(3));
    assert!(Rule::new("a***", 0).is_none());
}

#[test]
fn rules_match_by_their_patterns() {
    let matches = |pattern: &str, path: &str| Rule::new(pattern, 0).unwrap().matches(path);
    assert!(matches("docs/", "docs/a"));
    assert!(matches("docs/", "docs/a/b"));
    assert!(!matches("docs/", "docs"));
    assert!(!matches("docs/", "x/docs/a"));
    assert!(matches("name", "name"));
    assert!(matches("name", "a/b/name"));
    assert!(matches("name", "a/name/b"));
    assert!(!matches("name", "a/rename"));
    assert!(matches("/name", "name"));
    assert!(matches("/name", "name/x"));
    assert!(!matches("/name", "a/name"));
    assert!(matches("a/b", "a/b"));
    assert!(matches("a/b", "a/b/c"));
    assert!(!matches("a/b", "x/a/b"));
    assert!(matches("*.rs", "x/y/z.rs"));
    assert!(!matches("*.rs", "x/y/z.rsx"));
    assert!(matches("*.d", "x.d/y/z"));
    assert!(matches("src/*.rs", "src/a.rs"));
    assert!(!matches("src/*.rs", "src/a/b.rs"));
    assert!(!matches("src/?.rs", "src//.rs"));
    assert!(!matches("src[!a]x", "src/x"));
    assert!(matches("src/**", "src/a/b.rs"));
    assert!(matches("src/**/b.rs", "src/a/c/b.rs"));
    assert!(matches("test*.rs", "deep/test_x.rs"));
    assert!(!matches("test*.rs", "tests/deep/x.rs"));
    assert!(!matches("a[b-d]?.rs", "ab/.rs"));
    assert!(matches("a[b-d]?.rs", "x/y/ace.rs"));
    assert!(matches("lib*/", "library/x"));
    assert!(!matches("lib*/", "library"));
    assert!(!matches("*.RS", "a.rs"));
    assert!(matches("*.rs", ".hidden.rs"));
}

#[test]
fn a_star_stops_at_a_slash() {
    let f = filter("src/*.rs\n");
    assert_eq!(f.priority("src/a.rs"), Some(0));
    assert_eq!(f.priority("src/a/b.rs"), None);
    assert_eq!(f.priority("src/a.rs/b"), Some(0));
}

#[test]
fn simple_rules_with_a_backslash_are_in_force() {
    assert!(Rule::new("a\\b", 0).is_some());
    assert!(Rule::new("a\\*.rs", 0).is_some());
    assert_eq!(filter("a\\b\n!c\\\nx\\*y/\n").include_count(), 2);
}

#[test]
fn a_final_exclude_line_only_removes() {
    let rules = "*.rs\nsrc/\n!gen/\n";
    let before = filter(rules);
    for pat in ["*_test.rs", "src/a", "/x.rs", "gen/", "a***", "**/b?.rs"] {
        let after = filter(&format!("{rules}\n!{pat}"));
        let rule = Rule::new(pat, 4);
        for path in ["x.rs", "src/a", "src/a/y", "src/x_test.rs", "gen/z.rs", "q/b1.rs", "n.py"] {
            let removed = rule.as_ref().map_or(false, |r| r.matches(path));
            let kept = if removed { None } else { before.priority(path) };
            assert_eq!(after.priority(path), kept, "{pat} on {path}");
        }
    }
}

#[test]
fn the_last_match_decides() {
    let f = filter("*.rs\n!a/\na/keep.rs\n");
    assert_eq!(f.priority("b.rs"), Some(0));
    assert_eq!(f.priority("a/x.rs"), None);
    assert_eq!(f.priority("a/keep.rs"), Some(2));
    assert_eq!(f.priority("b.py"), None);
    let f = filter("!a/\n*.rs");
    assert_eq!(f.priority("a/x.rs"), Some(1));
}

#[test]
fn the_most_specific_rule_sets_the_priority() {
    // A slash beats none, whatever the lengths.
    assert_eq!(filter("a-long-name.rs\na/\n").priority("a/a-long-name.rs"), Some(1));
    // Of two of a sort the longer one, and the first of equally long ones.
    assert_eq!(filter("*.rs\nmain.rs\n").priority("main.rs"), Some(1));
    assert_eq!(filter("*.rs\n?.rs\n").priority("m.rs"), Some(0));
    assert_eq!(filter("src/\nsrc/a/\n").priority("src/a/x"), Some(1));
    let a = Rule::new("x/", 0).unwrap();
    let b = Rule::new("longer", 1).unwrap();
    assert!(a.is_more_specific(&b));
    assert!(!b.is_more_specific(&a));
    assert!(!a.is_more_specific(&a));
}

#[test]
fn matches_decide_the_priority() {
    let f = filter("*.rs\n!x\nsrc/\n!y\n");
    assert_eq!((f.include_count(), f.exclude_count()), (2, 2));
    let choose = |i: [bool; 2], e: [bool; 2]| f.choose_priority(&i.to_vec(), &e.to_vec());
    assert_eq!(choose([false, false], [false, false]), None);
    assert_eq!(choose([true, false], [false, false]), Some(0));
    assert_eq!(choose([true, true], [false, false]), Some(2));
    assert_eq!(choose([true, false], [true, false]), None);
    assert_eq!(choose([true, true], [true, false]), Some(2));
    assert_eq!(choose([true, true], [true, true]), None);
    assert_eq!(choose([false, false], [true, true]), None);
}

#[test]
fn candidates_are_ranked() {
    let candidate = |priority: usize, path: &str, index: usize| Candidate {
        priority,
        path: path.to_string(),
        index,
    };
    let mut found = Vec::new();
    for i in 0..50usize {
        found.push(candidate((i * 7) % 3, ["b", "a", "é", "B"][i % 4], i));
    }
    let key = |c: &Candidate| (c.priority, c.path.clone(), c.index);
    let mut expected: Vec<(usize, String, usize)> = found.iter().map(key).collect();
    expected.sort();
    let ranked: Vec<(usize, String, usize)> = rank_candidates(found).iter().map(key).collect();
    assert_eq!(ranked, expected);
}

#[test]
fn files_are_selected_in_the_order_of_reading() {
    let mut entries = vec![
        entry("z.rs", None),
        entry("dir\\a.rs", None),
        entry("b.py", None),
        entry("a.toml", None),
        entry("skip.md", None),
    ];
    entries.push(Entry { path: "d.rs".to_string(), is_file: false, content: None });
    let chosen = select_files(&filter("*.toml\n*.rs\n*.py"), &entries);
    let found: Vec<(usize, &str, usize)> =
        chosen.iter().map(|c| (c.priority, c.path.as_str(), c.index)).collect();
    assert_eq!(found, [(0, "a.toml", 3), (1, "dir/a.rs", 1), (1, "z.rs", 0), (2, "b.py", 2)]);
}

#[test]
fn plans_fill_the_budget() {
    let ws = workspace(
        "*.rs",
        vec![
            entry("a.rs", Some("12345")),
            entry("b.rs", Some("123456")),
            entry("c.rs", Some("é")),
            entry("d.rs", None),
            entry("e.rs", Some(" ")),
            entry("f.rs", Some("123")),
        ],
    );
    let plan = collect_project_files(&ws, 10).unwrap();
    assert_eq!(paths(&plan), ["a.rs", "c.rs", "f.rs"]);
    assert_eq!(plan.file_count, 3);
    assert_eq!(plan.total_bytes, 10);
    assert_eq!(plan.skipped_count, 1);
    let tokens: Vec<(&str, usize)> =
        plan.file_tokens.iter().map(|f| (f.0.as_str(), f.1)).collect();
    assert_eq!(tokens, [("a.rs", 2), ("c.rs", 1), ("f.rs", 1)]);

    let all = collect_project_files(&ws, 16).unwrap();
    assert_eq!(paths(&all), ["a.rs", "b.rs", "c.rs", "f.rs"]);
    assert_eq!(all.skipped_count, 0);

    for larger in [17, 1000, usize::MAX] {
        let same = collect_project_files(&ws, larger).unwrap();
        assert_eq!(paths(&same), paths(&all));
        assert_eq!((same.total_bytes, same.skipped_count), (16, 0));
    }

    let none = collect_project_files(&ws, 0).unwrap();
    assert_eq!(none.file_count, 0);
    assert_eq!(none.skipped_count, 4);
}

#[test]
fn there_is_no_plan_without_a_filter_or_a_file() {
    let mut ws = workspace("*.rs", vec![entry("a.rs", Some("a"))]);
    assert!(collect_project_files(&ws, 100).is_some());
    ws.is_dir = false;
    assert!(collect_project_files(&ws, 100).is_none());
    ws.is_dir = true;
    ws.agentsee = AgentseeFile::Unreadable;
    assert!(!ws.lacks_agentsee());
    assert!(collect_project_files(&ws, 100).is_none());
    ws.agentsee = AgentseeFile::Missing;
    assert!(ws.lacks_agentsee());
    assert!(collect_project_files(&ws, 100).is_none());
    let other = workspace("*.py", vec![entry("a.rs", Some("a"))]);
    assert!(collect_project_files(&other, 100).is_none());
}

#[test]
fn an_empty_plan_has_an_estimate() {
    let report = make_estimate("/w", &InjectPlan::empty(), 5);
    assert_eq!(
        report,
        "Full Codes Token Estimate (as read_file tool calls)\nWorkspace: /w\nBudget: ~5 tokens\nFiles: 0\nContent size: ~0 KB\nEstimated tokens: ~64  (~4 chars/token heuristic)\ncontent: ~0\nframing: ~64\n\nPer-file breakdown (priority order):\n"
    );
    assert!(is_countable(&workspace("*", Vec::new())));
}

#[test]
fn later_files_do_not_displace_earlier_ones() {
    let mut entries = vec![entry("a.rs", Some("1234")), entry("c.rs", Some("12"))];
    let before = collect_project_files(&workspace("*.rs", vec![
        entry("a.rs", Some("1234")),
        entry("c.rs", Some("12")),
    ]), 8)
    .unwrap();
    entries.push(entry("d.rs", Some("12345678")));
    entries.push(entry("e.rs", Some("12")));
    let after = collect_project_files(&workspace("*.rs", entries), 8).unwrap();
    assert_eq!(paths(&before), ["a.rs", "c.rs"]);
    assert_eq!(paths(&after), ["a.rs", "c.rs", "e.rs"]);
    assert_eq!(after.skipped_count, 1);
}

#[test]
fn contents_of_other_files_do_not_matter() {
    let with = |other: Option<&str>| {
        workspace("*.rs\n!x.rs", vec![
            entry("x.rs", other),
            entry("b.py", other),
            entry("a.rs", Some("a")),
        ])
    };
    for other in [None, Some(""), Some("many words")] {
        let plan = collect_project_files(&with(other), 5).unwrap();
        assert_eq!(paths(&plan), ["a.rs"]);
        assert_eq!((plan.total_bytes, plan.skipped_count), (1, 0));
    }
}
