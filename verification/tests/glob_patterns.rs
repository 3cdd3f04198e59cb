//! Patterns and the globs that they stand for.

use deepseek_tui::pattern::gitignore_to_glob_patterns;
use glob::Pattern;

#[test]
fn glob_patterns_basename_match() {
    let pats = gitignore_to_glob_patterns("*.rs");
    let patterns: Vec<Pattern> = pats.iter().filter_map(|g| Pattern::new(g).ok()).collect();
    assert!(patterns.iter().any(|p| p.matches("main.rs")));
    assert!(patterns.iter().any(|p| p.matches("src/main.rs")));
    assert!(patterns.iter().any(|p| p.matches("deeply/nested/path/mod.rs")));
}

#[test]
fn glob_patterns_bare_name_matches_any_depth() {
    let pats = gitignore_to_glob_patterns("README.md");
    let patterns: Vec<Pattern> = pats.iter().filter_map(|g| Pattern::new(g).ok()).collect();
    assert!(patterns.iter().any(|p| p.matches("README.md")));
    assert!(patterns.iter().any(|p| p.matches("docs/README.md")));
}

#[test]
fn glob_patterns_anchored_by_slash() {
    let pats = gitignore_to_glob_patterns("docs/");
    let patterns: Vec<Pattern> = pats.iter().filter_map(|g| Pattern::new(g).ok()).collect();
    assert!(patterns.iter().any(|p| p.matches("docs/README.md")));
    assert!(patterns.iter().any(|p| p.matches("docs/sub/file.md")));
    assert!(!patterns.iter().any(|p| p.matches("other/docs/README.md")));
    assert!(!patterns.iter().any(|p| p.matches("README.md")));
}

#[test]
fn glob_patterns_leading_slash_anchors_basename() {
    let pats = gitignore_to_glob_patterns("/README.md");
    let patterns: Vec<Pattern> = pats.iter().filter_map(|g| Pattern::new(g).ok()).collect();
    assert!(patterns.iter().any(|p| p.matches("README.md")));
    assert!(!patterns.iter().any(|p| p.matches("docs/README.md")));
    assert!(!patterns.iter().any(|p| p.matches("src/README.md")));
}

#[test]
fn glob_patterns_middle_slash_anchored() {
    let pats = gitignore_to_glob_patterns("foo/bar");
    let patterns: Vec<Pattern> = pats.iter().filter_map(|g| Pattern::new(g).ok()).collect();
    assert!(patterns.iter().any(|p| p.matches("foo/bar")));
    assert!(patterns.iter().any(|p| p.matches("foo/bar/baz.txt")));
    assert!(!patterns.iter().any(|p| p.matches("x/foo/bar")));
    assert!(!patterns.iter().any(|p| p.matches("x/foo/bar/baz.txt")));
}

#[test]
fn globs_are_written_exactly() {
    assert_eq!(gitignore_to_glob_patterns("docs/"), ["docs/**"]);
    assert_eq!(gitignore_to_glob_patterns("/docs/"), ["docs/**"]);
    assert_eq!(gitignore_to_glob_patterns("a/b/"), ["a/b/**"]);
    assert_eq!(gitignore_to_glob_patterns("/"), ["/**"]);
    assert_eq!(gitignore_to_glob_patterns("//"), ["/**"]);
    assert_eq!(gitignore_to_glob_patterns("a/b"), ["a/b", "a/b/**"]);
    assert_eq!(gitignore_to_glob_patterns("/a/b"), ["a/b", "a/b/**"]);
    assert_eq!(gitignore_to_glob_patterns("/a"), ["a", "a/**"]);
    assert_eq!(gitignore_to_glob_patterns(" *.rs\t"), ["**/*.rs", "**/*.rs/**"]);
    assert_eq!(gitignore_to_glob_patterns(""), ["**/", "**//**"]);
}

/// Every text of up to `len` characters of an alphabet.
fn texts(alphabet: &[char], len: usize) -> Vec<String> {
    let mut all = vec![String::new()];
    let mut start = 0;
    for _ in 0..len {
        let end = all.len();
        for i in start..end {
            for c in alphabet {
                let mut longer = all[i].clone();
                longer.push(*c);
                all.push(longer);
            }
        }
        start = end;
    }
    all
}

/// Matching where only `**` matches a slash.
fn matches(pattern: &Pattern, path: &str) -> bool {
    let options = glob::MatchOptions {
        case_sensitive: true,
        require_literal_separator: true,
        require_literal_leading_dot: false,
    };
    pattern.matches_with(path, options)
}

fn accepts(pattern: &str, path: &str) -> bool {
    Pattern::new(pattern).map_or(false, |p| matches(&p, path))
}

fn starts(path: &str) -> Vec<usize> {
    (0..=path.len()).filter(|s| *s == 0 || path.as_bytes()[*s - 1] == '/' as u8).collect()
}

/// Whether a glob with at most one star, and nothing else that is special,
/// matches a path.
fn simple_matches(glob: &str, path: &str) -> bool {
    match glob.split_once('*') {
        None => glob == path,
        Some((a, b)) => {
            path.len() >= a.len() + b.len()
                && path.starts_with(a)
                && path.ends_with(b)
                && !path[a.len()..path.len() - b.len()].contains('/')
        }
    }
}

fn lies_under(path: &str, glob: &str) -> bool {
    (0..path.len())
        .any(|e| path.as_bytes()[e] == '/' as u8 && simple_matches(glob, &path[..e]))
}

#[test]
fn any_depth_lets_a_glob_match_the_last_component() {
    let paths = texts(&['a', 'b', '/'], 5);
    for pattern in texts(&['a', '*', '?', '/', '[', ']', '!'], 4) {
        let deep = format!("**/{pattern}");
        assert_eq!(Pattern::new(&deep).is_ok(), Pattern::new(&pattern).is_ok(), "{pattern}");
        if pattern.is_empty() || Pattern::new(&pattern).is_err() {
            continue;
        }
        let plain = Pattern::new(&pattern).unwrap();
        let deep = Pattern::new(&deep).unwrap();
        let names_component = !pattern.contains('/') && pattern != "**";
        for path in &paths {
            let anywhere = starts(path).iter().any(|s| matches(&plain, &path[*s..]));
            assert_eq!(matches(&deep, path), anywhere, "{pattern} on {path}");
            if names_component {
                let base = path.rsplit('/').next().unwrap();
                assert_eq!(matches(&deep, path), matches(&plain, base), "{pattern} on {path}");
            }
        }
    }
}

#[test]
fn simple_globs_match_as_stated() {
    let paths = texts(&['a', 'b', '/', ']'], 5);
    for name in texts(&['a', 'b', '/', '*', ']'], 3) {
        if name.matches('*').count() > 1 {
            continue;
        }
        let under = format!("{name}/**");
        let deep = format!("**/{name}");
        let deep_under = format!("**/{name}/**");
        for glob in [&name, &under, &deep, &deep_under] {
            assert!(Pattern::new(glob).is_ok(), "{glob}");
        }
        for path in &paths {
            assert_eq!(accepts(&name, path), simple_matches(&name, path), "{name} on {path}");
            assert_eq!(accepts(&under, path), lies_under(path, &name), "{name} on {path}");
            if name.is_empty() {
                continue;
            }
            let ends = starts(path).iter().any(|s| simple_matches(&name, &path[*s..]));
            let passes = starts(path).iter().any(|s| lies_under(&path[*s..], &name));
            assert_eq!(accepts(&deep, path), ends, "{name} on {path}");
            assert_eq!(accepts(&deep_under, path), passes, "{name} on {path}");
        }
    }
}

#[test]
fn simple_globs_with_a_backslash_compile() {
    for name in texts(&['a', '\\', '*', '/'], 4) {
        if name.matches('*').count() > 1 {
            continue;
        }
        for glob in
            [name.clone(), format!("{name}/**"), format!("**/{name}"), format!("**/{name}/**")]
        {
            assert!(Pattern::new(&glob).is_ok(), "{glob}");
        }
    }
}
