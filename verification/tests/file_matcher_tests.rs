use grabstuff::config::default_ignores;
use grabstuff::file_matcher::{
    looks_binary, parse_pattern, try_parse_pattern, within_size_limit, FileMatcher, MatchError,
};

#[test]
fn test_file_matcher_new() {
    let ignores = vec!["*.log".to_string(), "temp/".to_string()];
    let matcher = FileMatcher::new(&ignores);
    assert!(!matcher.has_no_ignores());
}

#[test]
fn test_file_matcher_empty_ignores() {
    let ignores: Vec<String> = vec![];
    let matcher = FileMatcher::new(&ignores);
    assert!(matcher.has_no_ignores());
}

#[test]
fn test_parse_pattern_with_glob() {
    let (base, glob) = parse_pattern("src/*.rs", false);
    assert_eq!(base, "src");
    assert_eq!(glob, "*.rs");
}

#[test]
fn test_parse_pattern_directory() {
    let (base, glob) = parse_pattern("docs/", false);
    assert_eq!(base, "docs/");
    assert_eq!(glob, "**/*");
}

#[test]
fn test_parse_pattern_double_star() {
    let (base, glob) = parse_pattern("src/**/*.rs", false);
    assert_eq!(base, "src");
    assert_eq!(glob, "**/*.rs");
}

#[test]
fn test_build_globset_normalizes_patterns() {
    let patterns = vec!["node_modules/".to_string(), "*.log".to_string()];
    let matcher = FileMatcher::new(&patterns);
    assert!(!matcher.has_no_ignores());
}

#[test]
fn patterns_without_glob_characters() {
    assert_eq!(
        parse_pattern("Cargo.toml", false),
        (".".to_string(), "Cargo.toml".to_string())
    );
    assert_eq!(
        parse_pattern("src/main.rs", false),
        ("src".to_string(), "main.rs".to_string())
    );
    assert_eq!(
        parse_pattern("src", true),
        ("src".to_string(), "**/*".to_string())
    );
    assert_eq!(
        parse_pattern("*.md", false),
        (".".to_string(), "*.md".to_string())
    );
    assert_eq!(
        parse_pattern("a/b/c?.txt", false),
        ("a/b".to_string(), "c?.txt".to_string())
    );
    assert_eq!(try_parse_pattern("a/..", false), None);
    assert_eq!(
        try_parse_pattern("notes.txt", false),
        Some((".".to_string(), "notes.txt".to_string()))
    );
}

#[test]
fn globs_select_by_relative_path() {
    let matcher = FileMatcher::new(&[]);
    let glob = FileMatcher::compile_glob("*.rs").unwrap();
    assert!(matcher.accepts(&glob, "/tmp/work", "/tmp/work/test.rs"));
    assert!(!matcher.accepts(&glob, "/tmp/work", "/tmp/work/test.txt"));
    let deep = FileMatcher::compile_glob("**/*.rs").unwrap();
    assert!(matcher.accepts(&deep, "src", "src/a/b.rs"));
}

#[test]
fn ignore_patterns_exclude_files() {
    let matcher = FileMatcher::new(&["*.log".to_string()]);
    let glob = FileMatcher::compile_glob("*").unwrap();
    assert!(matcher.accepts(&glob, "/tmp/work", "/tmp/work/keep.rs"));
    assert!(!matcher.accepts(&glob, "/tmp/work", "/tmp/work/ignore.log"));
}

#[test]
fn directory_and_name_ignores_match_any_component() {
    let matcher = FileMatcher::new(&["build/".to_string(), "secrets".to_string()]);
    assert!(matcher.is_ignored("project/build/out.txt"));
    assert!(matcher.is_ignored("project/secrets"));
    assert!(!matcher.is_ignored("project/src/main.rs"));
}

#[test]
fn standard_directories_are_ignored_by_default_only() {
    let defaults = FileMatcher::new(&default_ignores());
    assert!(defaults.is_ignored("./.git/config"));
    assert!(defaults.is_ignored("web/node_modules/x.js"));
    assert!(defaults.is_ignored("a/target/debug/b"));
    assert!(defaults.is_ignored("app/.env"));
    assert!(!defaults.is_ignored("app/.envrc"));
    let none = FileMatcher::new(&[]);
    assert!(!none.is_ignored("/p/target/a.rs"));
    assert!(!none.is_ignored("./.git/config"));
}

#[test]
fn a_star_does_not_cross_a_slash() {
    let matcher = FileMatcher::new(&[]);
    let glob = FileMatcher::compile_glob("*.rs").unwrap();
    assert!(matcher.accepts(&glob, "d", "d/a.rs"));
    assert!(!matcher.accepts(&glob, "d", "d/sub/b.rs"));
    let deep = FileMatcher::compile_glob("**/*.rs").unwrap();
    assert!(matcher.accepts(&deep, "d", "d/sub/b.rs"));
}

#[test]
fn invalid_globs_are_reported() {
    match FileMatcher::compile_glob("src/[a") {
        Err(MatchError::InvalidGlob { glob, reason }) => {
            assert_eq!(glob, "src/[a");
            assert!(!reason.is_empty());
        }
        Ok(_) => panic!("an unclosed class must not compile"),
    }
    let matcher = FileMatcher::new(&["[".to_string(), "*.tmp".to_string()]);
    assert!(matcher.is_ignored("x/y.tmp"));
}

#[test]
fn matched_paths_are_sorted_without_repeats() {
    let matcher = FileMatcher::new(&[]);
    let files = matcher.match_patterns(vec![
        "d/test.rs".to_string(),
        "b.rs".to_string(),
        "d/test.rs".to_string(),
        "a.rs".to_string(),
    ]);
    assert_eq!(
        files,
        vec!["a.rs".to_string(), "b.rs".to_string(), "d/test.rs".to_string()]
    );
}

#[test]
fn paths_sort_by_components() {
    let matcher = FileMatcher::new(&[]);
    let files = matcher.match_patterns(vec!["a.b".to_string(), "a/b".to_string()]);
    assert_eq!(files, vec!["a/b".to_string(), "a.b".to_string()]);
    let same = matcher.match_patterns(vec!["x//y".to_string(), "x/y".to_string()]);
    assert_eq!(same, vec!["x//y".to_string()]);
}

#[test]
fn binary_and_size_checks() {
    assert!(looks_binary(b"hello\x00world"));
    assert!(!looks_binary(b"hello world"));
    assert!(within_size_limit(10 * 1024 * 1024));
    assert!(!within_size_limit(10 * 1024 * 1024 + 1));
}

#[test]
fn sorted_paths_do_not_depend_on_discovery_order() {
    let matcher = FileMatcher::new(&[]);
    let one = matcher.match_patterns(vec![
        "src/b.rs".to_string(),
        "README.md".to_string(),
        "src/a/x.rs".to_string(),
    ]);
    let two = matcher.match_patterns(vec![
        "src/a/x.rs".to_string(),
        "src/b.rs".to_string(),
        "README.md".to_string(),
    ]);
    assert_eq!(one, two);
    assert_eq!(
        one,
        vec!["README.md".to_string(), "src/a/x.rs".to_string(), "src/b.rs".to_string()]
    );
}

#[test]
fn finding_paths_twice_changes_nothing() {
    let matcher = FileMatcher::new(&[]);
    let found = vec!["d/test.rs".to_string(), "c.rs".to_string()];
    let twice = [found.clone(), found.clone()].concat();
    assert_eq!(matcher.match_patterns(twice), matcher.match_patterns(found));
}

#[test]
fn glob_patterns_split_back_into_the_pattern() {
    for pattern in ["src/*.rs", "a/b/c?.txt", "src/**/*.rs", "x/[ab]/y"] {
        let (base, glob) = parse_pattern(pattern, false);
        assert_eq!(format!("{}/{}", base, glob), pattern);
        assert_eq!(parse_pattern(pattern, true), (base, glob));
    }
    assert_eq!(parse_pattern("*.md", true), (".".to_string(), "*.md".to_string()));
}
