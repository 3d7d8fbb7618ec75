use grabstuff::cli::{
    check_matches, compile_output, exit_code, get_help, query_entries, unit_mode, CliError, Failure,
    QueryArg, QueryError,
};
use grabstuff::formatter::Format;
use grabstuff::grabfile::SliceFlag;
use grabstuff::slicer::{FileContent, SliceInfo, SliceMode};

#[test]
fn no_arg_help_explains_behavior() {
    let help = get_help();

    assert!(help.contains("WHEN RUN WITH NO ARGUMENTS:"));
    assert!(help.contains("does not scan the"));
    assert!(help.contains("HOW A QUERY RUNS:"));
    assert!(help.contains("GRABFILES:"));
}

fn pat(p: &str) -> QueryArg {
    QueryArg::Pattern(p.to_string())
}

fn head(n: &str, unit: &str) -> QueryArg {
    QueryArg::Head(vec![n.to_string(), unit.to_string()])
}

fn tail(n: &str, unit: &str) -> QueryArg {
    QueryArg::Tail(vec![n.to_string(), unit.to_string()])
}

fn entries(args: &[QueryArg]) -> Vec<(String, SliceMode)> {
    query_entries(args).unwrap()
}

#[test]
fn slice_options_apply_to_the_patterns_before_them() {
    // grabstuff "src/**/*.rs" --head 50 lines "README.md" --full --tokens
    assert_eq!(
        entries(&[pat("src/**/*.rs"), head("50", "lines"), pat("README.md"), QueryArg::Full]),
        vec![
            ("src/**/*.rs".to_string(), SliceMode::HeadLines(50)),
            ("README.md".to_string(), SliceMode::Full)
        ]
    );
    // grabstuff "src/" "docs/" --head 100 lines --copy
    assert_eq!(
        entries(&[pat("src/"), pat("docs/"), head("100", "lines")]),
        vec![
            ("src/".to_string(), SliceMode::HeadLines(100)),
            ("docs/".to_string(), SliceMode::HeadLines(100))
        ]
    );
}

#[test]
fn slice_options_defaults_and_overrides() {
    assert_eq!(entries(&[pat("a.rs")]), vec![("a.rs".to_string(), SliceMode::Full)]);
    assert_eq!(
        entries(&[tail("3", "LINE"), pat("a.rs"), pat("b.rs"), head("7", "Chars"), pat("c.rs")]),
        vec![
            ("a.rs".to_string(), SliceMode::HeadChars(7)),
            ("b.rs".to_string(), SliceMode::HeadChars(7)),
            ("c.rs".to_string(), SliceMode::TailLines(3))
        ]
    );
}

#[test]
fn full_over_head_over_tail_within_a_run() {
    // a.rs --head 1 line --tail 2 chars
    assert_eq!(
        entries(&[pat("a.rs"), head("1", "line"), tail("2", "chars")]),
        vec![("a.rs".to_string(), SliceMode::HeadLines(1))]
    );
    assert_eq!(
        entries(&[pat("a.rs"), tail("2", "chars"), head("1", "line")]),
        vec![("a.rs".to_string(), SliceMode::HeadLines(1))]
    );
    // a.rs --full --head 5 lines
    assert_eq!(
        entries(&[pat("a.rs"), QueryArg::Full, head("5", "lines")]),
        vec![("a.rs".to_string(), SliceMode::Full)]
    );
    assert_eq!(
        entries(&[pat("a.rs"), head("1", "lines"), QueryArg::Full]),
        vec![("a.rs".to_string(), SliceMode::Full)]
    );
    assert_eq!(
        entries(&[pat("a.rs"), tail("5", "CHARS")]),
        vec![("a.rs".to_string(), SliceMode::TailChars(5))]
    );
    // The option that decides is the only one checked.
    assert_eq!(
        entries(&[pat("a.rs"), QueryArg::Full, head("x", "lines")]),
        vec![("a.rs".to_string(), SliceMode::Full)]
    );
    assert_eq!(
        entries(&[pat("a.rs"), head("4", "lines"), tail("x", "y")]),
        vec![("a.rs".to_string(), SliceMode::HeadLines(4))]
    );
}

#[test]
fn repeated_head_in_a_run_collects_its_values() {
    assert!(matches!(
        query_entries(&[pat("a.rs"), head("1", "lines"), head("2", "lines")]),
        Err(CliError::ArgsRequired(SliceFlag::Head))
    ));
    assert_eq!(
        entries(&[pat("a.rs"), QueryArg::Head(vec!["3".to_string()]), QueryArg::Head(vec!["lines".to_string()])]),
        vec![("a.rs".to_string(), SliceMode::HeadLines(3))]
    );
}

#[test]
fn unit_mode_reads_the_lowered_unit() {
    assert!(matches!(unit_mode(SliceFlag::Head, 5, "lines"), Ok(SliceMode::HeadLines(5))));
    assert!(matches!(unit_mode(SliceFlag::Tail, 2, "characters"), Ok(SliceMode::TailChars(2))));
    assert!(matches!(unit_mode(SliceFlag::Head, 2, "LINES"), Err(CliError::BadUnit)));
    assert!(matches!(unit_mode(SliceFlag::Tail, 0, "line"), Ok(SliceMode::TailLines(0))));
}

#[test]
fn slice_option_errors() {
    let short = QueryArg::Head(vec!["5".to_string()]);
    assert!(matches!(
        query_entries(&[pat("a"), short]),
        Err(CliError::ArgsRequired(SliceFlag::Head))
    ));
    assert!(matches!(
        query_entries(&[pat("a"), QueryArg::Tail(vec![])]),
        Err(CliError::ArgsRequired(SliceFlag::Tail))
    ));
    assert!(matches!(
        query_entries(&[pat("a"), head("five", "lines")]),
        Err(CliError::NotANumber)
    ));
    assert!(matches!(
        query_entries(&[pat("a"), head("5", "words"), tail("x", "y")]),
        Err(CliError::BadUnit)
    ));
    assert!(matches!(
        query_entries(&[pat("a"), tail("5", "words"), pat("b"), head("1", "lines")]),
        Err(CliError::BadUnit)
    ));
    assert_eq!(
        CliError::ArgsRequired(SliceFlag::Tail).message(),
        "Invalid syntax: --tail requires N and unit (lines/chars)"
    );
    assert_eq!(CliError::NotANumber.message(), "Invalid syntax: N must be a number");
}

#[test]
fn a_query_needs_a_matched_file() {
    assert!(matches!(check_matches(0), Err(QueryError::NoFilesMatched)));
    assert!(check_matches(2).is_ok());
    assert_eq!(
        QueryError::NoFilesMatched.message(),
        "No files matched the given patterns"
    );
}

#[test]
fn exit_codes() {
    assert_eq!(exit_code(Failure::NoFilesMatched), 1);
    assert_eq!(exit_code(Failure::InvalidSyntax), 2);
    assert_eq!(exit_code(Failure::Other), 3);
}

#[test]
fn query_output_is_sorted_by_path() {
    let contents = vec![
        FileContent {
            path: "src/b.rs".to_string(),
            content: "b".to_string(),
            slice_info: SliceInfo::Lines { start: 1, end: 1 },
        },
        FileContent {
            path: "src/a.rs".to_string(),
            content: "a".to_string(),
            slice_info: SliceInfo::Full,
        },
    ];
    let out = compile_output(contents, Format::Markdown, true).unwrap();
    assert_eq!(
        out,
        "# src/a.rs (full)\n\na\n\n---\n\n# src/b.rs (lines 1-1)\n\nb\n\n---\n\n# Tokens: 2\n"
    );
}

fn file(path: &str, content: &str) -> FileContent {
    FileContent {
        path: path.to_string(),
        content: content.to_string(),
        slice_info: SliceInfo::Full,
    }
}

#[test]
fn output_does_not_depend_on_the_order_files_come_in() {
    let one = compile_output(
        vec![file("b/x.rs", "bx"), file("a.rs", "a"), file("b.rs", "b")],
        Format::Plain,
        false,
    )
    .unwrap();
    let two = compile_output(
        vec![file("b.rs", "b"), file("b/x.rs", "bx"), file("a.rs", "a")],
        Format::Plain,
        false,
    )
    .unwrap();
    assert_eq!(one, two);
    assert_eq!(one, "a\nbx\nb\n");
}

#[test]
fn files_with_the_same_path_keep_their_order() {
    let out = compile_output(
        vec![file("z.rs", "z"), file("m.rs", "first"), file("./m.rs", "other"), file("m.rs", "second")],
        Format::Plain,
        false,
    )
    .unwrap();
    assert_eq!(out, "other\nfirst\nsecond\nz\n");
}
