use grabstuff::config::Config;
use grabstuff::formatter::Format;
use grabstuff::grabfile::{ExecuteError, GlobalOptions, GrabFile, SliceFlag, SyntaxError};
use grabstuff::output::OutputDestination;
use grabstuff::slicer::{FileContent, SliceInfo, SliceMode};

#[test]
fn test_parse_simple_grabfile() {
    let content = "src/*.rs\n*.md";

    let grabfile = GrabFile::parse(content).unwrap();
    assert_eq!(grabfile.entries.len(), 2);
    assert_eq!(grabfile.entries[0].pattern, "src/*.rs");
    assert_eq!(grabfile.entries[1].pattern, "*.md");
}

#[test]
fn test_parse_with_comments() {
    let content = "# This is a comment\nsrc/*.rs\n# Another comment\n*.md";

    let grabfile = GrabFile::parse(content).unwrap();
    assert_eq!(grabfile.entries.len(), 2);
}

#[test]
fn test_parse_with_shebang() {
    let content = "#!/usr/bin/env grabstuff\nsrc/*.rs";

    let grabfile = GrabFile::parse(content).unwrap();
    assert_eq!(grabfile.entries.len(), 1);
}

#[test]
fn test_parse_global_format_option() {
    let content = "--format json\nsrc/*.rs";

    let grabfile = GrabFile::parse(content).unwrap();
    assert!(matches!(grabfile.global_options.format, Format::Json));
}

#[test]
fn test_parse_global_output_option() {
    let content = "--output result.md\nsrc/*.rs";

    let grabfile = GrabFile::parse(content).unwrap();
    assert_eq!(
        grabfile.global_options.output,
        Some("result.md".to_string())
    );
}

#[test]
fn test_parse_global_copy_option() {
    let content = "--copy\nsrc/*.rs";

    let grabfile = GrabFile::parse(content).unwrap();
    assert!(grabfile.global_options.copy);
}

#[test]
fn test_parse_entry_with_head_lines() {
    let content = "src/*.rs --head 50 lines";

    let grabfile = GrabFile::parse(content).unwrap();
    assert!(matches!(
        grabfile.entries[0].slice_mode,
        SliceMode::HeadLines(50)
    ));
}

#[test]
fn test_parse_entry_with_tail_chars() {
    let content = "src/*.rs --tail 100 chars";

    let grabfile = GrabFile::parse(content).unwrap();
    assert!(matches!(
        grabfile.entries[0].slice_mode,
        SliceMode::TailChars(100)
    ));
}

#[test]
fn test_parse_entry_with_full() {
    let content = "src/*.rs --full";

    let grabfile = GrabFile::parse(content).unwrap();
    assert!(matches!(grabfile.entries[0].slice_mode, SliceMode::Full));
}

#[test]
fn test_parse_empty_lines_ignored() {
    let content = "\n\nsrc/*.rs\n\n*.md\n\n";

    let grabfile = GrabFile::parse(content).unwrap();
    assert_eq!(grabfile.entries.len(), 2);
}

#[test]
fn test_parse_invalid_option_error() {
    let content = "--invalid-option value\nsrc/*.rs";

    let result = GrabFile::parse(content);
    assert!(result.is_err());
    let err_msg = result.err().unwrap().message();
    assert!(
        err_msg.contains("unknown option") || err_msg.contains("Invalid syntax"),
        "Expected error about unknown option, got: {}",
        err_msg
    );
}

#[test]
fn test_parse_missing_format_value_error() {
    let content = "--format\nsrc/*.rs";

    let result = GrabFile::parse(content);
    assert!(result.is_err());
}

#[test]
fn test_global_ignore_option() {
    let content = "--ignore *.log\n--ignore temp/\nsrc/*.rs";

    let grabfile = GrabFile::parse(content).unwrap();
    assert_eq!(grabfile.global_options.ignores.len(), 2);
    assert!(grabfile
        .global_options
        .ignores
        .contains(&"*.log".to_string()));
    assert!(grabfile
        .global_options
        .ignores
        .contains(&"temp/".to_string()));
}

#[test]
fn test_default_global_options() {
    let options = GlobalOptions::default();
    assert!(matches!(options.format, Format::Markdown));
    assert!(options.output.is_none());
    assert!(!options.copy);
    assert!(options.ignores.is_empty());
}

fn parse_error(content: &str) -> (usize, SyntaxError) {
    let e = GrabFile::parse(content).err().unwrap();
    (e.line, e.error)
}

#[test]
fn errors_name_their_line() {
    let e = GrabFile::parse("# header\nsrc/*.rs\n--invalid-option value").err().unwrap();
    assert_eq!(e.line, 3);
    assert_eq!(e.message(), "Invalid syntax at line 3");
    assert_eq!(
        e.error.message(),
        "Invalid syntax: unknown option '--invalid-option value'"
    );
}

#[test]
fn each_syntax_error_has_its_input() {
    assert!(matches!(parse_error("--format").1, SyntaxError::FormatRequiresValue));
    match parse_error("--format yaml").1 {
        SyntaxError::UnknownFormat(f) => assert_eq!(f, "yaml"),
        other => panic!("unexpected {:?}", other),
    }
    assert!(matches!(parse_error("--output").1, SyntaxError::OutputRequiresPath));
    assert!(matches!(parse_error("--ignore").1, SyntaxError::IgnoreRequiresPattern));
    assert!(matches!(parse_error("--head 5 lines").1, SyntaxError::UnknownOption(_)));
    assert!(matches!(
        parse_error("a.rs --head").1,
        SyntaxError::CountRequired(SliceFlag::Head)
    ));
    assert!(matches!(
        parse_error("a.rs --tail").1,
        SyntaxError::CountRequired(SliceFlag::Tail)
    ));
    assert!(matches!(parse_error("a.rs --head ten lines").1, SyntaxError::NotANumber));
    assert!(matches!(parse_error("a.rs --head -1 lines").1, SyntaxError::NotANumber));
    assert!(matches!(
        parse_error("a.rs --tail 3").1,
        SyntaxError::UnitRequired(SliceFlag::Tail)
    ));
    assert!(matches!(parse_error("a.rs --head 3 words").1, SyntaxError::BadUnit));
    match parse_error("a.rs --verbose").1 {
        SyntaxError::UnknownEntryOption(o) => assert_eq!(o, "--verbose"),
        other => panic!("unexpected {:?}", other),
    }
}

#[test]
fn syntax_error_messages() {
    assert_eq!(
        parse_error("--format").1.message(),
        "Invalid syntax: --format requires a value"
    );
    assert_eq!(
        parse_error("--format yaml").1.message(),
        "Invalid syntax: unknown format 'yaml'"
    );
    assert_eq!(
        parse_error("a.rs --tail 3 bytes").1.message(),
        "Invalid syntax: unit must be 'lines' or 'chars'"
    );
    assert_eq!(
        parse_error("a.rs --head").1.message(),
        "Invalid syntax: --head requires N"
    );
}

#[test]
fn options_and_units_have_aliases() {
    let g = GrabFile::parse(
        "  --format text  \n--tokens\na.rs --head 2 line\nb.rs --tail 3 characters --full\nc.rs --tail 4 char\nd.rs --head 1 chars --tail 2 lines",
    )
    .unwrap();
    assert_eq!(g.global_options.format, Format::Plain);
    assert!(g.global_options.tokens);
    assert_eq!(g.entries[0].slice_mode, SliceMode::HeadLines(2));
    assert_eq!(g.entries[1].slice_mode, SliceMode::Full);
    assert_eq!(g.entries[2].slice_mode, SliceMode::TailChars(4));
    assert_eq!(g.entries[3].slice_mode, SliceMode::TailLines(2));
    let m = GrabFile::parse("--format markdown").unwrap();
    assert_eq!(m.global_options.format, Format::Markdown);
    assert!(m.entries.is_empty());
}

#[test]
fn later_options_override_earlier_ones() {
    let g = GrabFile::parse("--output a.md\n--format json\n--output b.md\n--format plain").unwrap();
    assert_eq!(g.global_options.output, Some("b.md".to_string()));
    assert_eq!(g.global_options.format, Format::Plain);
}

#[test]
fn ignore_patterns_follow_the_configuration() {
    let g = GrabFile::parse("--ignore *.log").unwrap();
    let patterns = g.ignore_patterns(&Config::default());
    assert_eq!(
        patterns,
        vec![
            ".git/".to_string(),
            "node_modules/".to_string(),
            "target/".to_string(),
            ".env".to_string(),
            "*.log".to_string()
        ]
    );
}

#[test]
fn destination_prefers_the_clipboard() {
    let both = GrabFile::parse("--output out.md\n--copy").unwrap();
    assert!(matches!(both.destination(), OutputDestination::Clipboard));
    let file = GrabFile::parse("--output out.md").unwrap();
    match file.destination() {
        OutputDestination::File(p) => assert_eq!(p, "out.md"),
        other => panic!("unexpected {:?}", other),
    }
    let none = GrabFile::parse("a.rs").unwrap();
    assert!(matches!(none.destination(), OutputDestination::Stdout));
}

#[test]
fn execute_without_files_reports_no_match() {
    let g = GrabFile::parse("a.rs").unwrap();
    assert!(matches!(g.execute(Vec::new()), Err(ExecuteError::NoFilesMatched)));
}

#[test]
fn execute_sorts_by_path() {
    let g = GrabFile::parse("--format plain\n*.rs").unwrap();
    let contents = vec![
        FileContent {
            path: "b.rs".to_string(),
            content: "bee".to_string(),
            slice_info: SliceInfo::Full,
        },
        FileContent {
            path: "a.rs".to_string(),
            content: "ay".to_string(),
            slice_info: SliceInfo::Full,
        },
    ];
    assert_eq!(g.execute(contents).unwrap(), "ay\nbee\n");
}

#[test]
fn execute_appends_tokens_when_asked() {
    let g = GrabFile::parse("--format plain\n--tokens\n*.rs").unwrap();
    let contents = vec![FileContent {
        path: "a.rs".to_string(),
        content: "one two".to_string(),
        slice_info: SliceInfo::Full,
    }];
    assert_eq!(g.execute(contents).unwrap(), "one two\nTokens: 2\n");
}
