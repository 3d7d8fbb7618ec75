use grabstuff::config::DefaultFormat;
use grabstuff::formatter::{count_class_tokens, format_number, Format, Formatter};
use grabstuff::slicer::{FileContent, SliceInfo};

fn create_test_content(path: &str, content: &str, slice_info: SliceInfo) -> FileContent {
    FileContent {
        path: path.to_string(),
        content: content.to_string(),
        slice_info,
    }
}

#[test]
fn test_format_markdown_single_file() {
    let files = vec![create_test_content(
        "test.rs",
        "fn main() {}",
        SliceInfo::Full,
    )];

    let formatter = Formatter::new(Format::Markdown);
    let output = formatter.format(&files).unwrap();

    assert!(output.contains("# test.rs (full)"));
    assert!(output.contains("fn main() {}"));
}

#[test]
fn test_format_markdown_multiple_files() {
    let files = vec![
        create_test_content("a.rs", "content a", SliceInfo::Full),
        create_test_content("b.rs", "content b", SliceInfo::Lines { start: 1, end: 10 }),
    ];

    let formatter = Formatter::new(Format::Markdown);
    let output = formatter.format(&files).unwrap();

    assert!(output.contains("# a.rs (full)"));
    assert!(output.contains("# b.rs (lines 1-10)"));
    assert!(output.contains("---"));
}

#[test]
fn test_format_plain() {
    let files = vec![
        create_test_content("a.rs", "content a", SliceInfo::Full),
        create_test_content("b.rs", "content b", SliceInfo::Full),
    ];

    let formatter = Formatter::new(Format::Plain);
    let output = formatter.format(&files).unwrap();

    assert_eq!(output, "content a\ncontent b\n");
    assert!(!output.contains("a.rs"));
}

#[test]
fn test_format_json() {
    let files = vec![create_test_content(
        "test.rs",
        "fn main() {}",
        SliceInfo::Lines { start: 1, end: 5 },
    )];

    let formatter = Formatter::new(Format::Json);
    let output = formatter.format(&files).unwrap();

    let parsed: serde_json::Value = serde_json::from_str(&output).unwrap();
    assert!(parsed["files"].is_array());
    assert_eq!(parsed["files"][0]["path"], "test.rs");
    assert_eq!(parsed["files"][0]["slice"], "lines 1-5");
    assert_eq!(parsed["files"][0]["content"], "fn main() {}");
}

#[test]
fn test_format_markdown_with_tokens() {
    let files = vec![create_test_content(
        "test.rs",
        "fn main() {}",
        SliceInfo::Full,
    )];

    let formatter = Formatter::new(Format::Markdown).with_tokens(true);
    let output = formatter.format(&files).unwrap();

    assert!(output.contains("# Tokens: 6"));
}

#[test]
fn test_format_json_with_tokens() {
    let files = vec![create_test_content(
        "test.rs",
        "hello world",
        SliceInfo::Full,
    )];

    let formatter = Formatter::new(Format::Json).with_tokens(true);
    let output = formatter.format(&files).unwrap();

    let parsed: serde_json::Value = serde_json::from_str(&output).unwrap();
    assert_eq!(parsed["tokens"], 2);
}

#[test]
fn test_format_empty_files() {
    let files: Vec<FileContent> = vec![];

    let formatter = Formatter::new(Format::Markdown);
    let output = formatter.format(&files).unwrap();

    assert_eq!(output, "");
}

#[test]
fn markdown_layout_is_exact() {
    let files = vec![
        create_test_content("a.rs", "x", SliceInfo::Full),
        create_test_content("b.rs", "y", SliceInfo::Chars { start: 0, end: 1 }),
    ];
    let output = Formatter::new(Format::Markdown).format(&files).unwrap();
    assert_eq!(output, "# a.rs (full)\n\nx\n\n---\n\n# b.rs (chars 0-1)\n\ny\n");
}

#[test]
fn markdown_token_section_follows_a_separator() {
    let files = vec![create_test_content("a.rs", "one two", SliceInfo::Full)];
    let output = Formatter::new(Format::Markdown)
        .with_tokens(true)
        .format(&files)
        .unwrap();
    assert_eq!(output, "# a.rs (full)\n\none two\n\n---\n\n# Tokens: 2\n");
}

#[test]
fn markdown_tokens_without_files() {
    let files: Vec<FileContent> = vec![];
    let output = Formatter::new(Format::Markdown)
        .with_tokens(true)
        .format(&files)
        .unwrap();
    assert_eq!(output, "# Tokens: 0\n");
}

#[test]
fn token_counts_are_grouped_by_thousands() {
    let files = vec![create_test_content("a.txt", &"w ".repeat(1523), SliceInfo::Full)];
    let output = Formatter::new(Format::Markdown)
        .with_tokens(true)
        .format(&files)
        .unwrap();
    assert!(output.ends_with("# Tokens: 1,523\n"));
    let plain = Formatter::new(Format::Plain)
        .with_tokens(true)
        .format(&files)
        .unwrap();
    assert!(plain.ends_with("Tokens: 1,523\n"));
    let big = vec![create_test_content("b.txt", &"w ".repeat(1_234_567), SliceInfo::Full)];
    let output = Formatter::new(Format::Plain).with_tokens(true).format(&big).unwrap();
    assert!(output.ends_with("Tokens: 1,234,567\n"));
}

#[test]
fn tokens_count_words_and_symbols() {
    let files = vec![create_test_content(
        "a.rs",
        "héllo_wörld, 42!\tx",
        SliceInfo::Full,
    )];
    let output = Formatter::new(Format::Json).with_tokens(true).format(&files).unwrap();
    let parsed: serde_json::Value = serde_json::from_str(&output).unwrap();
    assert_eq!(parsed["tokens"], 5);
}

#[test]
fn json_is_pretty_printed_and_escaped() {
    let files = vec![create_test_content(
        "dir/q\"uote.rs",
        "line \"one\"\n\ttwo",
        SliceInfo::Lines { start: 3, end: 4 },
    )];
    let output = Formatter::new(Format::Json).format(&files).unwrap();
    assert_eq!(
        output,
        "{\n  \"files\": [\n    {\n      \"path\": \"dir/q\\\"uote.rs\",\n      \"slice\": \"lines 3-4\",\n      \"content\": \"line \\\"one\\\"\\n\\ttwo\"\n    }\n  ]\n}"
    );
    let parsed: serde_json::Value = serde_json::from_str(&output).unwrap();
    assert_eq!(parsed["files"][0]["content"], "line \"one\"\n\ttwo");
    assert!(parsed.get("tokens").is_none());
}

#[test]
fn json_without_files_has_an_empty_array() {
    let files: Vec<FileContent> = vec![];
    let output = Formatter::new(Format::Json).format(&files).unwrap();
    assert_eq!(output, "{\n  \"files\": []\n}");
}

#[test]
fn configured_formats_map_to_output_formats() {
    assert_eq!(Format::from(DefaultFormat::Md), Format::Markdown);
    assert_eq!(Format::from(DefaultFormat::Plain), Format::Plain);
    assert_eq!(Format::from(DefaultFormat::Json), Format::Json);
}

#[test]
fn token_counts_add_up_across_a_space() {
    let count = |t: &str| {
        let files = vec![create_test_content("a", t, SliceInfo::Full)];
        let out = Formatter::new(Format::Plain).with_tokens(true).format(&files).unwrap();
        out.rsplit("Tokens: ").next().unwrap().trim().replace(',', "").parse::<usize>().unwrap()
    };
    let (a, b) = ("fn main() {}", "let x_1 = y;");
    assert_eq!(count(&format!("{} {}", a, b)), count(a) + count(b));
    assert_eq!(count(""), 0);
}

#[test]
fn class_tokens_count_word_runs_and_other_marks() {
    // "fn main() {}": two words, four marks, two spaces.
    let text: Vec<char> = "fn main() {}".chars().collect();
    let word: Vec<bool> = text.iter().map(|c| c.is_ascii_alphanumeric()).collect();
    assert_eq!(count_class_tokens(&text, &word), 6);

    let text: Vec<char> = "ab cd".chars().collect();
    assert_eq!(count_class_tokens(&text, &[true, true, false, true, true]), 2);
    // Marked as one word, the space joins the two runs.
    assert_eq!(count_class_tokens(&text, &[true, true, true, true, true]), 1);
    // Marked as no word at all, only the marks that are not white space count.
    assert_eq!(count_class_tokens(&text, &[false, false, false, false, false]), 4);
    assert_eq!(count_class_tokens(&[], &[]), 0);
}

#[test]
fn json_strings_are_escaped() {
    let files = vec![create_test_content(
        "a\"b.rs",
        "q\"\\\t\n\r\u{8}\u{c}\u{1}\u{1f}\u{7f}é",
        SliceInfo::Full,
    )];
    let output = Formatter::new(Format::Json).format(&files).unwrap();
    assert!(output.contains("\"path\": \"a\\\"b.rs\""));
    assert!(output.contains(
        "\"content\": \"q\\\"\\\\\\t\\n\\r\\b\\f\\u0001\\u001f\u{7f}é\""
    ));
    let parsed: serde_json::Value = serde_json::from_str(&output).unwrap();
    assert_eq!(parsed["files"][0]["content"], "q\"\\\t\n\r\u{8}\u{c}\u{1}\u{1f}\u{7f}é");
}

#[test]
fn counts_are_grouped_in_threes() {
    assert_eq!(format_number(0), "0");
    assert_eq!(format_number(999), "999");
    assert_eq!(format_number(1000), "1,000");
    assert_eq!(format_number(1523), "1,523");
    assert_eq!(format_number(12345678), "12,345,678");
    assert_eq!(format_number(100000), "100,000");
}
