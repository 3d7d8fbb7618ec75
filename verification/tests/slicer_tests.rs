use grabstuff::slicer::{SliceError, SliceInfo, SliceMode, Slicer};

fn slice(mode: SliceMode, content: &str) -> grabstuff::slicer::FileContent {
    Slicer::new(mode)
        .process_file("test.txt".to_string(), content.as_bytes())
        .unwrap()
}

#[test]
fn test_slice_info_description() {
    assert_eq!(SliceInfo::Full.description(), "full");
    assert_eq!(
        SliceInfo::Lines { start: 1, end: 50 }.description(),
        "lines 1-50"
    );
    assert_eq!(
        SliceInfo::Chars { start: 0, end: 100 }.description(),
        "chars 0-100"
    );
}

#[test]
fn test_read_full() {
    let content = "line1\nline2\nline3";
    let result = slice(SliceMode::Full, content);

    assert_eq!(result.content, content);
    assert_eq!(result.slice_info, SliceInfo::Full);
}

#[test]
fn test_read_head_lines() {
    let content = "line1\nline2\nline3\nline4\nline5";
    let result = slice(SliceMode::HeadLines(3), content);

    assert_eq!(result.content, "line1\nline2\nline3");
    assert_eq!(result.slice_info, SliceInfo::Lines { start: 1, end: 3 });
}

#[test]
fn test_read_head_chars() {
    let content = "Hello, World!";
    let result = slice(SliceMode::HeadChars(5), content);

    assert_eq!(result.content, "Hello");
    assert_eq!(result.slice_info, SliceInfo::Chars { start: 0, end: 5 });
}

#[test]
fn test_zero_length_slices_report_empty_ranges() {
    let content = "line1\nline2\nline3";

    let cases = [
        SliceMode::HeadLines(0),
        SliceMode::TailLines(0),
        SliceMode::HeadChars(0),
        SliceMode::TailChars(0),
    ];

    for mode in cases {
        let result = slice(mode, content);
        assert_eq!(result.content, "");
        match mode {
            SliceMode::HeadLines(_) | SliceMode::TailLines(_) => {
                assert_eq!(result.slice_info, SliceInfo::Lines { start: 0, end: 0 });
            }
            SliceMode::HeadChars(_) | SliceMode::TailChars(_) => {
                assert_eq!(result.slice_info, SliceInfo::Chars { start: 0, end: 0 });
            }
            SliceMode::Full => unreachable!(),
        }
    }
}

#[test]
fn test_large_char_counts_do_not_overflow() {
    let content = "Hello, 世界!";

    let head = slice(SliceMode::HeadChars(usize::MAX), content);
    let tail = slice(SliceMode::TailChars(usize::MAX), content);

    assert_eq!(head.content, content);
    assert_eq!(head.slice_info, SliceInfo::Chars { start: 0, end: 10 });
    assert_eq!(tail.content, content);
    assert_eq!(tail.slice_info, SliceInfo::Chars { start: 0, end: 10 });
}

#[test]
fn test_read_tail_lines_small_file() {
    let content = "line1\nline2\nline3\nline4\nline5";
    let result = slice(SliceMode::TailLines(2), content);

    assert_eq!(result.content, "line4\nline5");
}

#[test]
fn test_read_tail_lines_large_file_reports_exact_line_numbers() {
    let content = (1..=20_000)
        .map(|n| format!("line{}", n))
        .collect::<Vec<_>>()
        .join("\n");

    let result = slice(SliceMode::TailLines(3), &content);

    assert_eq!(result.content, "line19998\nline19999\nline20000");
    assert_eq!(
        result.slice_info,
        SliceInfo::Lines {
            start: 19998,
            end: 20000
        }
    );
}

#[test]
fn test_read_tail_chars() {
    let content = "Hello, World!";
    let result = slice(SliceMode::TailChars(6), content);

    assert_eq!(result.content, "World!");
}

#[test]
fn test_read_tail_chars_reports_character_offsets() {
    let content = "ééé";
    let result = slice(SliceMode::TailChars(1), content);

    assert_eq!(result.content, "é");
    assert_eq!(result.slice_info, SliceInfo::Chars { start: 2, end: 3 });
}

#[test]
fn test_empty_file() {
    let result = slice(SliceMode::Full, "");

    assert_eq!(result.content, "");
    assert_eq!(result.slice_info, SliceInfo::Full);
}

#[test]
fn test_head_lines_more_than_file() {
    let content = "line1\nline2";
    let result = slice(SliceMode::HeadLines(100), content);

    assert_eq!(result.content, "line1\nline2");
    assert_eq!(result.slice_info, SliceInfo::Lines { start: 1, end: 2 });
}

#[test]
fn test_unicode_chars() {
    let content = "Hello, 世界!";
    let result = slice(SliceMode::HeadChars(9), content);

    assert_eq!(result.content, "Hello, 世界");
}

#[test]
fn process_file_keeps_the_path() {
    let result = Slicer::new(SliceMode::Full)
        .process_file("src/main.rs".to_string(), b"fn main() {}")
        .unwrap();
    assert_eq!(result.path, "src/main.rs");
    assert_eq!(Slicer::new(SliceMode::TailChars(4)).mode(), SliceMode::TailChars(4));
}

#[test]
fn full_read_of_invalid_utf8_is_an_error() {
    let bytes: &[u8] = &[b'a', 0xff, b'b'];
    let result = Slicer::new(SliceMode::Full).process_file("bin".to_string(), bytes);
    assert_eq!(result.unwrap_err(), SliceError::InvalidUtf8);
}

#[test]
fn head_lines_need_only_their_own_lines_well_formed() {
    let bytes: &[u8] = &[b'o', b'k', b'\n', 0xff, b'\n'];
    let first = Slicer::new(SliceMode::HeadLines(1))
        .process_file("f".to_string(), bytes)
        .unwrap();
    assert_eq!(first.content, "ok");
    assert_eq!(first.slice_info, SliceInfo::Lines { start: 1, end: 1 });
    let both = Slicer::new(SliceMode::HeadLines(2)).process_file("f".to_string(), bytes);
    assert_eq!(both.unwrap_err(), SliceError::InvalidUtf8);
}

#[test]
fn head_lines_drop_carriage_returns() {
    let result = slice(SliceMode::HeadLines(5), "a\r\nb\r\nc");
    assert_eq!(result.content, "a\nb\nc");
    assert_eq!(result.slice_info, SliceInfo::Lines { start: 1, end: 3 });
}

#[test]
fn tail_lines_of_small_file_are_numbered_from_the_end() {
    let result = slice(SliceMode::TailLines(2), "one\ntwo\nthree\n");
    assert_eq!(result.content, "two\nthree");
    assert_eq!(result.slice_info, SliceInfo::Lines { start: 2, end: 3 });
}

#[test]
fn tail_lines_beyond_the_file_give_every_line() {
    let result = slice(SliceMode::TailLines(10), "one\ntwo");
    assert_eq!(result.content, "one\ntwo");
    assert_eq!(result.slice_info, SliceInfo::Lines { start: 1, end: 2 });
}

#[test]
fn tail_lines_of_large_file_match_the_whole_text() {
    let content = (1..=9_000)
        .map(|n| format!("row {} é", n))
        .collect::<Vec<_>>()
        .join("\n");
    assert!(content.len() >= 65536);
    let result = slice(SliceMode::TailLines(2), &content);
    assert_eq!(result.content, "row 8999 é\nrow 9000 é");
    assert_eq!(result.slice_info, SliceInfo::Lines { start: 8999, end: 9000 });
}

#[test]
fn tail_lines_of_large_file_with_few_lines_take_them_all() {
    let content = format!("{}\n{}", "x".repeat(70_000), "y".repeat(10));
    let result = slice(SliceMode::TailLines(5), &content);
    assert_eq!(result.content, content);
    assert_eq!(result.slice_info, SliceInfo::Lines { start: 1, end: 2 });
}

#[test]
fn tail_chars_take_whole_characters() {
    let result = slice(SliceMode::TailChars(2), "a😀b");
    assert_eq!(result.content, "😀b");
    assert_eq!(result.slice_info, SliceInfo::Chars { start: 1, end: 3 });
}

#[test]
fn tail_chars_replace_malformed_bytes() {
    let bytes: &[u8] = &[b'a', 0xff, b'b'];
    let result = Slicer::new(SliceMode::TailChars(10))
        .process_file("f".to_string(), bytes)
        .unwrap();
    assert_eq!(result.content, "a\u{fffd}b");
    assert_eq!(result.slice_info, SliceInfo::Chars { start: 0, end: 3 });
}

#[test]
fn head_chars_replace_malformed_bytes() {
    let bytes: &[u8] = &[0xff, b'x', b'y'];
    let result = Slicer::new(SliceMode::HeadChars(2))
        .process_file("f".to_string(), bytes)
        .unwrap();
    assert_eq!(result.content, "\u{fffd}x");
    assert_eq!(result.slice_info, SliceInfo::Chars { start: 0, end: 2 });
}

#[test]
fn head_chars_of_multibyte_text() {
    let result = slice(SliceMode::HeadChars(2), "日本語");
    assert_eq!(result.content, "日本");
    assert_eq!(result.slice_info, SliceInfo::Chars { start: 0, end: 2 });
}

#[test]
fn head_lines_match_the_text_lines() {
    let content = "α\r\nβ\n\nγ\r\nlast";
    let expected: Vec<&str> = content.lines().collect();
    for n in 1..=6 {
        let result = slice(SliceMode::HeadLines(n), content);
        let k = n.min(expected.len());
        assert_eq!(result.content, expected[..k].join("\n"));
        assert_eq!(result.slice_info, SliceInfo::Lines { start: 1, end: k });
    }
}

#[test]
fn tail_lines_of_large_file_match_text_lines() {
    let content = (0..12_000)
        .map(|n| format!("{} {}", n, "ü".repeat(n % 7)))
        .collect::<Vec<_>>()
        .join("\n");
    let expected: Vec<&str> = content.lines().collect();
    for n in [1usize, 5, 4000, 11_999, 12_000, 20_000] {
        let result = slice(SliceMode::TailLines(n), &content);
        let k = n.min(expected.len());
        let skip = expected.len() - k;
        assert_eq!(result.content, expected[skip..].join("\n"));
        assert_eq!(
            result.slice_info,
            SliceInfo::Lines {
                start: skip + 1,
                end: expected.len()
            }
        );
    }
}

#[test]
fn head_chars_take_whole_characters_at_any_cut() {
    let result = slice(SliceMode::HeadChars(1), "€€");
    assert_eq!(result.content, "€");
    assert_eq!(result.slice_info, SliceInfo::Chars { start: 0, end: 1 });
    let result = slice(SliceMode::HeadChars(2), "a€€€b");
    assert_eq!(result.content, "a€");
}

#[test]
fn tail_lines_of_large_file_keep_lines_at_every_cut() {
    let content = format!("a\n\n{}", "b".repeat(65535));
    let result = slice(SliceMode::TailLines(3), &content);
    assert_eq!(result.content, format!("a\n\n{}", "b".repeat(65535)));
    assert_eq!(result.slice_info, SliceInfo::Lines { start: 1, end: 3 });
    for shift in 0..4 {
        let body = format!("{}€\r\n", "x".repeat(shift));
        let content = format!("{}{}tail", "é".repeat(40_000), body);
        let expected: Vec<&str> = content.lines().collect();
        let result = slice(SliceMode::TailLines(2), &content);
        assert_eq!(result.content, expected[expected.len() - 2..].join("\n"));
    }
}

#[test]
fn head_and_tail_lines_tile_the_text() {
    let content = (0..10_000)
        .map(|n| format!("{} ü\r", n))
        .collect::<Vec<_>>()
        .join("\n");
    let total = content.lines().count();
    for a in [1usize, 4321, total - 1] {
        let head = slice(SliceMode::HeadLines(a), &content);
        let tail = slice(SliceMode::TailLines(total - a), &content);
        assert_eq!(
            format!("{}\n{}", head.content, tail.content),
            content.lines().collect::<Vec<_>>().join("\n")
        );
        assert_eq!(head.slice_info, SliceInfo::Lines { start: 1, end: a });
        assert_eq!(tail.slice_info, SliceInfo::Lines { start: a + 1, end: total });
    }
}

#[test]
fn descriptions_tell_slices_apart() {
    let infos = [
        SliceInfo::Full,
        SliceInfo::Lines { start: 1, end: 12 },
        SliceInfo::Lines { start: 11, end: 2 },
        SliceInfo::Chars { start: 1, end: 12 },
        SliceInfo::Chars { start: 0, end: 0 },
    ];
    for a in infos.iter() {
        for b in infos.iter() {
            assert_eq!(a.description() == b.description(), a == b);
        }
    }
}

#[test]
fn slices_of_an_empty_file_report_empty_ranges() {
    let head = slice(SliceMode::HeadLines(5), "");
    assert_eq!(head.content, "");
    assert_eq!(head.slice_info, SliceInfo::Lines { start: 0, end: 0 });

    let tail = slice(SliceMode::TailLines(5), "");
    assert_eq!(tail.content, "");
    assert_eq!(tail.slice_info, SliceInfo::Lines { start: 0, end: 0 });

    let chars = slice(SliceMode::HeadChars(5), "");
    assert_eq!(chars.content, "");
    assert_eq!(chars.slice_info, SliceInfo::Chars { start: 0, end: 0 });
}
