//! Extraction of a file's full text, or of its first or last lines or characters.
//!
//! The caller reads the file's bytes; everything decided about them happens here.

use vstd::prelude::*;
use vstd::slice::slice_subrange;
use vstd::utf8::*;

use crate::decode::{decode_lossy, decode_strict, lossy_text};
use crate::slice_laws::lemma_first_chars_in_prefix;
use crate::text::{
    byte_lines, byte_views, chars_of, decimal, decimal_chars, digit_char, join, join_with, lines_of,
    split_byte_lines, split_lines, string_from, views, append_chars, copy_chars, push_chars,
};

verus! {

/// At most this many bytes encode one character in UTF-8.
pub const UTF8_MAX_BYTES_PER_CHAR: usize = 4;

/// Files smaller than this are decoded whole for their last lines; larger ones are split
/// into lines as bytes, and only the lines taken are decoded.
pub const TAIL_READ_LIMIT: usize = 65536;

/// Specifies how to slice file content.
#[derive(Clone, Copy, Debug, PartialEq, Eq, Structural)]
pub enum SliceMode {
    /// Read the entire file.
    Full,
    /// Read the first N lines.
    HeadLines(usize),
    /// Read the first N characters.
    HeadChars(usize),
    /// Read the last N lines.
    TailLines(usize),
    /// Read the last N characters.
    TailChars(usize),
}

/// Describes the portion of a file that was extracted.
#[derive(Clone, Copy, Debug, PartialEq, Eq, Structural)]
pub enum SliceInfo {
    /// The entire file was read.
    Full,
    /// A range of lines was extracted.
    Lines { start: usize, end: usize },
    /// A range of characters was extracted.
    Chars { start: usize, end: usize },
}

/// Represents extracted file content with metadata.
#[derive(Debug)]
pub struct FileContent {
    /// Path to the source file.
    pub path: String,
    /// Extracted content as a string.
    pub content: String,
    /// Information about which portion was extracted.
    pub slice_info: SliceInfo,
}

/// Why a file's bytes could not be sliced.
#[derive(Clone, Copy, Debug, PartialEq, Eq, Structural)]
pub enum SliceError {
    /// The part of the file that has to be text is not well-formed UTF-8.
    InvalidUtf8,
}

/// Extracts portions of files according to a specified slice mode.
pub struct Slicer {
    mode: SliceMode,
}

/// `a - b`, or 0 where `b` is larger.
pub open spec fn sat_sub(a: int, b: int) -> int {
    if a > b {
        a - b
    } else {
        0
    }
}

pub open spec fn min(a: int, b: int) -> int {
    if a < b {
        a
    } else {
        b
    }
}

/// How many bytes are read to find `n` characters among `len` bytes: four per character,
/// at most all of them.
pub open spec fn capped_bytes(n: nat, len: nat) -> nat {
    if 4 * n < len {
        4 * n
    } else {
        len
    }
}

pub open spec fn newline() -> Seq<char> {
    seq!['\n']
}

/// Each byte line decoded as UTF-8.
pub open spec fn decode_lines(ls: Seq<Seq<u8>>) -> Seq<Seq<char>> {
    ls.map_values(|l: Seq<u8>| decode_utf8(l))
}

/// The whole file as text.
pub open spec fn full_result(b: Seq<u8>) -> Result<(Seq<char>, SliceInfo), SliceError> {
    if valid_utf8(b) {
        Ok((decode_utf8(b), SliceInfo::Full))
    } else {
        Err(SliceError::InvalidUtf8)
    }
}

/// The first `n` lines, numbered from 1 (the range 0-0 where no line is taken); only
/// those lines have to be well-formed UTF-8.
pub open spec fn head_lines_result(b: Seq<u8>, n: nat) -> Result<(Seq<char>, SliceInfo), SliceError> {
    if n == 0 {
        Ok((Seq::<char>::empty(), SliceInfo::Lines { start: 0, end: 0 }))
    } else {
        let taken = byte_lines(b).take(min(n as int, byte_lines(b).len() as int));
        if forall|i: int| 0 <= i < taken.len() ==> valid_utf8(#[trigger] taken[i]) {
            Ok(
                (
                    join(decode_lines(taken), newline()),
                    SliceInfo::Lines {
                        start: if taken.len() == 0 {
                            0
                        } else {
                            1
                        },
                        end: taken.len() as usize,
                    },
                ),
            )
        } else {
            Err(SliceError::InvalidUtf8)
        }
    }
}

/// The first `n` characters of the (lossily decoded) first `4 n` bytes.
pub open spec fn head_chars_result(b: Seq<u8>, n: nat) -> Result<(Seq<char>, SliceInfo), SliceError> {
    if n == 0 {
        Ok((Seq::<char>::empty(), SliceInfo::Chars { start: 0, end: 0 }))
    } else {
        let text = lossy_text(b.take(capped_bytes(n, b.len()) as int));
        let content = text.take(min(n as int, text.len() as int));
        Ok((content, SliceInfo::Chars { start: 0, end: content.len() as usize }))
    }
}

/// The text of `buf` read from a file at an offset that may fall inside a character:
/// the longest well-formed suffix that drops at most three leading bytes, else the lossy
/// decoding of all of it.
pub open spec fn suffix_text_result(buf: Seq<u8>, may_start_mid_char: bool) -> Seq<char> {
    if !may_start_mid_char {
        lossy_text(buf)
    } else {
        suffix_from(buf, 0, min(buf.len() as int, 4) as nat)
    }
}

pub open spec fn suffix_from(buf: Seq<u8>, offset: nat, max: nat) -> Seq<char>
    decreases max - offset,
{
    if offset >= max {
        lossy_text(buf)
    } else if valid_utf8(buf.skip(offset as int)) {
        decode_utf8(buf.skip(offset as int))
    } else {
        suffix_from(buf, offset + 1, max)
    }
}

/// The last `n` characters: taken from the last `4 n` bytes, numbered by their position
/// among all characters of the lossily decoded file.
pub open spec fn tail_chars_result(b: Seq<u8>, n: nat) -> Result<(Seq<char>, SliceInfo), SliceError> {
    if b.len() == 0 || n == 0 {
        Ok((Seq::<char>::empty(), SliceInfo::Chars { start: 0, end: 0 }))
    } else {
        let start_pos = b.len() - capped_bytes(n, b.len());
        let text = suffix_text_result(b.subrange(start_pos, b.len() as int), start_pos > 0);
        let content = text.skip(sat_sub(text.len() as int, n as int));
        let total = lossy_text(b).len();
        Ok(
            (
                content,
                SliceInfo::Chars {
                    start: sat_sub(total as int, content.len() as int) as usize,
                    end: total as usize,
                },
            ),
        )
    }
}

/// The last `n` lines of the whole text, numbered from 1.
pub open spec fn last_lines(text: Seq<char>, n: nat) -> (Seq<char>, SliceInfo) {
    let ls = lines_of(text);
    let skip = sat_sub(ls.len() as int, n as int);
    (join(ls.skip(skip), newline()), SliceInfo::Lines { start: (skip + 1) as usize, end: ls.len() as usize })
}

/// The last `n` lines of a large file, split as `BufRead::lines` splits bytes, each line
/// decoded on its own with ill-formed sequences replaced, numbered by the count of lines
/// in the whole file.
pub open spec fn byte_tail_lines(b: Seq<u8>, n: nat) -> (Seq<char>, SliceInfo) {
    let ls = byte_lines(b);
    let skip = sat_sub(ls.len() as int, n as int);
    (
        join(ls.skip(skip).map_values(|l: Seq<u8>| lossy_text(l)), newline()),
        SliceInfo::Lines { start: (skip + 1) as usize, end: ls.len() as usize },
    )
}

/// The last `n` lines: a small file is decoded whole, a large one split into lines first.
pub open spec fn tail_lines_result(b: Seq<u8>, n: nat) -> Result<(Seq<char>, SliceInfo), SliceError> {
    if b.len() == 0 || n == 0 {
        Ok((Seq::<char>::empty(), SliceInfo::Lines { start: 0, end: 0 }))
    } else if b.len() < TAIL_READ_LIMIT {
        if valid_utf8(b) {
            Ok(last_lines(decode_utf8(b), n))
        } else {
            Err(SliceError::InvalidUtf8)
        }
    } else {
        Ok(byte_tail_lines(b, n))
    }
}

/// What a slice mode extracts from a file's bytes.
pub open spec fn slice_result(mode: SliceMode, b: Seq<u8>) -> Result<(Seq<char>, SliceInfo), SliceError> {
    match mode {
        SliceMode::Full => full_result(b),
        SliceMode::HeadLines(n) => head_lines_result(b, n as nat),
        SliceMode::HeadChars(n) => head_chars_result(b, n as nat),
        SliceMode::TailLines(n) => tail_lines_result(b, n as nat),
        SliceMode::TailChars(n) => tail_chars_result(b, n as nat),
    }
}

/// `out` holds the first `n` characters of the well-formed text `b` (all of them where
/// there are fewer), numbered from 0.
pub open spec fn first_chars(out: Result<(Vec<char>, SliceInfo), SliceError>, b: Seq<u8>, n: nat) -> bool {
    let d = decode_utf8(b);
    let m = min(n as int, d.len() as int);
    out matches Ok((c, i)) && c@ == d.take(m) && i == SliceInfo::Chars { start: 0, end: m as usize }
}

/// Whether `out` is what `slice_result` gives.
pub open spec fn matches_result(
    out: Result<(Vec<char>, SliceInfo), SliceError>,
    expected: Result<(Seq<char>, SliceInfo), SliceError>,
) -> bool {
    match expected {
        Ok((text, info)) => out matches Ok((c, i)) && c@ == text && i == info,
        Err(e) => out matches Err(e2) && e2 == e,
    }
}

/// Bytes needed for `n` characters out of `available`: `4 n`, at most `available`.
pub fn bytes_for_chars(n: usize, available: usize) -> (k: usize)
    ensures
        k == capped_bytes(n as nat, available as nat),
{
    let want = if n <= usize::MAX / UTF8_MAX_BYTES_PER_CHAR {
        n * UTF8_MAX_BYTES_PER_CHAR
    } else {
        usize::MAX
    };
    if want < available {
        want
    } else {
        available
    }
}

fn newline_chars() -> (out: Vec<char>)
    ensures
        out@ == newline(),
{
    let mut out: Vec<char> = Vec::new();
    out.push('\n');
    out
}

fn read_full(bytes: &[u8]) -> (out: Result<(Vec<char>, SliceInfo), SliceError>)
    ensures
        matches_result(out, full_result(bytes@)),
{
    match decode_strict(bytes) {
        Some(text) => Ok((chars_of(text.as_str()), SliceInfo::Full)),
        None => Err(SliceError::InvalidUtf8),
    }
}

fn read_head_lines(bytes: &[u8], n: usize) -> (out: Result<(Vec<char>, SliceInfo), SliceError>)
    ensures
        matches_result(out, head_lines_result(bytes@, n as nat)),
{
    if n == 0 {
        return Ok((Vec::new(), SliceInfo::Lines { start: 0, end: 0 }));
    }
    let all = split_byte_lines(bytes);
    let k = if n < all.len() {
        n
    } else {
        all.len()
    };
    let ghost taken = byte_lines(bytes@).take(k as int);
    assert(all@.len() == byte_lines(bytes@).len());
    let mut lines: Vec<Vec<char>> = Vec::new();
    let mut i: usize = 0;
    while i < k
        invariant
            k <= all@.len(),
            k == min(n as int, byte_lines(bytes@).len() as int),
            n > 0,
            byte_views(all@) == byte_lines(bytes@),
            taken == byte_lines(bytes@).take(k as int),
            i <= k,
            lines@.len() == i,
            forall|j: int| 0 <= j < i ==> valid_utf8(#[trigger] taken[j]),
            views(lines@) == decode_lines(taken.take(i as int)),
        decreases k - i,
    {
        proof {
            assert(all@[i as int]@ == taken[i as int]);
        }
        match decode_strict(all[i].as_slice()) {
            Some(text) => {
                let line = chars_of(text.as_str());
                assert(line@ == decode_utf8(taken[i as int]));
                let ghost before = lines@;
                lines.push(line);
                proof {
                    assert(decode_lines(taken.take(i + 1)) =~= decode_lines(taken.take(i as int)).push(
                        decode_utf8(taken[i as int]),
                    ));
                    assert(views(lines@) =~= views(before).push(line@));
                }
            },
            None => {
                proof {
                    assert(taken.len() == k);
                    assert(byte_lines(bytes@).take(min(n as int, byte_lines(bytes@).len() as int))
                        == taken);
                    assert(!valid_utf8(taken[i as int]));
                }
                return Err(SliceError::InvalidUtf8);
            },
        }
        i = i + 1;
    }
    proof {
        assert(taken.take(k as int) =~= taken);
    }
    let nl = newline_chars();
    let start: usize = if k == 0 {
        0
    } else {
        1
    };
    Ok((join_with(lines.as_slice(), nl.as_slice()), SliceInfo::Lines { start, end: k }))
}

fn read_head_chars(bytes: &[u8], n: usize) -> (out: Result<(Vec<char>, SliceInfo), SliceError>)
    ensures
        matches_result(out, head_chars_result(bytes@, n as nat)),
        valid_utf8(bytes@) && n > 0 ==> first_chars(out, bytes@, n as nat),
{
    if n == 0 {
        return Ok((Vec::new(), SliceInfo::Chars { start: 0, end: 0 }));
    }
    let k = bytes_for_chars(n, bytes.len());
    let prefix = slice_subrange(bytes, 0, k);
    proof {
        assert(prefix@ =~= bytes@.take(k as int));
    }
    let text = decode_lossy(prefix);
    proof {
        if valid_utf8(bytes@) {
            lemma_first_chars_in_prefix(bytes@, n as nat, text@);
        }
    }
    let cs = chars_of(text.as_str());
    let m = if n < cs.len() {
        n
    } else {
        cs.len()
    };
    let content = slice_subrange(cs.as_slice(), 0, m);
    let mut out: Vec<char> = Vec::new();
    append_chars(&mut out, content);
    proof {
        assert(out@ =~= cs@.take(m as int));
    }
    Ok((out, SliceInfo::Chars { start: 0, end: m }))
}

fn suffix_text(buffer: &[u8], may_start_mid_char: bool) -> (out: String)
    ensures
        out@ == suffix_text_result(buffer@, may_start_mid_char),
{
    if !may_start_mid_char {
        return decode_lossy(buffer);
    }
    let max = if buffer.len() < UTF8_MAX_BYTES_PER_CHAR {
        buffer.len()
    } else {
        UTF8_MAX_BYTES_PER_CHAR
    };
    let mut offset: usize = 0;
    while offset < max
        invariant
            may_start_mid_char,
            offset <= max,
            max <= buffer@.len(),
            max == min(buffer@.len() as int, 4),
            suffix_from(buffer@, offset as nat, max as nat) == suffix_from(buffer@, 0, max as nat),
        decreases max - offset,
    {
        let rest = slice_subrange(buffer, offset, buffer.len());
        proof {
            assert(rest@ =~= buffer@.skip(offset as int));
        }
        match decode_strict(rest) {
            Some(text) => {
                proof {
                    assert(suffix_from(buffer@, offset as nat, max as nat) == decode_utf8(
                        buffer@.skip(offset as int),
                    ));
                }
                return text;
            },
            None => {},
        }
        offset = offset + 1;
    }
    decode_lossy(buffer)
}

fn read_tail_chars(bytes: &[u8], n: usize) -> (out: Result<(Vec<char>, SliceInfo), SliceError>)
    ensures
        matches_result(out, tail_chars_result(bytes@, n as nat)),
{
    if bytes.len() == 0 || n == 0 {
        return Ok((Vec::new(), SliceInfo::Chars { start: 0, end: 0 }));
    }
    let k = bytes_for_chars(n, bytes.len());
    let start_pos = bytes.len() - k;
    let buffer = slice_subrange(bytes, start_pos, bytes.len());
    let text = suffix_text(buffer, start_pos > 0);
    let cs = chars_of(text.as_str());
    let skip = cs.len().saturating_sub(n);
    let content = copy_chars(slice_subrange(cs.as_slice(), skip, cs.len()));
    proof {
        assert(content@ =~= cs@.skip(skip as int));
    }
    let whole = decode_lossy(bytes);
    let total = chars_of(whole.as_str()).len();
    let start = total.saturating_sub(content.len());
    Ok((content, SliceInfo::Chars { start, end: total }))
}

/// Each line decoded, ill-formed sequences replaced.
fn decode_each(ls: &[Vec<u8>]) -> (out: Vec<Vec<char>>)
    ensures
        views(out@) == byte_views(ls@).map_values(|l: Seq<u8>| lossy_text(l)),
{
    let mut out: Vec<Vec<char>> = Vec::new();
    let mut i: usize = 0;
    while i < ls.len()
        invariant
            i <= ls@.len(),
            views(out@) == byte_views(ls@).take(i as int).map_values(|l: Seq<u8>| lossy_text(l)),
        decreases ls@.len() - i,
    {
        let text = decode_lossy(ls[i].as_slice());
        let line = chars_of(text.as_str());
        let ghost before = views(out@);
        out.push(line);
        proof {
            assert(views(out@) =~= before.push(line@));
            assert(byte_views(ls@).take(i + 1).map_values(|l: Seq<u8>| lossy_text(l)) =~= before.push(
                lossy_text(ls@[i as int]@),
            ));
        }
        i = i + 1;
    }
    proof {
        assert(byte_views(ls@).take(ls@.len() as int) =~= byte_views(ls@));
    }
    out
}

fn read_tail_lines(bytes: &[u8], n: usize) -> (out: Result<(Vec<char>, SliceInfo), SliceError>)
    ensures
        matches_result(out, tail_lines_result(bytes@, n as nat)),
{
    if bytes.len() == 0 || n == 0 {
        return Ok((Vec::new(), SliceInfo::Lines { start: 0, end: 0 }));
    }
    let nl = newline_chars();
    if bytes.len() < TAIL_READ_LIMIT {
        let text = match decode_strict(bytes) {
            Some(text) => text,
            None => return Err(SliceError::InvalidUtf8),
        };
        let cs = chars_of(text.as_str());
        let ls = split_lines(cs.as_slice());
        let total = ls.len();
        let skip = total.saturating_sub(n);
        let rest = slice_subrange(ls.as_slice(), skip, total);
        proof {
            assert(views(rest@) =~= views(ls@).skip(skip as int));
        }
        let content = join_with(rest, nl.as_slice());
        return Ok((content, SliceInfo::Lines { start: skip + 1, end: total }));
    }
    let ls = split_byte_lines(bytes);
    let total = ls.len();
    let skip = total.saturating_sub(n);
    let rest = slice_subrange(ls.as_slice(), skip, total);
    let lines = decode_each(rest);
    proof {
        assert(byte_views(ls@).len() == ls@.len());
        assert(byte_views(rest@) =~= byte_lines(bytes@).skip(skip as int));
    }
    let content = join_with(lines.as_slice(), nl.as_slice());
    Ok((content, SliceInfo::Lines { start: skip + 1, end: total }))
}

impl SliceInfo {
    /// Returns a human-readable description of the slice, such as `full`, `lines 1-50` or
    /// `chars 0-100`.
    pub fn description(&self) -> (out: String)
        ensures
            out@ == description_text(*self),
    {
        match self {
            SliceInfo::Full => String::from_str("full"),
            SliceInfo::Lines { start, end } => {
                let mut out = String::from_str("lines ");
                push_range(&mut out, *start, *end);
                out
            },
            SliceInfo::Chars { start, end } => {
                let mut out = String::from_str("chars ");
                push_range(&mut out, *start, *end);
                out
            },
        }
    }
}

/// `start-end` in decimal.
pub open spec fn range_text(start: nat, end: nat) -> Seq<char> {
    decimal(start) + seq!['-'] + decimal(end)
}

/// How a slice is named in headers and JSON: `full`, `lines a-b` or `chars a-b`.
pub open spec fn description_text(info: SliceInfo) -> Seq<char> {
    match info {
        SliceInfo::Full => "full"@,
        SliceInfo::Lines { start, end } => "lines "@ + range_text(start as nat, end as nat),
        SliceInfo::Chars { start, end } => "chars "@ + range_text(start as nat, end as nat),
    }
}

fn push_range(out: &mut String, start: usize, end: usize)
    ensures
        final(out)@ == old(out)@ + range_text(start as nat, end as nat),
{
    let a = decimal_chars(start);
    push_chars(out, a.as_slice());
    out.push('-');
    let b = decimal_chars(end);
    push_chars(out, b.as_slice());
    proof {
        assert(final(out)@ =~= old(out)@ + range_text(start as nat, end as nat));
    }
}

impl Slicer {
    /// The slice mode this slicer applies.
    pub closed spec fn slice_mode(&self) -> SliceMode {
        self.mode
    }

    /// Creates a new `Slicer` with the specified slice mode.
    pub fn new(mode: SliceMode) -> (out: Self)
        ensures
            out.slice_mode() == mode,
    {
        Slicer { mode }
    }

    /// The slice mode this slicer applies.
    pub fn mode(&self) -> (out: SliceMode)
        ensures
            out == self.slice_mode(),
    {
        self.mode
    }

    /// Extracts the slice of a file, given the path it is reported under and the bytes
    /// read from it. On well-formed text, `HeadChars(n)` gives its first `n` characters.
    pub fn process_file(&self, path: String, bytes: &[u8]) -> (out: Result<FileContent, SliceError>)
        ensures
            match slice_result(self.slice_mode(), bytes@) {
                Ok((text, info)) => out matches Ok(fc) && fc.path@ == path@ && fc.content@ == text
                    && fc.slice_info == info,
                Err(e) => out matches Err(e2) && e2 == e,
            },
            valid_utf8(bytes@) ==> match self.slice_mode() {
                SliceMode::HeadChars(n) => n > 0 ==> {
                    let d = decode_utf8(bytes@);
                    let m = min(n as int, d.len() as int);
                    out matches Ok(fc) && fc.content@ == d.take(m) && fc.slice_info == SliceInfo::Chars {
                        start: 0,
                        end: m as usize,
                    }
                },
                _ => true,
            },
    {
        let sliced = match self.mode {
            SliceMode::Full => read_full(bytes),
            SliceMode::HeadLines(n) => read_head_lines(bytes, n),
            SliceMode::HeadChars(n) => read_head_chars(bytes, n),
            SliceMode::TailLines(n) => read_tail_lines(bytes, n),
            SliceMode::TailChars(n) => read_tail_chars(bytes, n),
        };
        match sliced {
            Ok((text, slice_info)) => Ok(FileContent { path, content: string_from(text.as_slice()), slice_info }),
            Err(e) => Err(e),
        }
    }
}

proof fn lemma_decimal_no_dash(n: nat)
    ensures
        !decimal(n).contains('-'),
        decimal(n).len() >= 1,
        decimal(n).len() == 1 <==> n < 10,
    decreases n,
{
    assert(digit_char(n % 10) != '-');
    if n >= 10 {
        lemma_decimal_no_dash(n / 10);
        assert(!decimal(n).contains('-')) by {
            if decimal(n).contains('-') {
                let i = choose|i: int| 0 <= i < decimal(n).len() && decimal(n)[i] == '-';
                if i < decimal(n).len() - 1 {
                    assert(decimal(n / 10)[i] == '-');
                }
            }
        }
    } else {
        assert(!decimal(n).contains('-')) by {
            if decimal(n).contains('-') {
                let i = choose|i: int| 0 <= i < decimal(n).len() && decimal(n)[i] == '-';
                assert(decimal(n)[i] == digit_char(n));
            }
        }
    }
}

proof fn lemma_decimal_injective(m: nat, n: nat)
    requires
        decimal(m) == decimal(n),
    ensures
        m == n,
    decreases n,
{
    lemma_decimal_no_dash(m);
    lemma_decimal_no_dash(n);
    if n < 10 {
        assert(m < 10);
        assert(decimal(m) == seq![digit_char(m)]);
        assert(decimal(n) == seq![digit_char(n)]);
        assert(seq![digit_char(m)][0] == digit_char(m));
        assert(seq![digit_char(n)][0] == digit_char(n));
        assert(decimal(m)[0] == decimal(n)[0]);
        assert(digit_char(m) == digit_char(n));
    } else {
        assert(m >= 10);
        assert(decimal(m) == decimal(m / 10).push(digit_char(m % 10)));
        assert(decimal(n) == decimal(n / 10).push(digit_char(n % 10)));
        assert(decimal(m / 10).push(digit_char(m % 10)).last() == digit_char(m % 10));
        assert(decimal(n / 10).push(digit_char(n % 10)).last() == digit_char(n % 10));
        assert(decimal(m).last() == decimal(n).last());
        assert(digit_char(m % 10) == digit_char(n % 10));
        assert(decimal(m).drop_last() =~= decimal(m / 10));
        assert(decimal(n).drop_last() =~= decimal(n / 10));
        lemma_decimal_injective(m / 10, n / 10);
    }
}

/// Two ranges `a-b` with the same text have the same bounds.
proof fn lemma_range_text_injective(a: nat, b: nat, c: nat, d: nat)
    requires
        range_text(a, b) == range_text(c, d),
    ensures
        a == c && b == d,
{
    lemma_decimal_no_dash(a);
    lemma_decimal_no_dash(c);
    let x = decimal(a);
    let y = decimal(c);
    let r = range_text(a, b);
    assert(r[x.len() as int] == '-');
    assert(r[y.len() as int] == '-');
    if x.len() < y.len() {
        assert(y[x.len() as int] == r[x.len() as int]);
    } else if y.len() < x.len() {
        assert(x[y.len() as int] == r[y.len() as int]);
    }
    assert(x =~= r.take(x.len() as int));
    assert(y =~= r.take(y.len() as int));
    lemma_decimal_injective(a, c);
    assert(decimal(b) =~= r.skip(x.len() as int + 1));
    assert(decimal(d) =~= r.skip(y.len() as int + 1));
    lemma_decimal_injective(b, d);
}

/// Each slice has its own description: the kind of slice and both bounds can be read back
/// from it.
pub proof fn lemma_description_injective(a: SliceInfo, b: SliceInfo)
    requires
        description_text(a) == description_text(b),
    ensures
        a == b,
{
    reveal_strlit("full");
    reveal_strlit("lines ");
    reveal_strlit("chars ");
    let ta = description_text(a);
    let tb = description_text(b);
    match (a, b) {
        (SliceInfo::Lines { start: s1, end: e1 }, SliceInfo::Lines { start: s2, end: e2 }) => {
            assert(range_text(s1 as nat, e1 as nat) =~= ta.skip(6));
            assert(range_text(s2 as nat, e2 as nat) =~= tb.skip(6));
            lemma_range_text_injective(s1 as nat, e1 as nat, s2 as nat, e2 as nat);
        },
        (SliceInfo::Chars { start: s1, end: e1 }, SliceInfo::Chars { start: s2, end: e2 }) => {
            assert(range_text(s1 as nat, e1 as nat) =~= ta.skip(6));
            assert(range_text(s2 as nat, e2 as nat) =~= tb.skip(6));
            lemma_range_text_injective(s1 as nat, e1 as nat, s2 as nat, e2 as nat);
        },
        (SliceInfo::Full, SliceInfo::Full) => {},
        _ => {
            let ka = match a {
                SliceInfo::Full => 'f',
                SliceInfo::Lines { .. } => 'l',
                SliceInfo::Chars { .. } => 'c',
            };
            let kb = match b {
                SliceInfo::Full => 'f',
                SliceInfo::Lines { .. } => 'l',
                SliceInfo::Chars { .. } => 'c',
            };
            assert(ta[0] == ka);
            assert(tb[0] == kb);
        },
    }
}

} // verus!
