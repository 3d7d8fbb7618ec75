//! Compiling extracted file contents into Markdown, plain text or JSON.

use vstd::prelude::*;

use crate::config::DefaultFormat;
use crate::slicer::{description_text, FileContent};
use crate::text::{
    chars_of, decimal, decimal_chars, digit_char, is_white_space, is_whitespace, join,
    lemma_join_part_follows_sep, lemma_segments_nonempty, push_chars, segments_by,
};

verus! {

/// Output format for compiled file contents.
#[derive(Clone, Copy, Debug, PartialEq, Eq, Structural)]
pub enum Format {
    /// Markdown format with headers and separators.
    Markdown,
    /// Plain text with just the content.
    Plain,
    /// Structured JSON output.
    Json,
}

/// Formats file contents into the specified output format.
pub struct Formatter {
    format: Format,
    include_tokens: bool,
}

/// Why the output could not be formatted.
#[derive(Debug)]
pub enum FormatError {
    /// A string could not be encoded as JSON.
    Json,
}

#[verifier::external_type_specification]
#[verifier::external_body]
pub struct ExJsonError(serde_json::Error);

/// A digit of base sixteen, in lowercase.
pub open spec fn hex_digit(v: int) -> char {
    seq!['0', '1', '2', '3', '4', '5', '6', '7', '8', '9', 'a', 'b', 'c', 'd', 'e', 'f'][v]
}

/// How a character stands inside a JSON string literal: a quote and a backslash behind a
/// backslash, the control characters with a short escape (`\b \t \n \f \r`) by it,
/// the other control characters as `\u00` and two hexadecimal digits, all else as it is.
pub open spec fn json_escape(c: char) -> Seq<char> {
    let u = c as u32;
    if c == '"' {
        seq!['\\', '"']
    } else if c == '\\' {
        seq!['\\', '\\']
    } else if u == 8 {
        seq!['\\', 'b']
    } else if u == 9 {
        seq!['\\', 't']
    } else if u == 10 {
        seq!['\\', 'n']
    } else if u == 12 {
        seq!['\\', 'f']
    } else if u == 13 {
        seq!['\\', 'r']
    } else if u < 32 {
        seq!['\\', 'u', '0', '0', hex_digit((u / 16) as int), hex_digit((u % 16) as int)]
    } else {
        seq![c]
    }
}

/// The characters of a text, each escaped for a JSON string literal.
pub open spec fn json_escaped(s: Seq<char>) -> Seq<char>
    decreases s.len(),
{
    if s.len() == 0 {
        Seq::empty()
    } else {
        json_escaped(s.drop_last()) + json_escape(s.last())
    }
}

/// The JSON string literal of a text: its escaped characters in double quotes.
pub open spec fn json_quote(s: Seq<char>) -> Seq<char> {
    seq!['"'] + json_escaped(s) + seq!['"']
}

/// Calls `serde_json::to_string` on a string: the crate writes the string literal into a
/// byte vector (`format_escaped_str` with its `ESCAPE` table and `write_char_escape`),
/// which cannot fail, so it always succeeds.
#[verifier::external_body]
fn quote_json(s: &str) -> (out: Result<String, serde_json::Error>)
    ensures
        out is Ok,
        out matches Ok(q) ==> q@ == json_quote(s@),
{
    serde_json::to_string(s)
}

/// The Unicode properties `Alphabetic` or `Numeric`, as `char::is_alphanumeric` tests them.
pub uninterp spec fn char_alphanumeric(c: char) -> bool;

/// Calls `char::is_alphanumeric`; its result is named `char_alphanumeric`.
#[verifier::external_body]
fn is_alphanumeric(c: char) -> (out: bool)
    ensures
        out == char_alphanumeric(c),
{
    c.is_alphanumeric()
}

/// Characters that make up words when tokens are counted.
pub open spec fn word_char(c: char) -> bool {
    char_alphanumeric(c) || c == '_'
}

/// The estimated token count of a text whose characters `w` marks as word characters or
/// not: each run of word characters counts once, and each other character that is not
/// white space counts once.
pub open spec fn class_tokens(s: Seq<char>, w: Seq<bool>) -> nat
    decreases s.len(),
{
    if s.len() == 0 {
        0
    } else {
        let prev = class_tokens(s.drop_last(), w.drop_last());
        let n = s.len() - 1;
        if w[n] {
            if n >= 1 && w[n - 1] {
                prev
            } else {
                prev + 1
            }
        } else if is_white_space(s[n]) {
            prev
        } else {
            prev + 1
        }
    }
}

/// Which characters of a text are word characters.
pub open spec fn word_classes(s: Seq<char>) -> Seq<bool> {
    s.map_values(|c: char| word_char(c))
}

/// The estimated token count of a text.
pub open spec fn text_tokens(s: Seq<char>) -> nat {
    class_tokens(s, word_classes(s))
}

/// A text has no more tokens than characters.
pub proof fn lemma_class_tokens_at_most_chars(s: Seq<char>, w: Seq<bool>)
    ensures
        class_tokens(s, w) <= s.len(),
    decreases s.len(),
{
    if s.len() > 0 {
        lemma_class_tokens_at_most_chars(s.drop_last(), w.drop_last());
    }
}

/// A text has no more tokens than characters.
pub proof fn lemma_tokens_at_most_chars(s: Seq<char>)
    ensures
        text_tokens(s) <= s.len(),
{
    lemma_class_tokens_at_most_chars(s, word_classes(s));
}

/// Texts joined by a white-space character marked as no word character have the tokens
/// of both: no token runs across the join, and the joining character counts for none.
pub proof fn lemma_class_tokens_add_up(a: Seq<char>, wa: Seq<bool>, c: char, b: Seq<char>, wb: Seq<bool>)
    requires
        wa.len() == a.len(),
        wb.len() == b.len(),
        is_white_space(c),
    ensures
        class_tokens(a + seq![c] + b, wa + seq![false] + wb) == class_tokens(a, wa) + class_tokens(
            b,
            wb,
        ),
    decreases b.len(),
{
    let s = a + seq![c];
    let ws = wa + seq![false];
    if b.len() == 0 {
        assert(s + b =~= s);
        assert(ws + wb =~= ws);
        assert(s.drop_last() =~= a);
        assert(ws.drop_last() =~= wa);
    } else {
        let b0 = b.drop_last();
        let wb0 = wb.drop_last();
        lemma_class_tokens_add_up(a, wa, c, b0, wb0);
        let whole = s + b;
        let wwhole = ws + wb;
        assert(whole.drop_last() =~= s + b0);
        assert(wwhole.drop_last() =~= ws + wb0);
        assert(whole[whole.len() - 1] == b[b.len() - 1]);
        assert(wwhole[wwhole.len() - 1] == wb[wb.len() - 1]);
        if b0.len() == 0 {
            assert(wwhole[wwhole.len() - 2] == false);
        } else {
            assert(wwhole[wwhole.len() - 2] == wb[wb.len() - 2]);
        }
    }
}

/// Texts joined by a white-space character that is not a word character have the tokens
/// of both.
pub proof fn lemma_tokens_add_up(a: Seq<char>, c: char, b: Seq<char>)
    requires
        is_white_space(c),
        !word_char(c),
    ensures
        text_tokens(a + seq![c] + b) == text_tokens(a) + text_tokens(b),
{
    lemma_class_tokens_add_up(a, word_classes(a), c, b, word_classes(b));
    assert(word_classes(a + seq![c] + b) =~= word_classes(a) + seq![false] + word_classes(b));
}

/// Whether a word run crosses the join of two marked texts: the last character of the
/// first and the first character of the second are both marked as word characters.
pub open spec fn run_crosses(wa: Seq<bool>, wb: Seq<bool>) -> bool {
    wa.len() > 0 && wb.len() > 0 && wa[wa.len() - 1] && wb[0]
}

/// Concatenating two marked texts adds up their token counts, less one where a word run
/// crosses the join.
pub proof fn lemma_class_tokens_concat(a: Seq<char>, wa: Seq<bool>, b: Seq<char>, wb: Seq<bool>)
    requires
        wa.len() == a.len(),
        wb.len() == b.len(),
    ensures
        class_tokens(a + b, wa + wb) + (if run_crosses(wa, wb) {
            1int
        } else {
            0int
        }) == class_tokens(a, wa) + class_tokens(b, wb),
    decreases b.len(),
{
    if b.len() == 0 {
        assert(a + b =~= a);
        assert(wa + wb =~= wa);
    } else {
        let b0 = b.drop_last();
        let wb0 = wb.drop_last();
        lemma_class_tokens_concat(a, wa, b0, wb0);
        let s = a + b;
        let ws = wa + wb;
        assert(s.drop_last() =~= a + b0);
        assert(ws.drop_last() =~= wa + wb0);
        assert(s[s.len() - 1] == b[b.len() - 1]);
        assert(ws[ws.len() - 1] == wb[wb.len() - 1]);
        if b0.len() > 0 {
            assert(ws[ws.len() - 2] == wb[wb.len() - 2]);
            assert(wb0[0] == wb[0]);
        } else if a.len() > 0 {
            assert(ws[ws.len() - 2] == wa[wa.len() - 1]);
        }
    }
}

/// A text of one character has one token, unless it is white space not marked as a word
/// character.
pub proof fn lemma_class_tokens_single(c: char, w: bool)
    ensures
        class_tokens(seq![c], seq![w]) == (if !w && is_white_space(c) {
            0int
        } else {
            1int
        }),
{
    assert(seq![c].drop_last() =~= Seq::<char>::empty());
    assert(seq![w].drop_last() =~= Seq::<bool>::empty());
    assert(class_tokens(Seq::<char>::empty(), Seq::<bool>::empty()) == 0);
    assert(seq![w][0] == w && seq![c][0] == c);
}

/// Concatenating two texts adds up their token counts, less one where a word run crosses
/// the join (the last character of the first and the first of the second are both word
/// characters).
pub proof fn lemma_tokens_concat(a: Seq<char>, b: Seq<char>)
    ensures
        text_tokens(a + b) + (if a.len() > 0 && b.len() > 0 && word_char(a[a.len() - 1]) && word_char(b[0]) {
            1int
        } else {
            0int
        }) == text_tokens(a) + text_tokens(b),
{
    lemma_class_tokens_concat(a, word_classes(a), b, word_classes(b));
    assert(word_classes(a + b) =~= word_classes(a) + word_classes(b));
}

/// A character that is neither a word character nor white space counts as one token of
/// its own between any two texts.
pub proof fn lemma_tokens_mark_between(a: Seq<char>, c: char, b: Seq<char>)
    requires
        !word_char(c),
        !is_white_space(c),
    ensures
        text_tokens(a + seq![c] + b) == text_tokens(a) + 1 + text_tokens(b),
{
    lemma_tokens_concat(a, seq![c]);
    lemma_tokens_concat(a + seq![c], b);
    lemma_class_tokens_single(c, false);
    assert(word_classes(seq![c]) =~= seq![false]);
    assert((a + seq![c])[a.len() as int] == c);
}

/// The token counts of all files' contents, added up.
pub open spec fn total_tokens(files: Seq<FileContent>) -> nat
    decreases files.len(),
{
    if files.len() == 0 {
        0
    } else {
        total_tokens(files.drop_last()) + text_tokens(files.last().content@)
    }
}

/// The characters of all files' contents, added up.
pub open spec fn total_chars(files: Seq<FileContent>) -> nat
    decreases files.len(),
{
    if files.len() == 0 {
        0
    } else {
        total_chars(files.drop_last()) + files.last().content@.len()
    }
}

pub proof fn lemma_total_tokens_at_most_chars(files: Seq<FileContent>)
    ensures
        total_tokens(files) <= total_chars(files),
    decreases files.len(),
{
    if files.len() > 0 {
        lemma_total_tokens_at_most_chars(files.drop_last());
        lemma_tokens_at_most_chars(files.last().content@);
    }
}

/// Decimal digits grouped in threes from the right, separated by commas.
pub open spec fn grouped(d: Seq<char>) -> Seq<char>
    decreases d.len(),
{
    if d.len() <= 3 {
        d
    } else {
        grouped(d.take(d.len() - 3)) + seq![','] + d.skip(d.len() - 3)
    }
}

/// A number as it appears in token counts: `1,523`.
pub open spec fn number_text(n: nat) -> Seq<char> {
    grouped(decimal(n))
}

/// `s` without its commas.
pub open spec fn without_commas(s: Seq<char>) -> Seq<char>
    decreases s.len(),
{
    if s.len() == 0 {
        s
    } else if s.last() == ',' {
        without_commas(s.drop_last())
    } else {
        without_commas(s.drop_last()).push(s.last())
    }
}

proof fn lemma_without_commas_concat(a: Seq<char>, b: Seq<char>)
    ensures
        without_commas(a + b) == without_commas(a) + without_commas(b),
    decreases b.len(),
{
    if b.len() == 0 {
        assert(a + b =~= a);
        assert(without_commas(a) + without_commas(b) =~= without_commas(a));
    } else {
        lemma_without_commas_concat(a, b.drop_last());
        assert((a + b).drop_last() =~= a + b.drop_last());
        assert((a + b).last() == b.last());
        assert(without_commas(a + b) =~= without_commas(a) + without_commas(b));
    }
}

proof fn lemma_without_commas_none(s: Seq<char>)
    requires
        !s.contains(','),
    ensures
        without_commas(s) == s,
    decreases s.len(),
{
    if s.len() > 0 {
        assert(!s.drop_last().contains(',')) by {
            if s.drop_last().contains(',') {
                let i = choose|i: int| 0 <= i < s.len() - 1 && s.drop_last()[i] == ',';
                assert(s[i] == ',');
            }
        }
        assert(s.last() == s[s.len() - 1]);
        lemma_without_commas_none(s.drop_last());
        assert(s.drop_last().push(s.last()) =~= s);
    }
}

proof fn lemma_decimal_digits(n: nat)
    ensures
        forall|i: int| 0 <= i < decimal(n).len() ==> '0' <= #[trigger] decimal(n)[i] <= '9',
    decreases n,
{
    let c = digit_char(n % 10);
    assert('0' <= c <= '9');
    if n >= 10 {
        lemma_decimal_digits(n / 10);
        let prev = decimal(n / 10);
        assert forall|i: int| 0 <= i < decimal(n).len() implies '0' <= #[trigger] decimal(n)[i] <= '9' by {
            if i < prev.len() {
                assert(decimal(n)[i] == prev[i]);
            }
        }
    }
}

/// Removing the commas from a count as it is shown gives its decimal numeral.
pub proof fn lemma_number_text_groups(n: nat)
    ensures
        without_commas(number_text(n)) == decimal(n),
{
    lemma_decimal_digits(n);
    lemma_grouped_digits(decimal(n));
}

/// The groups of a count as shown, between its commas: the first has one to three
/// decimal digits, each other exactly three.
pub open spec fn digit_groups(g: Seq<Seq<char>>) -> bool {
    &&& g.len() >= 1
    &&& 1 <= g[0].len() <= 3
    &&& forall|i: int| 1 <= i < g.len() ==> (#[trigger] g[i]).len() == 3
    &&& forall|i: int, j: int|
        0 <= i < g.len() && 0 <= j < g[i].len() ==> '0' <= #[trigger] g[i][j] <= '9'
}

/// A count as shown is made of digit groups: one to three digits, then threes, each
/// group set off by a comma.
pub proof fn lemma_number_text_group_sizes(n: nat)
    ensures
        digit_groups(segments_by(number_text(n), ',')),
{
    lemma_decimal_digits(n);
    lemma_grouped_sizes(decimal(n));
}

/// Splitting at a separator that joins two sequences splits each of them.
proof fn lemma_segments_join<A>(x: Seq<A>, sep: A, y: Seq<A>)
    ensures
        segments_by(x + seq![sep] + y, sep) == segments_by(x, sep) + segments_by(y, sep),
    decreases y.len(),
{
    let s = x + seq![sep];
    if y.len() == 0 {
        assert(s + y =~= s);
        assert(s.drop_last() =~= x);
        assert(segments_by(y, sep) =~= seq![Seq::<A>::empty()]);
        assert(segments_by(x, sep).push(Seq::<A>::empty()) =~= segments_by(x, sep) + seq![
            Seq::<A>::empty(),
        ]);
    } else {
        let y0 = y.drop_last();
        lemma_segments_join(x, sep, y0);
        lemma_segments_nonempty(y0, sep);
        let whole = s + y;
        assert(whole.drop_last() =~= s + y0);
        assert(whole.last() == y.last());
        let a = segments_by(x, sep);
        let b = segments_by(y0, sep);
        if y.last() == sep {
            assert((a + b).push(Seq::<A>::empty()) =~= a + b.push(Seq::<A>::empty()));
        } else {
            assert((a + b).update((a + b).len() - 1, (a + b).last().push(y.last())) =~= a
                + b.update(b.len() - 1, b.last().push(y.last())));
        }
    }
}

/// A sequence without the separator is one segment.
proof fn lemma_segments_single<A>(d: Seq<A>, sep: A)
    requires
        !d.contains(sep),
    ensures
        segments_by(d, sep) == seq![d],
    decreases d.len(),
{
    if d.len() == 0 {
        assert(d =~= Seq::<A>::empty());
        assert(segments_by(d, sep) =~= seq![d]);
    } else {
        assert(!d.drop_last().contains(sep)) by {
            if d.drop_last().contains(sep) {
                let i = choose|i: int| 0 <= i < d.len() - 1 && d.drop_last()[i] == sep;
                assert(d[i] == sep);
            }
        }
        lemma_segments_single(d.drop_last(), sep);
        assert(d.last() != sep) by {
            if d.last() == sep {
                assert(d[d.len() - 1] == sep);
            }
        }
        assert(d.drop_last().push(d.last()) =~= d);
        let prev = segments_by(d.drop_last(), sep);
        assert(prev.update(prev.len() - 1, prev.last().push(d.last())) =~= seq![d]);
    }
}

proof fn lemma_grouped_sizes(d: Seq<char>)
    requires
        d.len() >= 1,
        forall|i: int| 0 <= i < d.len() ==> '0' <= #[trigger] d[i] <= '9',
    ensures
        digit_groups(segments_by(grouped(d), ',')),
    decreases d.len(),
{
    if d.len() <= 3 {
        assert(!d.contains(',')) by {
            if d.contains(',') {
                let i = choose|i: int| 0 <= i < d.len() && d[i] == ',';
                assert('0' <= d[i] <= '9');
            }
        }
        lemma_segments_single(d, ',');
    } else {
        let head = d.take(d.len() - 3);
        let tail = d.skip(d.len() - 3);
        assert forall|i: int| 0 <= i < head.len() implies '0' <= #[trigger] head[i] <= '9' by {
            assert(head[i] == d[i]);
        }
        assert forall|i: int| 0 <= i < tail.len() implies '0' <= #[trigger] tail[i] <= '9' by {
            assert(tail[i] == d[i + d.len() - 3]);
        }
        lemma_grouped_sizes(head);
        assert(!tail.contains(',')) by {
            if tail.contains(',') {
                let i = choose|i: int| 0 <= i < tail.len() && tail[i] == ',';
                assert('0' <= tail[i] <= '9');
            }
        }
        lemma_segments_single(tail, ',');
        lemma_segments_join(grouped(head), ',', tail);
        let g = segments_by(grouped(head), ',') + seq![tail];
        assert(segments_by(grouped(d), ',') == g);
        assert forall|i: int, j: int| 0 <= i < g.len() && 0 <= j < g[i].len() implies '0'
            <= #[trigger] g[i][j] <= '9' by {
            if i == g.len() - 1 {
                assert(g[i] == tail);
            } else {
                assert(g[i] == segments_by(grouped(head), ',')[i]);
            }
        }
        assert forall|i: int| 1 <= i < g.len() implies (#[trigger] g[i]).len() == 3 by {
            if i == g.len() - 1 {
                assert(g[i] == tail);
            } else {
                assert(g[i] == segments_by(grouped(head), ',')[i]);
            }
        }
    }
}

proof fn lemma_grouped_digits(d: Seq<char>)
    requires
        forall|i: int| 0 <= i < d.len() ==> '0' <= #[trigger] d[i] <= '9',
    ensures
        without_commas(grouped(d)) == d,
    decreases d.len(),
{
    assert(!d.contains(',')) by {
        if d.contains(',') {
            let i = choose|i: int| 0 <= i < d.len() && d[i] == ',';
            assert('0' <= d[i] <= '9');
        }
    }
    if d.len() <= 3 {
        lemma_without_commas_none(d);
    } else {
        let head = d.take(d.len() - 3);
        let tail = d.skip(d.len() - 3);
        lemma_grouped_digits(head);
        lemma_without_commas_concat(grouped(head) + seq![','], tail);
        lemma_without_commas_concat(grouped(head), seq![',']);
        assert(seq![','].drop_last() =~= Seq::<char>::empty());
        reveal_with_fuel(without_commas, 2);
        assert(without_commas(seq![',']) =~= Seq::<char>::empty());
        assert(!tail.contains(',')) by {
            if tail.contains(',') {
                let i = choose|i: int| 0 <= i < tail.len() && tail[i] == ',';
                assert(tail[i] == d[i + d.len() - 3]);
            }
        }
        lemma_without_commas_none(tail);
        assert(head + tail =~= d);
    }
}

/// The header, content and end of one file in Markdown.
pub open spec fn markdown_section(f: FileContent) -> Seq<char> {
    "# "@ + f.path@ + " ("@ + description_text(f.slice_info) + ")\n\n"@ + f.content@ + "\n"@
}

/// The separator between Markdown sections.
pub open spec fn markdown_separator() -> Seq<char> {
    "\n---\n\n"@
}

/// The Markdown sections of the files, separated by rules.
pub open spec fn markdown_body(files: Seq<FileContent>) -> Seq<char>
    decreases files.len(),
{
    if files.len() == 0 {
        Seq::empty()
    } else {
        let prev = markdown_body(files.drop_last());
        (if files.len() > 1 {
            prev + markdown_separator()
        } else {
            prev
        }) + markdown_section(files.last())
    }
}

/// Markdown output, with the token count as a last section when asked for.
pub open spec fn markdown_text(files: Seq<FileContent>, tokens: bool) -> Seq<char> {
    let body = markdown_body(files);
    if tokens {
        (if body.len() > 0 {
            body + markdown_separator()
        } else {
            body
        }) + "# Tokens: "@ + number_text(total_tokens(files)) + "\n"@
    } else {
        body
    }
}

/// The contents, each followed by a newline.
pub open spec fn plain_body(files: Seq<FileContent>) -> Seq<char>
    decreases files.len(),
{
    if files.len() == 0 {
        Seq::empty()
    } else {
        plain_body(files.drop_last()) + files.last().content@ + "\n"@
    }
}

/// Plain output, with a token count line when asked for.
pub open spec fn plain_text(files: Seq<FileContent>, tokens: bool) -> Seq<char> {
    if tokens {
        plain_body(files) + "Tokens: "@ + number_text(total_tokens(files)) + "\n"@
    } else {
        plain_body(files)
    }
}

/// One file as a JSON object inside the `files` array.
pub open spec fn json_file(f: FileContent) -> Seq<char> {
    "    {\n      \"path\": "@ + json_quote(f.path@) + ",\n      \"slice\": "@ + json_quote(
        description_text(f.slice_info),
    ) + ",\n      \"content\": "@ + json_quote(f.content@) + "\n    }"@
}

/// The objects of the files, separated by commas and newlines.
pub open spec fn json_items(files: Seq<FileContent>) -> Seq<char>
    decreases files.len(),
{
    if files.len() == 0 {
        Seq::empty()
    } else if files.len() == 1 {
        json_file(files[0])
    } else {
        json_items(files.drop_last()) + ",\n"@ + json_file(files.last())
    }
}

/// The `files` array.
pub open spec fn json_array(files: Seq<FileContent>) -> Seq<char> {
    if files.len() == 0 {
        "[]"@
    } else {
        "[\n"@ + json_items(files) + "\n  ]"@
    }
}

/// JSON output, pretty-printed with two-space indents: a `files` array of objects with
/// `path`, `slice` and `content`, and a `tokens` count when asked for.
pub open spec fn json_text(files: Seq<FileContent>, tokens: bool) -> Seq<char> {
    "{\n  \"files\": "@ + json_array(files) + (if tokens {
        ",\n  \"tokens\": "@ + decimal(total_tokens(files))
    } else {
        Seq::empty()
    }) + "\n}"@
}

/// The output for a format.
pub open spec fn format_text(format: Format, files: Seq<FileContent>, tokens: bool) -> Seq<char> {
    match format {
        Format::Markdown => markdown_text(files, tokens),
        Format::Plain => plain_text(files, tokens),
        Format::Json => json_text(files, tokens),
    }
}

/// The Markdown section of each file.
pub open spec fn markdown_sections(files: Seq<FileContent>) -> Seq<Seq<char>> {
    files.map_values(|f: FileContent| markdown_section(f))
}

/// The JSON object of each file.
pub open spec fn json_objects(files: Seq<FileContent>) -> Seq<Seq<char>> {
    files.map_values(|f: FileContent| json_file(f))
}

proof fn lemma_markdown_body_join(files: Seq<FileContent>)
    ensures
        markdown_body(files) == join(markdown_sections(files), "\n---\n\n"@),
    decreases files.len(),
{
    if files.len() > 0 {
        lemma_markdown_body_join(files.drop_last());
        assert(markdown_sections(files.drop_last()) =~= markdown_sections(files).drop_last());
        if files.len() == 1 {
            assert(markdown_body(files.drop_last()) =~= Seq::<char>::empty());
            assert(files.last() == files[0]);
        }
    }
}

proof fn lemma_json_items_join(files: Seq<FileContent>)
    ensures
        json_items(files) == join(json_objects(files), ",\n"@),
    decreases files.len(),
{
    if files.len() > 1 {
        lemma_json_items_join(files.drop_last());
        assert(json_objects(files.drop_last()) =~= json_objects(files).drop_last());
    }
}

/// Markdown output without a token count is the sections of the files joined by the
/// rule `\n---\n\n`, so that each section after the first comes right after a rule.
pub proof fn lemma_markdown_sections_joined(files: Seq<FileContent>)
    ensures
        format_text(Format::Markdown, files, false) == join(markdown_sections(files), "\n---\n\n"@),
        forall|k: int|
            #![trigger files[k]]
            0 < k < files.len() ==> {
                let out = format_text(Format::Markdown, files, false);
                let p = join(markdown_sections(files).take(k), "\n---\n\n"@).len() as int;
                out.subrange(p, p + "\n---\n\n"@.len() + markdown_section(files[k]).len())
                    == "\n---\n\n"@ + markdown_section(files[k])
            },
{
    lemma_markdown_body_join(files);
    let sections = markdown_sections(files);
    assert forall|k: int| #![trigger files[k]] 0 < k < files.len() implies {
        let out = format_text(Format::Markdown, files, false);
        let p = join(sections.take(k), "\n---\n\n"@).len() as int;
        out.subrange(p, p + "\n---\n\n"@.len() + markdown_section(files[k]).len())
            == "\n---\n\n"@ + markdown_section(files[k])
    } by {
        lemma_join_part_follows_sep(sections, "\n---\n\n"@, k);
        assert(sections[k] == markdown_section(files[k]));
    }
}

/// What follows the `files` array in JSON output.
pub open spec fn json_rest(files: Seq<FileContent>, tokens: bool) -> Seq<char> {
    (if tokens {
        ",\n  \"tokens\": "@ + decimal(total_tokens(files))
    } else {
        Seq::empty()
    }) + "\n}"@
}

proof fn lemma_json_shape(files: Seq<FileContent>, tokens: bool)
    ensures
        files.len() == 0 ==> format_text(Format::Json, files, tokens) == "{\n  \"files\": "@ + "[]"@
            + json_rest(files, tokens),
        files.len() > 0 ==> format_text(Format::Json, files, tokens) == ("{\n  \"files\": "@ + "[\n"@)
            + (join(json_objects(files), ",\n"@) + ("\n  ]"@ + json_rest(files, tokens))),
{
    lemma_json_items_join(files);
    let j = json_items(files);
    if files.len() > 0 {
        assert(json_array(files) == "[\n"@ + j + "\n  ]"@);
        assert(format_text(Format::Json, files, tokens) =~= ("{\n  \"files\": "@ + "[\n"@) + (j + (
        "\n  ]"@ + json_rest(files, tokens))));
    } else {
        assert(format_text(Format::Json, files, tokens) =~= "{\n  \"files\": "@ + "[]"@ + json_rest(
            files,
            tokens,
        ));
    }
}

proof fn lemma_json_object_follows(files: Seq<FileContent>, tokens: bool, k: int)
    requires
        0 < k < files.len(),
    ensures
        ({
            let out = format_text(Format::Json, files, tokens);
            let p = (("{\n  \"files\": "@ + "[\n"@).len() + join(json_objects(files).take(k), ",\n"@).len()) as int;
            out.subrange(p, p + ",\n"@.len() + json_file(files[k]).len()) == ",\n"@ + json_file(files[k])
        }),
{
    let objects = json_objects(files);
    lemma_json_shape(files, tokens);
    lemma_join_part_follows_sep(objects, ",\n"@, k);
    assert(objects[k] == json_file(files[k]));
    let out = format_text(Format::Json, files, tokens);
    let head = "{\n  \"files\": "@ + "[\n"@;
    let j = join(objects, ",\n"@);
    let tail = "\n  ]"@ + json_rest(files, tokens);
    let q = join(objects.take(k), ",\n"@).len() as int;
    let m = (",\n"@.len() + json_file(files[k]).len()) as int;
    assert(out == head + (j + tail));
    assert(j.subrange(q, q + m) == ",\n"@ + json_file(files[k]));
    assert((head + (j + tail)).subrange(head.len() + q, head.len() + q + m) =~= j.subrange(q, q + m));
}

/// JSON output holds the objects of the files joined by `,\n` inside the `files` array,
/// so that each object after the first comes right after `,\n`.
pub proof fn lemma_json_objects_joined(files: Seq<FileContent>, tokens: bool)
    ensures
        files.len() == 0 ==> format_text(Format::Json, files, tokens) == "{\n  \"files\": "@ + "[]"@
            + json_rest(files, tokens),
        files.len() > 0 ==> format_text(Format::Json, files, tokens) == "{\n  \"files\": "@ + "[\n"@
            + join(json_objects(files), ",\n"@) + "\n  ]"@ + json_rest(files, tokens),
        forall|k: int|
            #![trigger files[k]]
            0 < k < files.len() ==> {
                let out = format_text(Format::Json, files, tokens);
                let p = (("{\n  \"files\": "@ + "[\n"@).len() + join(json_objects(files).take(k), ",\n"@).len()) as int;
                out.subrange(p, p + ",\n"@.len() + json_file(files[k]).len()) == ",\n"@ + json_file(
                    files[k],
                )
            },
{
    lemma_json_shape(files, tokens);
    if files.len() > 0 {
        let tail = "\n  ]"@ + json_rest(files, tokens);
        let j = join(json_objects(files), ",\n"@);
        assert(("{\n  \"files\": "@ + "[\n"@) + (j + tail) =~= "{\n  \"files\": "@ + "[\n"@ + j
            + "\n  ]"@ + json_rest(files, tokens));
    }
    assert forall|k: int| #![trigger files[k]] 0 < k < files.len() implies {
        let out = format_text(Format::Json, files, tokens);
        let p = (("{\n  \"files\": "@ + "[\n"@).len() + join(json_objects(files).take(k), ",\n"@).len()) as int;
        out.subrange(p, p + ",\n"@.len() + json_file(files[k]).len()) == ",\n"@ + json_file(files[k])
    } by {
        lemma_json_object_follows(files, tokens, k);
    }
}

impl Formatter {
    /// The output format.
    pub closed spec fn output_format(&self) -> Format {
        self.format
    }

    /// Whether a token count is appended.
    pub closed spec fn tokens_included(&self) -> bool {
        self.include_tokens
    }

    /// Creates a new `Formatter` with the specified output format, without token counts.
    pub fn new(format: Format) -> (out: Self)
        ensures
            out.output_format() == format,
            !out.tokens_included(),
    {
        Formatter { format, include_tokens: false }
    }

    /// Enables or disables token count output.
    pub fn with_tokens(self, include_tokens: bool) -> (out: Self)
        ensures
            out.output_format() == self.output_format(),
            out.tokens_included() == include_tokens,
    {
        let mut out = self;
        out.include_tokens = include_tokens;
        out
    }

    /// Formats file contents into a single output string.
    pub fn format(&self, files: &[FileContent]) -> (out: Result<String, FormatError>)
        requires
            self.tokens_included() ==> total_chars(files@) <= usize::MAX,
        ensures
            out matches Ok(s) && s@ == format_text(
                self.output_format(),
                files@,
                self.tokens_included(),
            ),
    {
        match self.format {
            Format::Markdown => Ok(self.format_markdown(files)),
            Format::Plain => Ok(self.format_plain(files)),
            Format::Json => self.format_json(files),
        }
    }

    fn format_markdown(&self, files: &[FileContent]) -> (out: String)
        requires
            self.include_tokens ==> total_chars(files@) <= usize::MAX,
        ensures
            out@ == markdown_text(files@, self.include_tokens),
    {
        let mut output = String::new();
        let mut i: usize = 0;
        while i < files.len()
            invariant
                i <= files@.len(),
                output@ == markdown_body(files@.take(i as int)),
            decreases files@.len() - i,
        {
            proof {
                assert(files@.take(i + 1).drop_last() =~= files@.take(i as int));
            }
            if i > 0 {
                output.append("\n---\n\n");
            }
            output.append("# ");
            output.append(files[i].path.as_str());
            output.append(" (");
            let description = files[i].slice_info.description();
            output.append(description.as_str());
            output.append(")\n\n");
            output.append(files[i].content.as_str());
            output.push('\n');
            proof {
                reveal_strlit("\n");
                assert(output@ =~= markdown_body(files@.take(i + 1)));
            }
            i = i + 1;
        }
        proof {
            assert(files@.take(files@.len() as int) =~= files@);
        }
        if self.include_tokens {
            if !output.as_str().is_empty() {
                output.append("\n---\n\n");
            }
            output.append("# Tokens: ");
            let count = count_tokens(files);
            let number = format_number(count);
            output.append(number.as_str());
            output.push('\n');
            proof {
                reveal_strlit("\n");
            }
        }
        output
    }

    fn format_plain(&self, files: &[FileContent]) -> (out: String)
        requires
            self.include_tokens ==> total_chars(files@) <= usize::MAX,
        ensures
            out@ == plain_text(files@, self.include_tokens),
    {
        let mut output = String::new();
        let mut i: usize = 0;
        while i < files.len()
            invariant
                i <= files@.len(),
                output@ == plain_body(files@.take(i as int)),
            decreases files@.len() - i,
        {
            proof {
                assert(files@.take(i + 1).drop_last() =~= files@.take(i as int));
            }
            output.append(files[i].content.as_str());
            output.push('\n');
            proof {
                reveal_strlit("\n");
                assert(output@ =~= plain_body(files@.take(i + 1)));
            }
            i = i + 1;
        }
        proof {
            assert(files@.take(files@.len() as int) =~= files@);
        }
        if self.include_tokens {
            output.append("Tokens: ");
            let count = count_tokens(files);
            let number = format_number(count);
            output.append(number.as_str());
            output.push('\n');
            proof {
                reveal_strlit("\n");
            }
        }
        output
    }

    fn format_json(&self, files: &[FileContent]) -> (out: Result<String, FormatError>)
        requires
            self.include_tokens ==> total_chars(files@) <= usize::MAX,
        ensures
            out matches Ok(s) && s@ == json_text(files@, self.include_tokens),
    {
        let mut output = String::from_str("{\n  \"files\": ");
        if files.len() == 0 {
            output.append("[]");
        } else {
            output.append("[\n");
            let mut i: usize = 0;
            while i < files.len()
                invariant
                    0 < files@.len(),
                    i <= files@.len(),
                    output@ == "{\n  \"files\": "@ + "[\n"@ + json_items(files@.take(i as int)),
                decreases files@.len() - i,
            {
                proof {
                    assert(files@.take(i + 1).drop_last() =~= files@.take(i as int));
                }
                if i > 0 {
                    output.append(",\n");
                }
                let item = match json_object(&files[i]) {
                    Ok(item) => item,
                    Err(e) => return Err(e),
                };
                output.append(item.as_str());
                proof {
                    if i == 0 {
                        assert(files@.take(1)[0] == files@[0]);
                    }
                    assert(output@ =~= "{\n  \"files\": "@ + "[\n"@ + json_items(files@.take(i + 1)));
                }
                i = i + 1;
            }
            proof {
                assert(files@.take(files@.len() as int) =~= files@);
            }
            output.append("\n  ]");
        }
        if self.include_tokens {
            output.append(",\n  \"tokens\": ");
            let count = count_tokens(files);
            let digits = decimal_chars(count);
            push_chars(&mut output, digits.as_slice());
        }
        output.append("\n}");
        proof {
            assert(output@ =~= json_text(files@, self.include_tokens));
        }
        Ok(output)
    }
}

/// One file as an object of the `files` array.
fn json_object(f: &FileContent) -> (out: Result<String, FormatError>)
    ensures
        out matches Ok(s) && s@ == json_file(*f),
{
    let path = match quote_json(f.path.as_str()) {
        Ok(q) => q,
        Err(_) => return Err(FormatError::Json),
    };
    let description = f.slice_info.description();
    let slice = match quote_json(description.as_str()) {
        Ok(q) => q,
        Err(_) => return Err(FormatError::Json),
    };
    let content = match quote_json(f.content.as_str()) {
        Ok(q) => q,
        Err(_) => return Err(FormatError::Json),
    };
    let mut out = String::from_str("    {\n      \"path\": ");
    out.append(path.as_str());
    out.append(",\n      \"slice\": ");
    out.append(slice.as_str());
    out.append(",\n      \"content\": ");
    out.append(content.as_str());
    out.append("\n    }");
    Ok(out)
}

/// Counts the estimated tokens of a text whose characters `word` marks as word characters
/// or not.
pub fn count_class_tokens(text: &[char], word: &[bool]) -> (count: usize)
    requires
        word@.len() == text@.len(),
    ensures
        count == class_tokens(text@, word@),
{
    let mut count: usize = 0;
    let mut i: usize = 0;
    while i < text.len()
        invariant
            i <= text@.len(),
            word@.len() == text@.len(),
            count == class_tokens(text@.take(i as int), word@.take(i as int)),
        decreases text@.len() - i,
    {
        proof {
            assert(text@.take(i + 1).drop_last() =~= text@.take(i as int));
            assert(word@.take(i + 1).drop_last() =~= word@.take(i as int));
            lemma_class_tokens_at_most_chars(text@.take(i as int), word@.take(i as int));
        }
        if word[i] {
            if i == 0 || !word[i - 1] {
                count = count + 1;
            }
        } else if !is_whitespace(text[i]) {
            count = count + 1;
        }
        i = i + 1;
    }
    proof {
        assert(text@.take(text@.len() as int) =~= text@);
        assert(word@.take(word@.len() as int) =~= word@);
    }
    count
}

/// Counts the estimated tokens of a text.
fn count_text_tokens(text: &str) -> (count: usize)
    ensures
        count == text_tokens(text@),
{
    let cs = chars_of(text);
    let mut word: Vec<bool> = Vec::new();
    let mut i: usize = 0;
    while i < cs.len()
        invariant
            i <= cs@.len(),
            word@ == word_classes(cs@.take(i as int)),
        decreases cs@.len() - i,
    {
        let ch = cs[i];
        let is_word = is_alphanumeric(ch) || ch == '_';
        word.push(is_word);
        proof {
            assert(word_classes(cs@.take(i + 1)) =~= word_classes(cs@.take(i as int)).push(is_word));
        }
        i = i + 1;
    }
    proof {
        assert(cs@.take(cs@.len() as int) =~= cs@);
    }
    count_class_tokens(cs.as_slice(), word.as_slice())
}

/// Counts the estimated tokens of all files' contents.
fn count_tokens(files: &[FileContent]) -> (count: usize)
    requires
        total_chars(files@) <= usize::MAX,
    ensures
        count == total_tokens(files@),
{
    let mut count: usize = 0;
    let mut i: usize = 0;
    while i < files.len()
        invariant
            i <= files@.len(),
            count == total_tokens(files@.take(i as int)),
            total_chars(files@) <= usize::MAX,
        decreases files@.len() - i,
    {
        proof {
            assert(files@.take(i + 1).drop_last() =~= files@.take(i as int));
            lemma_total_tokens_at_most_chars(files@.take(i + 1));
            lemma_total_chars_prefix(files@, i + 1);
        }
        let n = count_text_tokens(files[i].content.as_str());
        count = count + n;
        i = i + 1;
    }
    proof {
        assert(files@.take(files@.len() as int) =~= files@);
    }
    count
}

proof fn lemma_total_chars_prefix(files: Seq<FileContent>, i: int)
    requires
        0 <= i <= files.len(),
    ensures
        total_chars(files.take(i)) <= total_chars(files),
    decreases files.len() - i,
{
    if i < files.len() {
        lemma_total_chars_prefix(files, i + 1);
        assert(files.take(i + 1).drop_last() =~= files.take(i));
    } else {
        assert(files.take(i) =~= files);
    }
}

/// Digits grouped in threes from the right.
fn group_digits(d: &[char]) -> (out: Vec<char>)
    ensures
        out@ == grouped(d@),
    decreases d@.len(),
{
    let len = d.len();
    if len <= 3 {
        let mut out: Vec<char> = Vec::new();
        crate::text::append_chars(&mut out, d);
        proof {
            assert(out@ =~= d@);
        }
        out
    } else {
        let head = vstd::slice::slice_subrange(d, 0, len - 3);
        let tail = vstd::slice::slice_subrange(d, len - 3, len);
        proof {
            assert(head@ =~= d@.take(len - 3));
            assert(tail@ =~= d@.skip(len - 3));
        }
        let mut out = group_digits(head);
        out.push(',');
        crate::text::append_chars(&mut out, tail);
        proof {
            assert(out@ =~= grouped(d@));
        }
        out
    }
}

/// A number with its digits grouped in threes by commas, such as `1,523`.
pub fn format_number(n: usize) -> (out: String)
    ensures
        out@ == number_text(n as nat),
{
    let digits = decimal_chars(n);
    let grouped_digits = group_digits(digits.as_slice());
    crate::text::string_from(grouped_digits.as_slice())
}

/// The output format a configured default names.
pub open spec fn format_of_default(format: DefaultFormat) -> Format {
    match format {
        DefaultFormat::Md => Format::Markdown,
        DefaultFormat::Plain => Format::Plain,
        DefaultFormat::Json => Format::Json,
    }
}

impl vstd::std_specs::convert::FromSpecImpl<DefaultFormat> for Format {
    open spec fn obeys_from_spec() -> bool {
        true
    }

    open spec fn from_spec(v: DefaultFormat) -> Format {
        format_of_default(v)
    }
}

impl From<DefaultFormat> for Format {
    fn from(format: DefaultFormat) -> (out: Format) {
        match format {
            DefaultFormat::Md => Format::Markdown,
            DefaultFormat::Plain => Format::Plain,
            DefaultFormat::Json => Format::Json,
        }
    }
}

} // verus!
