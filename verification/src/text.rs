//! Character-level text utilities shared by the slicer, the parsers and the formatter.

use vstd::prelude::*;
use vstd::slice::slice_subrange;

verus! {

/// `String::push` appends one character.
pub assume_specification[ String::push ](string: &mut String, ch: char)
    ensures
        final(string)@ == old(string)@.push(ch),
;

/// The characters of `s`, in order.
pub fn chars_of(s: &str) -> (out: Vec<char>)
    ensures
        out@ == s@,
{
    let mut out: Vec<char> = Vec::new();
    for c in it: s.chars()
        invariant
            out@ == it.seq().take(it.index() as int),
    {
        out.push(c);
    }
    out
}

/// A `String` holding exactly the given characters.
pub fn string_from(cs: &[char]) -> (out: String)
    ensures
        out@ == cs@,
{
    let mut out = String::new();
    let mut i: usize = 0;
    while i < cs.len()
        invariant
            i <= cs@.len(),
            out@ == cs@.take(i as int),
        decreases cs@.len() - i,
    {
        out.push(cs[i]);
        i = i + 1;
    }
    proof {
        assert(cs@.take(cs@.len() as int) =~= cs@);
    }
    out
}

/// The pieces of `s` between separators `nl`: `k` separators give `k + 1` pieces.
pub open spec fn segments_by<A>(s: Seq<A>, nl: A) -> Seq<Seq<A>>
    decreases s.len(),
{
    if s.len() == 0 {
        seq![Seq::<A>::empty()]
    } else {
        let prev = segments_by(s.drop_last(), nl);
        if s.last() == nl {
            prev.push(Seq::<A>::empty())
        } else {
            prev.update(prev.len() - 1, prev.last().push(s.last()))
        }
    }
}

pub proof fn lemma_segments_nonempty<A>(s: Seq<A>, nl: A)
    ensures
        segments_by(s, nl).len() >= 1,
    decreases s.len(),
{
    if s.len() > 0 {
        lemma_segments_nonempty(s.drop_last(), nl);
    }
}

/// A line ended by a newline loses one carriage return `cr` before that newline.
pub open spec fn strip_last<A>(line: Seq<A>, cr: A) -> Seq<A> {
    if line.len() > 0 && line.last() == cr {
        line.drop_last()
    } else {
        line
    }
}

/// The lines of `s`: each line ends at a separator `nl` (which it does not contain) or at
/// the end of `s`; a line ended by a separator also drops one `cr` before it; when `s`
/// ends with a separator (or is empty) there is no empty last line.
pub open spec fn lines_by<A>(s: Seq<A>, nl: A, cr: A) -> Seq<Seq<A>> {
    let segs = segments_by(s, nl);
    let body = Seq::new((segs.len() - 1) as nat, |j: int| strip_last(segs[j], cr));
    if segs.last().len() == 0 {
        body
    } else {
        body.push(segs.last())
    }
}

/// The lines of a text as `str::lines` yields them.
pub open spec fn lines_of(s: Seq<char>) -> Seq<Seq<char>> {
    lines_by(s, '\n', '\r')
}

/// The lines of a byte sequence as `BufRead::lines` yields them, before decoding.
pub open spec fn byte_lines(b: Seq<u8>) -> Seq<Seq<u8>> {
    lines_by(b, 10u8, 13u8)
}

/// The character sequences held by a vector of character vectors.
pub open spec fn views(v: Seq<Vec<char>>) -> Seq<Seq<char>> {
    v.map_values(|l: Vec<char>| l@)
}

/// The byte sequences held by a vector of byte vectors.
pub open spec fn byte_views(v: Seq<Vec<u8>>) -> Seq<Seq<u8>> {
    v.map_values(|l: Vec<u8>| l@)
}

/// The lines of a text, as `str::lines` splits it.
pub fn split_lines(cs: &[char]) -> (out: Vec<Vec<char>>)
    ensures
        views(out@) == lines_of(cs@),
{
    let mut done: Vec<Vec<char>> = Vec::new();
    let mut cur: Vec<char> = Vec::new();
    let mut i: usize = 0;
    while i < cs.len()
        invariant
            i <= cs@.len(),
            segments_by(cs@.take(i as int), '\n').len() == done@.len() + 1,
            forall|j: int|
                0 <= j < done@.len() ==> #[trigger] done@[j]@ == strip_last(
                    segments_by(cs@.take(i as int), '\n')[j],
                    '\r',
                ),
            cur@ == segments_by(cs@.take(i as int), '\n').last(),
        decreases cs@.len() - i,
    {
        let ghost pre = cs@.take(i as int);
        let ghost next = cs@.take(i + 1);
        proof {
            assert(next.drop_last() =~= pre);
            lemma_segments_nonempty(pre, '\n');
        }
        let c = cs[i];
        if c == '\n' {
            let line = strip_cr_vec(cur);
            done.push(line);
            cur = Vec::new();
        } else {
            cur.push(c);
        }
        i = i + 1;
    }
    proof {
        assert(cs@.take(cs@.len() as int) =~= cs@);
    }
    if cur.len() > 0 {
        done.push(cur);
    }
    proof {
        assert(views(done@) =~= lines_of(cs@));
    }
    done
}

/// Drops one carriage return at the end of a line.
fn strip_cr_vec(line: Vec<char>) -> (out: Vec<char>)
    ensures
        out@ == strip_last(line@, '\r'),
{
    let mut line = line;
    if line.len() > 0 && line[line.len() - 1] == '\r' {
        line.pop();
    }
    line
}

/// The lines of a byte sequence, as `BufRead::lines` splits it before decoding.
pub fn split_byte_lines(cs: &[u8]) -> (out: Vec<Vec<u8>>)
    ensures
        byte_views(out@) == byte_lines(cs@),
{
    let mut done: Vec<Vec<u8>> = Vec::new();
    let mut cur: Vec<u8> = Vec::new();
    let mut i: usize = 0;
    while i < cs.len()
        invariant
            i <= cs@.len(),
            segments_by(cs@.take(i as int), 10u8).len() == done@.len() + 1,
            forall|j: int|
                0 <= j < done@.len() ==> #[trigger] done@[j]@ == strip_last(
                    segments_by(cs@.take(i as int), 10u8)[j],
                    13u8,
                ),
            cur@ == segments_by(cs@.take(i as int), 10u8).last(),
        decreases cs@.len() - i,
    {
        let ghost pre = cs@.take(i as int);
        let ghost next = cs@.take(i + 1);
        proof {
            assert(next.drop_last() =~= pre);
            lemma_segments_nonempty(pre, 10u8);
        }
        let c = cs[i];
        if c == 10u8 {
            let line = strip_cr_bytes(cur);
            done.push(line);
            cur = Vec::new();
        } else {
            cur.push(c);
        }
        i = i + 1;
    }
    proof {
        assert(cs@.take(cs@.len() as int) =~= cs@);
    }
    if cur.len() > 0 {
        done.push(cur);
    }
    proof {
        assert(byte_views(done@) =~= byte_lines(cs@));
    }
    done
}

/// Drops one carriage-return byte at the end of a line.
fn strip_cr_bytes(line: Vec<u8>) -> (out: Vec<u8>)
    ensures
        out@ == strip_last(line@, 13u8),
{
    let mut line = line;
    if line.len() > 0 && line[line.len() - 1] == 13u8 {
        line.pop();
    }
    line
}

/// `parts` joined with `sep` between neighbours.
pub open spec fn join(parts: Seq<Seq<char>>, sep: Seq<char>) -> Seq<char>
    decreases parts.len(),
{
    if parts.len() == 0 {
        Seq::<char>::empty()
    } else if parts.len() == 1 {
        parts[0]
    } else {
        join(parts.drop_last(), sep) + sep + parts.last()
    }
}

/// Joining the first `a` parts, the separator, and the rest gives all the parts joined.
pub proof fn lemma_join_at(parts: Seq<Seq<char>>, sep: Seq<char>, a: int)
    requires
        0 < a < parts.len(),
    ensures
        join(parts.take(a), sep) + sep + join(parts.skip(a), sep) == join(parts, sep),
    decreases parts.len(),
{
    let dl = parts.drop_last();
    if a == parts.len() - 1 {
        assert(parts.take(a) =~= dl);
        assert(parts.skip(a) =~= seq![parts.last()]);
        assert(join(seq![parts.last()], sep) == parts.last());
    } else {
        lemma_join_at(dl, sep, a);
        assert(dl.take(a) =~= parts.take(a));
        assert(parts.skip(a).drop_last() =~= dl.skip(a));
        assert(parts.skip(a).last() == parts.last());
        let h = join(parts.take(a), sep);
        let t = join(dl.skip(a), sep);
        assert(h + sep + (t + sep + parts.last()) =~= (h + sep + t) + sep + parts.last());
    }
}

/// In parts joined with a separator, each part after the first comes right after a
/// separator: part `k` stands at the end of the first `k` parts joined and a separator.
pub proof fn lemma_join_part_follows_sep(parts: Seq<Seq<char>>, sep: Seq<char>, k: int)
    requires
        0 < k < parts.len(),
    ensures
        ({
            let p = join(parts.take(k), sep).len() as int;
            let j = join(parts, sep);
            &&& j.take(p) == join(parts.take(k), sep)
            &&& p + sep.len() + parts[k].len() <= j.len()
            &&& j.subrange(p, p + sep.len() + parts[k].len()) == sep + parts[k]
        }),
{
    lemma_join_at(parts, sep, k);
    let rest = parts.skip(k);
    let head = join(parts.take(k), sep);
    let j = join(parts, sep);
    if rest.len() == 1 {
        assert(join(rest, sep) == rest[0]);
        assert(j =~= head + (sep + parts[k]));
    } else {
        lemma_join_at(rest, sep, 1);
        assert(rest.take(1) =~= seq![parts[k]]);
        assert(join(seq![parts[k]], sep) == parts[k]);
        let tail = sep + join(rest.skip(1), sep);
        assert(j =~= head + (sep + parts[k]) + tail);
    }
    let p = head.len() as int;
    assert(j.take(p) =~= head);
    assert(j.subrange(p, p + sep.len() + parts[k].len()) =~= sep + parts[k]);
}

/// The parts joined with `sep` between neighbours.
pub fn join_with(parts: &[Vec<char>], sep: &[char]) -> (out: Vec<char>)
    ensures
        out@ == join(views(parts@), sep@),
{
    let mut out: Vec<char> = Vec::new();
    let mut i: usize = 0;
    while i < parts.len()
        invariant
            i <= parts@.len(),
            out@ == join(views(parts@).take(i as int), sep@),
        decreases parts@.len() - i,
    {
        let ghost before = out@;
        if i > 0 {
            append_chars(&mut out, sep);
        }
        append_chars(&mut out, parts[i].as_slice());
        proof {
            assert(views(parts@).take(i + 1).drop_last() =~= views(parts@).take(i as int));
            if i == 0 {
                assert(out@ =~= views(parts@).take(1)[0]);
            }
        }
        i = i + 1;
    }
    proof {
        assert(views(parts@).take(parts@.len() as int) =~= views(parts@));
    }
    out
}

/// Appends the characters of `tail` to `out`.
pub fn append_chars(out: &mut Vec<char>, tail: &[char])
    ensures
        final(out)@ == old(out)@ + tail@,
{
    let mut i: usize = 0;
    while i < tail.len()
        invariant
            i <= tail@.len(),
            out@ == old(out)@ + tail@.take(i as int),
        decreases tail@.len() - i,
    {
        out.push(tail[i]);
        i = i + 1;
        proof {
            assert(old(out)@ + tail@.take(i as int) =~= (old(out)@ + tail@.take(i - 1)).push(tail@[i - 1]));
        }
    }
    proof {
        assert(tail@.take(tail@.len() as int) =~= tail@);
    }
}

/// The character of a decimal digit.
pub open spec fn digit_char(d: nat) -> char {
    (d + 48) as char
}

/// The decimal numeral of `n`, most significant digit first, without leading zeros.
pub open spec fn decimal(n: nat) -> Seq<char>
    decreases n,
{
    if n < 10 {
        seq![digit_char(n)]
    } else {
        decimal(n / 10).push(digit_char(n % 10))
    }
}

/// The decimal numeral of `n`.
pub fn decimal_chars(n: usize) -> (out: Vec<char>)
    ensures
        out@ == decimal(n as nat),
    decreases n,
{
    let d: u8 = (n % 10) as u8;
    let c: char = (d + 48u8) as char;
    if n < 10 {
        let mut out: Vec<char> = Vec::new();
        out.push(c);
        out
    } else {
        let mut out = decimal_chars(n / 10);
        out.push(c);
        out
    }
}

/// A fresh vector with the same characters.
pub fn copy_chars(cs: &[char]) -> (out: Vec<char>)
    ensures
        out@ == cs@,
{
    let mut out: Vec<char> = Vec::new();
    append_chars(&mut out, cs);
    proof {
        assert(out@ =~= cs@);
    }
    out
}

/// Appends the characters `cs` to `s`.
pub fn push_chars(s: &mut String, cs: &[char])
    ensures
        final(s)@ == old(s)@ + cs@,
{
    let mut i: usize = 0;
    while i < cs.len()
        invariant
            i <= cs@.len(),
            s@ == old(s)@ + cs@.take(i as int),
        decreases cs@.len() - i,
    {
        s.push(cs[i]);
        i = i + 1;
        proof {
            assert(old(s)@ + cs@.take(i as int) =~= (old(s)@ + cs@.take(i - 1)).push(cs@[i - 1]));
        }
    }
    proof {
        assert(cs@.take(cs@.len() as int) =~= cs@);
    }
}

/// The Unicode `White_Space` property, which `char::is_whitespace` tests.
pub open spec fn is_white_space(c: char) -> bool {
    let u = c as u32;
    ||| 9 <= u <= 13
    ||| u == 32
    ||| u == 0x85
    ||| u == 0xA0
    ||| u == 0x1680
    ||| 0x2000 <= u <= 0x200A
    ||| u == 0x2028
    ||| u == 0x2029
    ||| u == 0x202F
    ||| u == 0x205F
    ||| u == 0x3000
}

/// Whether `c` is white space, as `char::is_whitespace` decides.
pub fn is_whitespace(c: char) -> (out: bool)
    ensures
        out == is_white_space(c),
{
    let u = c as u32;
    (9 <= u && u <= 13) || u == 32 || u == 0x85 || u == 0xA0 || u == 0x1680 || (0x2000 <= u && u
        <= 0x200A) || u == 0x2028 || u == 0x2029 || u == 0x202F || u == 0x205F || u == 0x3000
}

/// `s` without leading white space.
pub open spec fn trim_start(s: Seq<char>) -> Seq<char>
    decreases s.len(),
{
    if s.len() > 0 && is_white_space(s[0]) {
        trim_start(s.drop_first())
    } else {
        s
    }
}

/// `s` without trailing white space.
pub open spec fn trim_end(s: Seq<char>) -> Seq<char>
    decreases s.len(),
{
    if s.len() > 0 && is_white_space(s.last()) {
        trim_end(s.drop_last())
    } else {
        s
    }
}

/// `s` without leading and trailing white space, as `str::trim` gives it.
pub open spec fn trim(s: Seq<char>) -> Seq<char> {
    trim_end(trim_start(s))
}

/// The characters of `cs` without leading and trailing white space.
pub fn trimmed(cs: &[char]) -> (out: Vec<char>)
    ensures
        out@ == trim(cs@),
{
    let mut lo: usize = 0;
    proof {
        assert(cs@.skip(0) =~= cs@);
    }
    while lo < cs.len() && is_whitespace(cs[lo])
        invariant
            lo <= cs@.len(),
            trim_start(cs@.skip(lo as int)) == trim_start(cs@),
        decreases cs@.len() - lo,
    {
        proof {
            assert(cs@.skip(lo as int).drop_first() =~= cs@.skip(lo + 1));
        }
        lo = lo + 1;
    }
    let mut hi: usize = cs.len();
    while hi > lo && is_whitespace(cs[hi - 1])
        invariant
            lo <= hi <= cs@.len(),
            trim_start(cs@) == cs@.skip(lo as int),
            trim_end(cs@.subrange(lo as int, hi as int)) == trim(cs@),
        decreases hi,
    {
        proof {
            assert(cs@.subrange(lo as int, hi as int).drop_last() =~= cs@.subrange(
                lo as int,
                hi - 1,
            ));
        }
        hi = hi - 1;
    }
    proof {
        if lo < cs@.len() {
            assert(!is_white_space(cs@.skip(lo as int)[0]));
        }
        assert(cs@.skip(lo as int) =~= cs@.subrange(lo as int, cs@.len() as int));
    }
    let out = copy_chars(slice_subrange(cs, lo, hi));
    out
}

/// The pieces of `s` between white-space characters.
pub open spec fn ws_pieces(s: Seq<char>) -> Seq<Seq<char>>
    decreases s.len(),
{
    if s.len() == 0 {
        seq![Seq::<char>::empty()]
    } else {
        let prev = ws_pieces(s.drop_last());
        if is_white_space(s.last()) {
            prev.push(Seq::<char>::empty())
        } else {
            prev.update(prev.len() - 1, prev.last().push(s.last()))
        }
    }
}

pub proof fn lemma_ws_pieces_nonempty(s: Seq<char>)
    ensures
        ws_pieces(s).len() >= 1,
    decreases s.len(),
{
    if s.len() > 0 {
        lemma_ws_pieces_nonempty(s.drop_last());
    }
}

/// The non-empty sequences among `ps`, in order.
pub open spec fn nonempty_only(ps: Seq<Seq<char>>) -> Seq<Seq<char>>
    decreases ps.len(),
{
    if ps.len() == 0 {
        Seq::empty()
    } else {
        let r = nonempty_only(ps.drop_last());
        if ps.last().len() > 0 {
            r.push(ps.last())
        } else {
            r
        }
    }
}

/// The words of `s`, as `str::split_whitespace` yields them: maximal runs of
/// characters that are not white space.
pub open spec fn words(s: Seq<char>) -> Seq<Seq<char>> {
    nonempty_only(ws_pieces(s))
}

/// The words of `cs`, split at white space.
pub fn split_words(cs: &[char]) -> (out: Vec<Vec<char>>)
    ensures
        views(out@) == words(cs@),
{
    let mut done: Vec<Vec<char>> = Vec::new();
    let mut cur: Vec<char> = Vec::new();
    let mut i: usize = 0;
    while i < cs.len()
        invariant
            i <= cs@.len(),
            views(done@) == nonempty_only(ws_pieces(cs@.take(i as int)).drop_last()),
            cur@ == ws_pieces(cs@.take(i as int)).last(),
        decreases cs@.len() - i,
    {
        let ghost pre = cs@.take(i as int);
        let ghost next = cs@.take(i + 1);
        proof {
            assert(next.drop_last() =~= pre);
            lemma_ws_pieces_nonempty(pre);
        }
        let c = cs[i];
        if is_whitespace(c) {
            let ghost before = views(done@);
            if cur.len() > 0 {
                done.push(cur);
                proof {
                    assert(views(done@) =~= before.push(ws_pieces(pre).last()));
                }
            }
            cur = Vec::new();
            proof {
                assert(ws_pieces(next).drop_last() =~= ws_pieces(pre));
                assert(ws_pieces(pre) =~= ws_pieces(pre).drop_last().push(ws_pieces(pre).last()));
            }
        } else {
            cur.push(c);
            proof {
                assert(ws_pieces(next).drop_last() =~= ws_pieces(pre).drop_last());
            }
        }
        i = i + 1;
    }
    proof {
        assert(cs@.take(cs@.len() as int) =~= cs@);
        lemma_ws_pieces_nonempty(cs@);
        assert(ws_pieces(cs@) =~= ws_pieces(cs@).drop_last().push(ws_pieces(cs@).last()));
    }
    if cur.len() > 0 {
        let ghost before = views(done@);
        done.push(cur);
        proof {
            assert(views(done@) =~= before.push(ws_pieces(cs@).last()));
        }
    }
    done
}

/// Whether `cs` holds exactly the characters of `lit`.
pub fn chars_eq(cs: &[char], lit: &str) -> (out: bool)
    ensures
        out == (cs@ == lit@),
{
    let other = chars_of(lit);
    if cs.len() != other.len() {
        return false;
    }
    let mut i: usize = 0;
    while i < cs.len()
        invariant
            i <= cs@.len(),
            cs@.len() == other@.len(),
            other@ == lit@,
            forall|j: int| 0 <= j < i ==> cs@[j] == other@[j],
        decreases cs@.len() - i,
    {
        if cs[i] != other[i] {
            return false;
        }
        i = i + 1;
    }
    proof {
        assert(cs@ =~= other@);
    }
    true
}

/// Whether `cs` begins with the characters of `lit`.
pub fn starts_with(cs: &[char], lit: &str) -> (out: bool)
    ensures
        out == (lit@.len() <= cs@.len() && cs@.take(lit@.len() as int) == lit@),
{
    let other = chars_of(lit);
    if cs.len() < other.len() {
        return false;
    }
    let head = slice_subrange(cs, 0, other.len());
    proof {
        assert(head@ =~= cs@.take(other@.len() as int));
    }
    chars_eq(head, lit)
}

/// The value of a numeral of decimal digits.
pub open spec fn digits_value(d: Seq<char>) -> nat
    decreases d.len(),
{
    if d.len() == 0 {
        0
    } else {
        digits_value(d.drop_last()) * 10 + ((d.last() as u32) - 48) as nat
    }
}

pub open spec fn is_digit(c: char) -> bool {
    '0' <= c <= '9'
}

/// A numeral without its optional leading `+`.
pub open spec fn unsigned_digits(s: Seq<char>) -> Seq<char> {
    if s.len() > 0 && s[0] == '+' {
        s.drop_first()
    } else {
        s
    }
}

/// What `str::parse::<usize>` accepts: an optional `+`, then at least one decimal
/// digit, for a value that fits in `usize`.
pub open spec fn parse_usize_result(s: Seq<char>) -> Option<usize> {
    let d = unsigned_digits(s);
    if d.len() > 0 && (forall|i: int| 0 <= i < d.len() ==> is_digit(#[trigger] d[i]))
        && digits_value(d) <= usize::MAX {
        Some(digits_value(d) as usize)
    } else {
        None
    }
}

proof fn lemma_digits_value_grows(d: Seq<char>, i: int)
    requires
        0 <= i <= d.len(),
        forall|j: int| 0 <= j < d.len() ==> is_digit(#[trigger] d[j]),
    ensures
        digits_value(d.take(i)) <= digits_value(d),
    decreases d.len() - i,
{
    if i < d.len() {
        lemma_digits_value_grows(d, i + 1);
        assert(d.take(i + 1).drop_last() =~= d.take(i));
    } else {
        assert(d.take(i) =~= d);
    }
}

/// A decimal numeral parsed as `str::parse::<usize>` parses it.
pub fn parse_usize(cs: &[char]) -> (out: Option<usize>)
    ensures
        out == parse_usize_result(cs@),
{
    let start: usize = if cs.len() > 0 && cs[0] == '+' {
        1
    } else {
        0
    };
    let d = slice_subrange(cs, start, cs.len());
    proof {
        if start == 1 {
            assert(d@ =~= cs@.drop_first());
        } else {
            assert(d@ =~= cs@);
        }
    }
    if d.len() == 0 {
        return None;
    }
    let mut i: usize = 0;
    while i < d.len()
        invariant
            i <= d@.len(),
            d@ == unsigned_digits(cs@),
            forall|j: int| 0 <= j < i ==> is_digit(#[trigger] d@[j]),
        decreases d@.len() - i,
    {
        if !(d[i] >= '0' && d[i] <= '9') {
            proof {
                assert(!is_digit(d@[i as int]));
            }
            return None;
        }
        i = i + 1;
    }
    let mut value: usize = 0;
    let mut k: usize = 0;
    while k < d.len()
        invariant
            k <= d@.len(),
            d@.len() > 0,
            d@ == unsigned_digits(cs@),
            forall|j: int| 0 <= j < d@.len() ==> is_digit(#[trigger] d@[j]),
            value == digits_value(d@.take(k as int)),
        decreases d@.len() - k,
    {
        let digit = (d[k] as u32 - 48) as usize;
        proof {
            assert(d@.take(k + 1).drop_last() =~= d@.take(k as int));
            assert(is_digit(d@[k as int]));
            assert(digits_value(d@.take(k + 1)) == value * 10 + digit);
        }
        match value.checked_mul(10) {
            Some(times) => match times.checked_add(digit) {
                Some(next) => {
                    value = next;
                },
                None => {
                    proof {
                        lemma_digits_value_grows(d@, k + 1);
                    }
                    return None;
                },
            },
            None => {
                proof {
                    lemma_digits_value_grows(d@, k + 1);
                }
                return None;
            },
        }
        k = k + 1;
    }
    proof {
        assert(d@.take(d@.len() as int) =~= d@);
    }
    Some(value)
}

} // verus!
