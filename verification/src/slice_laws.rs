//! What the slice modes give on well-formed text, stated over its characters.

use vstd::prelude::*;
use vstd::utf8::*;

use crate::decode::lossy_text;
use crate::slicer::{
    capped_bytes, decode_lines, head_lines_result, last_lines, min, newline, sat_sub,
    suffix_from, suffix_text_result, tail_chars_result, tail_lines_result, SliceError,
    SliceInfo, TAIL_READ_LIMIT,
};
use crate::text::{byte_lines, join, lemma_segments_nonempty, lines_of, segments_by, strip_last};

verus! {

/// Well-formed UTF-8 spends one to four bytes on each character.
pub proof fn lemma_decoded_length(b: Seq<u8>)
    requires
        valid_utf8(b),
    ensures
        decode_utf8(b).len() <= b.len() <= 4 * decode_utf8(b).len(),
    decreases b.len(),
{
    if b.len() > 0 {
        let rest = pop_first_scalar(b);
        assert(1 <= length_of_first_scalar(b) <= 4);
        assert(rest.len() == b.len() - length_of_first_scalar(b));
        lemma_decoded_length(rest);
    }
}

/// Among any four neighbouring bytes of well-formed UTF-8, one is not a continuation byte.
proof fn lemma_no_four_continuations(b: Seq<u8>, i: int)
    requires
        valid_utf8(b),
        0 <= i,
        i + 4 <= b.len(),
    ensures
        exists|j: int| i <= j < i + 4 && !is_continuation_byte(#[trigger] b[j]),
    decreases b.len(),
{
    let l = length_of_first_scalar(b);
    let rest = pop_first_scalar(b);
    assert(1 <= l <= 4);
    if i == 0 {
        assert(!is_continuation_byte(b[0]));
    } else if i >= l {
        assert(rest.len() == b.len() - l);
        lemma_no_four_continuations(rest, i - l);
        let j = choose|j: int| i - l <= j < i - l + 4 && !is_continuation_byte(#[trigger] rest[j]);
        assert(b[j + l] == rest[j]);
    } else {
        assert(rest.len() == b.len() - l);
        assert(rest.len() > 0);
        assert(valid_utf8(rest));
        reveal_with_fuel(valid_utf8, 2);
        assert(valid_first_scalar(rest));
        assert(b[l] == rest[0]);
        assert(!is_continuation_byte(b[l]));
    }
}

/// Bytes that start with a continuation byte are not well-formed UTF-8.
proof fn lemma_continuation_start_invalid(b: Seq<u8>)
    requires
        b.len() > 0,
        is_continuation_byte(b[0]),
    ensures
        !valid_utf8(b),
{
}

/// The search for a well-formed suffix stops at the first offset that gives one.
proof fn lemma_suffix_from_first_valid(buf: Seq<u8>, off: nat, max: nat, k: nat)
    requires
        off <= k < max,
        valid_utf8(buf.skip(k as int)),
        forall|j: int| off <= j < k ==> !valid_utf8(#[trigger] buf.skip(j)),
    ensures
        suffix_from(buf, off, max) == decode_utf8(buf.skip(k as int)),
    decreases k - off,
{
    if off < k {
        assert(!valid_utf8(buf.skip(off as int)));
        lemma_suffix_from_first_valid(buf, off + 1, max, k);
    }
}

/// On well-formed text, `TailChars(n)` gives the last `n` characters (all of them where
/// there are fewer), numbered by their place among all the characters of the file.
pub proof fn lemma_tail_chars_are_last_chars(b: Seq<u8>, n: nat)
    requires
        valid_utf8(b),
        n > 0,
    ensures
        ({
            let d = decode_utf8(b);
            let m = min(n as int, d.len() as int);
            tail_chars_result(b, n) == Ok::<(Seq<char>, SliceInfo), crate::slicer::SliceError>(
                (d.skip(d.len() - m), SliceInfo::Chars { start: (d.len() - m) as usize, end: d.len() as usize }),
            )
        }),
{
    let d = decode_utf8(b);
    let m = min(n as int, d.len() as int);
    lemma_decoded_length(b);
    if b.len() == 0 {
        assert(d.skip(0) =~= d);
        return;
    }
    let k = capped_bytes(n, b.len());
    let sp = b.len() - k;
    let buf = b.subrange(sp, b.len() as int);
    assert(lossy_text(b) == d);
    if sp == 0 {
        assert(buf =~= b);
        assert(suffix_text_result(buf, false) == d);
        return;
    }
    assert(k == 4 * n);
    assert(buf.len() == 4 * n);
    lemma_no_four_continuations(b, sp);
    let off: int = if !is_continuation_byte(b[sp]) {
        0
    } else if !is_continuation_byte(b[sp + 1]) {
        1
    } else if !is_continuation_byte(b[sp + 2]) {
        2
    } else {
        3
    };
    assert(!is_continuation_byte(b[sp + off]));
    is_char_boundary_iff_not_is_continuation_byte(b, sp + off);
    valid_utf8_split(b, sp + off);
    decode_utf8_split(b, sp + off);
    let tail = b.subrange(sp + off, b.len() as int);
    assert(buf.skip(off) =~= tail);
    assert forall|j: int| 0 <= j < off implies !valid_utf8(#[trigger] buf.skip(j)) by {
        assert(buf.skip(j)[0] == b[sp + j]);
        lemma_continuation_start_invalid(buf.skip(j));
    }
    lemma_suffix_from_first_valid(buf, 0, 4, off as nat);
    let t = decode_utf8(tail);
    assert(suffix_text_result(buf, true) == t);
    lemma_decoded_length(tail);
    assert(t.len() >= n);
    let front = decode_utf8(b.subrange(0, sp + off));
    assert(d == front + t);
    assert(t.skip(t.len() - n) =~= d.skip(d.len() - n));
}

/// Encoding a concatenation encodes each part in turn.
proof fn lemma_encode_concat(x: Seq<char>, y: Seq<char>)
    ensures
        encode_utf8(x + y) == encode_utf8(x) + encode_utf8(y),
    decreases x.len(),
{
    if x.len() == 0 {
        assert(x + y =~= y);
        assert(encode_utf8(x) =~= Seq::<u8>::empty());
        assert(encode_utf8(x) + encode_utf8(y) =~= encode_utf8(y));
    } else {
        assert((x + y).drop_first() =~= x.drop_first() + y);
        assert((x + y)[0] == x[0]);
        lemma_encode_concat(x.drop_first(), y);
        assert(encode_utf8(x + y) =~= encode_utf8(x) + encode_utf8(y));
    }
}

/// UTF-8 spends at most four bytes on a character.
proof fn lemma_encode_length(x: Seq<char>)
    ensures
        encode_utf8(x).len() <= 4 * x.len(),
    decreases x.len(),
{
    if x.len() > 0 {
        lemma_encode_length(x.drop_first());
        assert(encode_scalar(x[0] as u32).len() <= 4);
    }
}

/// The first `n` characters of well-formed text lie within its first `4 n` bytes, and
/// bytes read that far from the start, decoded so that every well-formed prefix keeps its
/// characters, begin with those characters.
pub proof fn lemma_first_chars_in_prefix(b: Seq<u8>, n: nat, t: Seq<char>)
    requires
        valid_utf8(b),
        n > 0,
        ({
            let p = b.take(capped_bytes(n, b.len()) as int);
            &&& valid_utf8(p) ==> t == decode_utf8(p)
            &&& forall|k: int| 0 <= k <= p.len() && valid_utf8(#[trigger] p.take(k)) ==> decode_utf8(p.take(k)).is_prefix_of(t)
        }),
    ensures
        min(n as int, t.len() as int) == min(n as int, decode_utf8(b).len() as int),
        t.take(min(n as int, t.len() as int)) == decode_utf8(b).take(min(n as int, decode_utf8(b).len() as int)),
{
    let d = decode_utf8(b);
    let c = capped_bytes(n, b.len());
    let p = b.take(c as int);
    lemma_decoded_length(b);
    if c == b.len() {
        assert(p =~= b);
    } else {
        assert(c == 4 * n);
        assert(d.len() > n);
        broadcast use decode_utf8_encode_utf8, encode_utf8_valid_utf8, encode_utf8_decode_utf8;
        let front = d.take(n as int);
        assert(d =~= front + d.skip(n as int));
        lemma_encode_concat(front, d.skip(n as int));
        lemma_encode_length(front);
        let j = encode_utf8(front).len() as int;
        assert(b == encode_utf8(d));
        assert(p.take(j) =~= encode_utf8(front));
        assert(valid_utf8(p.take(j)));
        assert(decode_utf8(p.take(j)) == front);
        assert(front.is_prefix_of(t));
        assert(t.take(n as int) =~= front);
    }
}

/// Splitting a concatenation: the last piece of `s` and the first piece of `t` join.
pub proof fn lemma_segments_concat<A>(s: Seq<A>, t: Seq<A>, nl: A)
    ensures
        segments_by(s + t, nl) == segments_by(s, nl).drop_last() + seq![
            segments_by(s, nl).last() + segments_by(t, nl)[0],
        ] + segments_by(t, nl).skip(1),
    decreases t.len(),
{
    lemma_segments_nonempty(s, nl);
    lemma_segments_nonempty(t, nl);
    let ss = segments_by(s, nl);
    if t.len() == 0 {
        assert(s + t =~= s);
        assert(segments_by(t, nl) =~= seq![Seq::<A>::empty()]);
        assert(ss.last() + Seq::<A>::empty() =~= ss.last());
        assert(ss.drop_last() + seq![ss.last()] =~= ss);
        assert(segments_by(t, nl).skip(1) =~= Seq::<Seq<A>>::empty());
        assert(ss.drop_last() + seq![ss.last() + segments_by(t, nl)[0]] + segments_by(t, nl).skip(1)
            =~= ss);
    } else {
        let t0 = t.drop_last();
        let x = t.last();
        lemma_segments_concat(s, t0, nl);
        lemma_segments_nonempty(t0, nl);
        assert((s + t).drop_last() =~= s + t0);
        assert((s + t).last() == x);
        let g = segments_by(t0, nl);
        let whole0 = segments_by(s + t0, nl);
        assert(whole0 == ss.drop_last() + seq![ss.last() + g[0]] + g.skip(1));
        if x == nl {
            assert(segments_by(t, nl) == g.push(Seq::<A>::empty()));
            assert(segments_by(s + t, nl) == whole0.push(Seq::<A>::empty()));
            assert(segments_by(t, nl)[0] == g[0]);
            assert(segments_by(t, nl).skip(1) =~= g.skip(1).push(Seq::<A>::empty()));
            assert(segments_by(s + t, nl) =~= ss.drop_last() + seq![ss.last() + segments_by(t, nl)[0]]
                + segments_by(t, nl).skip(1));
        } else {
            let gt = g.update(g.len() - 1, g.last().push(x));
            assert(segments_by(t, nl) == gt);
            assert(segments_by(s + t, nl) == whole0.update(whole0.len() - 1, whole0.last().push(x)));
            if g.len() == 1 {
                assert(gt[0] == g[0].push(x));
                assert(gt.skip(1) =~= Seq::<Seq<A>>::empty());
                assert(g.skip(1) =~= Seq::<Seq<A>>::empty());
                assert((ss.last() + g[0]).push(x) =~= ss.last() + g[0].push(x));
                assert(segments_by(s + t, nl) =~= ss.drop_last() + seq![ss.last() + gt[0]] + gt.skip(1));
            } else {
                assert(gt[0] == g[0]);
                assert(gt.skip(1) =~= g.skip(1).update(g.len() - 2, g.last().push(x)));
                assert(segments_by(s + t, nl) =~= ss.drop_last() + seq![ss.last() + gt[0]] + gt.skip(1));
            }
        }
    }
}

/// Without a separator there is a single piece, the whole sequence.
pub proof fn lemma_segments_single<A>(t: Seq<A>, nl: A)
    requires
        !t.contains(nl),
    ensures
        segments_by(t, nl) == seq![t],
    decreases t.len(),
{
    if t.len() == 0 {
        assert(t =~= Seq::<A>::empty());
        assert(segments_by(t, nl) =~= seq![t]);
    } else {
        let t0 = t.drop_last();
        assert(!t0.contains(nl)) by {
            if t0.contains(nl) {
                let i = choose|i: int| 0 <= i < t0.len() && t0[i] == nl;
                assert(t[i] == nl);
            }
        }
        assert(t.last() != nl) by {
            assert(t[t.len() - 1] == t.last());
        }
        lemma_segments_single(t0, nl);
        assert(t0.push(t.last()) =~= t);
        assert(segments_by(t, nl) =~= seq![t]);
    }
}

/// One element splits into two pieces if it is the separator, else into one.
proof fn lemma_segments_one<A>(y: A, nl: A)
    ensures
        segments_by(seq![y], nl).len() == (if y == nl {
            2int
        } else {
            1int
        }),
{
    reveal_with_fuel(segments_by, 2);
    assert(seq![y].drop_last() =~= Seq::<A>::empty());
}

proof fn lemma_ascii_byte(b0: u8)
    by (bit_vector)
    requires
        b0 <= 0x7f,
    ensures
        b0 & 0x7f == b0,
{
}

proof fn lemma_width_2_bound(b0: u8, b1: u8)
    by (bit_vector)
    ensures
        codepoint_width_2(b0, b1) <= 0x7ff,
{
}

proof fn lemma_width_3_bound(b0: u8, b1: u8, b2: u8)
    by (bit_vector)
    ensures
        codepoint_width_3(b0, b1, b2) <= 0xffff,
{
}

/// The first character of well-formed UTF-8: a single byte below 0x80 stands for itself;
/// a longer encoding has no byte below 0x80 and encodes a character of at least 0x80.
proof fn lemma_first_scalar_bytes(b: Seq<u8>)
    requires
        valid_utf8(b),
        b.len() > 0,
    ensures
        length_of_first_scalar(b) == 1 ==> decode_first_scalar(b) == b[0] as u32,
        length_of_first_scalar(b) > 1 ==> decode_first_scalar(b) >= 0x80 && forall|i: int|
            0 <= i < length_of_first_scalar(b) ==> #[trigger] b[i] >= 0x80,
        decode_first_scalar(b) <= 0x10ffff,
        !(0xd800 <= decode_first_scalar(b) <= 0xdfff),
{
    if is_leading_byte_width_1(b[0]) {
        lemma_ascii_byte(b[0]);
    } else if is_leading_byte_width_2(b[0]) {
        lemma_width_2_bound(b[0], b[1]);
    } else if is_leading_byte_width_3(b[0]) {
        lemma_width_3_bound(b[0], b[1], b[2]);
    }
}

/// Well-formed UTF-8 and its characters agree on a byte below 0x80: they split into as
/// many pieces at it, and end with it alike.
proof fn lemma_ascii_agrees(b: Seq<u8>, x: u8)
    requires
        valid_utf8(b),
        x < 0x80,
    ensures
        segments_by(b, x).len() == segments_by(decode_utf8(b), x as char).len(),
        b.len() > 0 ==> (b.last() == x <==> decode_utf8(b).last() == x as char),
    decreases b.len(),
{
    if b.len() == 0 {
        assert(decode_utf8(b) =~= Seq::<char>::empty());
    } else {
        let l = length_of_first_scalar(b);
        let fb = b.subrange(0, l);
        let rest = pop_first_scalar(b);
        assert(1 <= l <= 4);
        assert(rest.len() == b.len() - l);
        assert(b =~= fb + rest);
        let c = decode_first_scalar(b) as char;
        let d = decode_utf8(b);
        let dr = decode_utf8(rest);
        assert(d == seq![c] + dr);
        lemma_ascii_agrees(rest, x);
        lemma_first_scalar_bytes(b);
        lemma_segments_concat(fb, rest, x);
        lemma_segments_concat(seq![c], dr, x as char);
        lemma_segments_nonempty(fb, x);
        lemma_segments_nonempty(rest, x);
        lemma_segments_nonempty(seq![c], x as char);
        lemma_segments_nonempty(dr, x as char);
        assert(segments_by(seq![c], x as char).len() == segments_by(fb, x).len()) by {
            lemma_segments_one(c, x as char);
            if l == 1 {
                assert(fb =~= seq![b[0]]);
                lemma_segments_one(b[0], x);
                assert((c == x as char) == (b[0] == x));
            } else {
                assert(!fb.contains(x)) by {
                    if fb.contains(x) {
                        let i = choose|i: int| 0 <= i < fb.len() && fb[i] == x;
                        assert(b[i] >= 0x80);
                    }
                }
                lemma_segments_single(fb, x);
                assert(c != x as char);
            }
        }
        lemma_decoded_length(rest);
        if rest.len() > 0 {
            assert(b.last() == rest.last());
            assert(d.last() == dr.last());
        } else {
            assert(dr =~= Seq::<char>::empty());
            assert(d =~= seq![c]);
            assert(b.last() == b[l - 1]);
            if l == 1 {
                assert((c == x as char) == (b[0] == x));
            } else {
                assert(b[l - 1] >= 0x80);
                assert(c != x as char);
            }
        }
    }
}

/// A newline splits into two empty pieces.
proof fn lemma_segments_of_separator<A>(nl: A)
    ensures
        segments_by(seq![nl], nl) == seq![Seq::<A>::empty(), Seq::<A>::empty()],
{
    reveal_with_fuel(segments_by, 2);
    assert(seq![nl].drop_last() =~= Seq::<A>::empty());
    assert(segments_by(seq![nl], nl) =~= seq![Seq::<A>::empty(), Seq::<A>::empty()]);
}

/// Bytes that start with the first character of `b` and continue with well-formed UTF-8
/// are well-formed, and decode to that character and the rest.
proof fn lemma_prepend_first_scalar(b: Seq<u8>, r: Seq<u8>)
    requires
        valid_utf8(b),
        b.len() > 0,
        valid_utf8(r),
    ensures
        valid_utf8(b.subrange(0, length_of_first_scalar(b)) + r),
        decode_utf8(b.subrange(0, length_of_first_scalar(b)) + r) == seq![
            decode_first_scalar(b) as char,
        ] + decode_utf8(r),
{
    let l = length_of_first_scalar(b);
    let x = b.subrange(0, l) + r;
    assert(1 <= l <= 4);
    assert forall|i: int| 0 <= i < l implies x[i] == b[i] by {}
    assert(valid_first_scalar(x));
    assert(length_of_first_scalar(x) == l);
    assert(decode_first_scalar(x) == decode_first_scalar(b));
    assert(pop_first_scalar(x) =~= r);
}

/// Well-formed UTF-8 splits at newline bytes into well-formed pieces that decode to the
/// pieces its text splits into at newlines.
proof fn lemma_decoded_segments(b: Seq<u8>)
    requires
        valid_utf8(b),
    ensures
        segments_by(b, 10u8).len() == segments_by(decode_utf8(b), '\n').len(),
        forall|i: int| 0 <= i < segments_by(b, 10u8).len() ==> valid_utf8(#[trigger] segments_by(b, 10u8)[i])
            && decode_utf8(segments_by(b, 10u8)[i]) == segments_by(decode_utf8(b), '\n')[i],
    decreases b.len(),
{
    let d = decode_utf8(b);
    if b.len() == 0 {
        assert(d =~= Seq::<char>::empty());
        assert(decode_utf8(Seq::<u8>::empty()) =~= Seq::<char>::empty());
        assert(segments_by(b, 10u8) =~= seq![Seq::<u8>::empty()]);
    } else {
        let l = length_of_first_scalar(b);
        let fb = b.subrange(0, l);
        let rest = pop_first_scalar(b);
        assert(1 <= l <= 4);
        assert(b =~= fb + rest);
        let c = decode_first_scalar(b) as char;
        let dr = decode_utf8(rest);
        assert(d == seq![c] + dr);
        lemma_decoded_segments(rest);
        lemma_first_scalar_bytes(b);
        lemma_segments_concat(fb, rest, 10u8);
        lemma_segments_concat(seq![c], dr, '\n');
        lemma_segments_nonempty(rest, 10u8);
        lemma_segments_nonempty(dr, '\n');
        let sr = segments_by(rest, 10u8);
        let sdr = segments_by(dr, '\n');
        let sb = segments_by(b, 10u8);
        let sd = segments_by(d, '\n');
        if c == '\n' {
            assert(l == 1);
            assert(fb =~= seq![10u8]);
            lemma_segments_of_separator(10u8);
            lemma_segments_of_separator('\n');
            assert(sb =~= seq![Seq::<u8>::empty()] + sr);
            assert(sd =~= seq![Seq::<char>::empty()] + sdr);
            assert(decode_utf8(Seq::<u8>::empty()) =~= Seq::<char>::empty());
            assert forall|i: int| 0 <= i < sb.len() implies valid_utf8(#[trigger] sb[i]) && decode_utf8(sb[i])
                == sd[i] by {
                if i > 0 {
                    assert(sb[i] == sr[i - 1]);
                    assert(sd[i] == sdr[i - 1]);
                }
            }
        } else {
            assert(!fb.contains(10u8)) by {
                if fb.contains(10u8) {
                    let i = choose|i: int| 0 <= i < fb.len() && fb[i] == 10u8;
                    if l == 1 {
                        assert(i == 0);
                        assert((10u8 as char) == '\n');
                    } else {
                        assert(b[i] >= 0x80);
                    }
                }
            }
            assert(!seq![c].contains('\n')) by {
                if seq![c].contains('\n') {
                    let i = choose|i: int| 0 <= i < 1 && seq![c][i] == '\n';
                    assert(seq![c][i] == c);
                }
            }
            lemma_segments_single(fb, 10u8);
            lemma_segments_single(seq![c], '\n');
            assert(sb =~= seq![fb + sr[0]] + sr.skip(1));
            assert(sd =~= seq![seq![c] + sdr[0]] + sdr.skip(1));
            lemma_prepend_first_scalar(b, sr[0]);
            assert forall|i: int| 0 <= i < sb.len() implies valid_utf8(#[trigger] sb[i]) && decode_utf8(sb[i])
                == sd[i] by {
                if i > 0 {
                    assert(sb[i] == sr[i]);
                    assert(sd[i] == sdr[i]);
                }
            }
        }
    }
}

/// The single carriage-return byte decodes to a carriage return.
proof fn lemma_decode_carriage_return()
    ensures
        valid_utf8(seq![13u8]),
        decode_utf8(seq![13u8]) == seq!['\r'],
{
    let x = seq![13u8];
    lemma_ascii_byte(13u8);
    reveal_with_fuel(valid_utf8, 2);
    reveal_with_fuel(decode_utf8, 2);
    assert(x[0] == 13u8);
    assert(valid_first_scalar(x));
    assert(pop_first_scalar(x) =~= Seq::<u8>::empty());
    assert(decode_utf8(Seq::<u8>::empty()) =~= Seq::<char>::empty());
    assert((13u32 as char) == '\r');
    assert(decode_utf8(x) =~= seq!['\r']);
}

/// Dropping a final carriage-return byte and dropping a final carriage return from the
/// text agree.
proof fn lemma_strip_decoded(x: Seq<u8>)
    requires
        valid_utf8(x),
    ensures
        valid_utf8(strip_last(x, 13u8)),
        decode_utf8(strip_last(x, 13u8)) == strip_last(decode_utf8(x), '\r'),
{
    let d = decode_utf8(x);
    lemma_decoded_length(x);
    if x.len() > 0 {
        lemma_ascii_agrees(x, 13u8);
        assert((13u8 as char) == '\r');
        if x.last() == 13u8 {
            let k = x.len() - 1;
            is_char_boundary_iff_not_is_continuation_byte(x, k);
            valid_utf8_split(x, k);
            decode_utf8_split(x, k);
            assert(x.subrange(0, k) =~= x.drop_last());
            assert(x.subrange(k, x.len() as int) =~= seq![13u8]);
            lemma_decode_carriage_return();
            assert(d.drop_last() =~= decode_utf8(x.drop_last()));
        }
    } else {
        assert(d.len() == 0);
    }
}

/// `BufRead::lines` splits well-formed UTF-8 into well-formed lines that decode to the
/// lines `str::lines` finds in its text.
pub proof fn lemma_byte_lines_decode(b: Seq<u8>)
    requires
        valid_utf8(b),
    ensures
        forall|i: int| 0 <= i < byte_lines(b).len() ==> valid_utf8(#[trigger] byte_lines(b)[i]),
        decode_lines(byte_lines(b)) == lines_of(decode_utf8(b)),
{
    let d = decode_utf8(b);
    lemma_decoded_segments(b);
    lemma_segments_nonempty(b, 10u8);
    let sb = segments_by(b, 10u8);
    let sd = segments_by(d, '\n');
    let body_b = Seq::new((sb.len() - 1) as nat, |j: int| strip_last(sb[j], 13u8));
    let body_d = Seq::new((sd.len() - 1) as nat, |j: int| strip_last(sd[j], '\r'));
    assert forall|j: int| 0 <= j < body_b.len() implies valid_utf8(#[trigger] body_b[j]) && decode_utf8(body_b[j])
        == body_d[j] by {
        lemma_strip_decoded(sb[j]);
    }
    lemma_decoded_length(sb.last());
    assert(decode_utf8(sb.last()) == sd.last());
    if sb.last().len() == 0 {
        assert(byte_lines(b) == body_b);
        assert(lines_of(d) == body_d);
    } else {
        assert(byte_lines(b) == body_b.push(sb.last()));
        assert(lines_of(d) == body_d.push(sd.last()));
    }
    assert(decode_lines(byte_lines(b)) =~= lines_of(d));
}

/// On well-formed text, `HeadLines(n)` gives the first `n` lines of the text (all of them
/// where there are fewer), numbered from 1; where the text has no line, the range is 0-0.
pub proof fn lemma_head_lines_are_first_lines(b: Seq<u8>, n: nat)
    requires
        valid_utf8(b),
        n > 0,
    ensures
        ({
            let ls = lines_of(decode_utf8(b));
            let m = min(n as int, ls.len() as int);
            head_lines_result(b, n) == Ok::<(Seq<char>, SliceInfo), SliceError>(
                (
                    join(ls.take(m), newline()),
                    SliceInfo::Lines {
                        start: if m == 0 {
                            0
                        } else {
                            1
                        },
                        end: m as usize,
                    },
                ),
            )
        }),
{
    lemma_byte_lines_decode(b);
    let bl = byte_lines(b);
    let ls = lines_of(decode_utf8(b));
    let m = min(n as int, ls.len() as int);
    let taken = bl.take(m);
    assert(forall|i: int| 0 <= i < taken.len() ==> valid_utf8(#[trigger] taken[i])) by {
        assert forall|i: int| 0 <= i < taken.len() implies valid_utf8(#[trigger] taken[i]) by {
            assert(taken[i] == bl[i]);
        }
    }
    assert(decode_lines(taken) =~= ls.take(m));
}

/// On well-formed text, `TailLines(n)` gives the last `n` lines of the text (all of them
/// where there are fewer), numbered by their place among all its lines.
pub proof fn lemma_tail_lines_are_last_lines(b: Seq<u8>, n: nat)
    requires
        valid_utf8(b),
        b.len() > 0,
        n > 0,
    ensures
        tail_lines_result(b, n) == Ok::<(Seq<char>, SliceInfo), SliceError>(last_lines(decode_utf8(b), n)),
{
    if b.len() >= TAIL_READ_LIMIT {
        lemma_byte_lines_decode(b);
        let bl = byte_lines(b);
        let ls = lines_of(decode_utf8(b));
        let skip = sat_sub(bl.len() as int, n as int);
        assert(bl.skip(skip).map_values(|l: Seq<u8>| lossy_text(l)) =~= ls.skip(skip)) by {
            assert forall|i: int| 0 <= i < ls.len() - skip implies bl.skip(skip).map_values(
                |l: Seq<u8>| lossy_text(l),
            )[i] == ls.skip(skip)[i] by {
                assert(valid_utf8(bl[i + skip]));
                assert(decode_lines(bl)[i + skip] == ls[i + skip]);
            }
        }
    }
}

/// Joining the first `a` lines, a newline, and the rest gives all the lines joined.
pub proof fn lemma_join_split(ls: Seq<Seq<char>>, a: int)
    requires
        0 < a < ls.len(),
    ensures
        join(ls.take(a), newline()) + newline() + join(ls.skip(a), newline()) == join(ls, newline()),
    decreases ls.len(),
{
    let dl = ls.drop_last();
    if a == ls.len() - 1 {
        assert(ls.take(a) =~= dl);
        assert(ls.skip(a) =~= seq![ls.last()]);
        assert(join(seq![ls.last()], newline()) == ls.last());
    } else {
        lemma_join_split(dl, a);
        assert(dl.take(a) =~= ls.take(a));
        assert(ls.skip(a).drop_last() =~= dl.skip(a));
        assert(ls.skip(a).last() == ls.last());
        let h = join(ls.take(a), newline());
        let t = join(dl.skip(a), newline());
        assert(h + newline() + (t + newline() + ls.last()) =~= (h + newline() + t) + newline() + ls.last());
    }
}

/// On well-formed text with `L` lines, the first `a` lines and the last `L - a` lines, for
/// `0 < a < L`, are numbered `1..a` and `a+1..L` and together, joined by a newline, give
/// all the lines.
pub proof fn lemma_head_and_tail_lines_tile(b: Seq<u8>, a: nat)
    requires
        valid_utf8(b),
        0 < a < lines_of(decode_utf8(b)).len(),
    ensures
        ({
            let ls = lines_of(decode_utf8(b));
            let l = ls.len();
            &&& head_lines_result(b, a) matches Ok((h, hi))
            &&& tail_lines_result(b, (l - a) as nat) matches Ok((t, ti))
            &&& hi == SliceInfo::Lines { start: 1, end: a as usize }
            &&& ti == SliceInfo::Lines { start: (a + 1) as usize, end: l as usize }
            &&& h + newline() + t == join(ls, newline())
        }),
{
    let ls = lines_of(decode_utf8(b));
    assert(b.len() > 0) by {
        if b.len() == 0 {
            assert(decode_utf8(b) =~= Seq::<char>::empty());
            lemma_segments_nonempty(decode_utf8(b), '\n');
            assert(segments_by(decode_utf8(b), '\n') =~= seq![Seq::<char>::empty()]);
        }
    }
    lemma_head_lines_are_first_lines(b, a);
    lemma_tail_lines_are_last_lines(b, (ls.len() - a) as nat);
    lemma_join_split(ls, a as int);
}

} // verus!
