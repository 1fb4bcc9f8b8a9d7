//! The mathematical model of the wire format: how a byte stream is cut
//! into frames, how header lines are read, and what one decode step
//! yields.  The executable codec in `frame` is proved against this model.

use vstd::prelude::*;
use vstd::utf8::{decode_utf8, valid_utf8};

use crate::compress::inflated_text_of;
use crate::text::{is_unicode_space, lower_of, trim_end_of};

verus! {

/// Why a buffer was rejected as malformed.
#[derive(Clone, Copy, Debug, PartialEq, Eq, Structural)]
pub enum ParseError {
    /// The command line is not valid UTF-8.
    CommandNotUtf8,
    /// The header region is not valid UTF-8.
    HeadersNotUtf8,
    /// The byte after the header/body separator (or after the declared
    /// body) is not NUL.
    MissingNullTerminator,
    /// The byte after the NUL terminator is not a line feed.
    MissingLineFeedTerminator,
    /// The declared body bytes are not a gzip stream of UTF-8 text.
    BodyDecompressionFailed,
}

/// A decoded frame, as the model sees it.
pub struct SpecFrame {
    pub command: Seq<char>,
    pub headers: Seq<(Seq<char>, Seq<char>)>,
    pub body: Option<Seq<char>>,
}

/// What one decode attempt on a buffer yields.
pub enum SpecParse {
    /// The buffer does not yet hold a complete frame.
    NeedMore,
    /// The buffer starts with something that can never become a frame.
    Malformed { why: ParseError },
    /// The buffer starts with a complete frame spanning `used` bytes.
    Parsed { frame: SpecFrame, used: int },
}

/// The position of the first occurrence of `x` in `b`.
pub open spec fn find_byte(b: Seq<u8>, x: u8) -> Option<int>
    decreases b.len(),
{
    if b.len() == 0 {
        None
    } else if b[0] == x {
        Some(0)
    } else {
        match find_byte(b.drop_first(), x) {
            Some(i) => Some(i + 1),
            None => None,
        }
    }
}

/// Whether positions `q` and `q + 1` of `b` hold two line feeds.
pub open spec fn lf_pair_at(b: Seq<u8>, q: int) -> bool {
    b[q] == 10 && b[q + 1] == 10
}

/// The position of the first occurrence of two consecutive line feeds.
pub open spec fn find_double_lf(b: Seq<u8>) -> Option<int>
    decreases b.len(),
{
    if b.len() < 2 {
        None
    } else if b[0] == 10 && b[1] == 10 {
        Some(0)
    } else {
        match find_double_lf(b.drop_first()) {
            Some(i) => Some(i + 1),
            None => None,
        }
    }
}

/// `find_byte` returns the first occurrence, or `None` when there is none.
pub proof fn lemma_find_byte_spec(b: Seq<u8>, x: u8)
    ensures
        match find_byte(b, x) {
            Some(i) => 0 <= i < b.len() && b[i] == x && (forall|q: int|
                0 <= q < i ==> b[q] != x),
            None => forall|q: int| 0 <= q < b.len() ==> b[q] != x,
        },
    decreases b.len(),
{
    if b.len() > 0 && b[0] != x {
        lemma_find_byte_spec(b.drop_first(), x);
        assert(forall|q: int| 1 <= q < b.len() ==> b[q] == b.drop_first()[q - 1]);
    }
}

/// `find_double_lf` returns the first line-feed pair, or `None`.
pub proof fn lemma_find_double_lf_spec(b: Seq<u8>)
    ensures
        match find_double_lf(b) {
            Some(p) => 0 <= p && p + 1 < b.len() && lf_pair_at(b, p) && (forall|q: int|
                0 <= q < p ==> !lf_pair_at(b, q)),
            None => forall|q: int| 0 <= q && q + 1 < b.len() ==> !lf_pair_at(b, q),
        },
    decreases b.len(),
{
    if b.len() >= 2 && !(b[0] == 10 && b[1] == 10) {
        lemma_find_double_lf_spec(b.drop_first());
        assert(forall|q: int| 1 <= q < b.len() ==> b[q] == b.drop_first()[q - 1]);
        assert(forall|q: int| 1 <= q && q + 1 < b.len() ==> (#[trigger] lf_pair_at(b, q))
            == lf_pair_at(b.drop_first(), q - 1));
    }
}

/// Truncating a buffer keeps an early first occurrence and loses a late one.
pub proof fn lemma_find_byte_take(b: Seq<u8>, x: u8, n: int)
    requires
        0 <= n <= b.len(),
    ensures
        find_byte(b.take(n), x) == match find_byte(b, x) {
            Some(i) => if i < n {
                Some(i)
            } else {
                None::<int>
            },
            None => None::<int>,
        },
{
    lemma_find_byte_spec(b, x);
    lemma_find_byte_spec(b.take(n), x);
    match find_byte(b, x) {
        Some(i) => {
            if i < n {
                assert(b.take(n)[i] == x);
                match find_byte(b.take(n), x) {
                    Some(j) => {
                        if j < i {
                            assert(b[j] == x);
                            assert(false);
                        }
                        if j > i {
                            assert(b.take(n)[i] != x);
                            assert(false);
                        }
                    },
                    None => {
                        assert(b.take(n)[i] != x);
                        assert(false);
                    },
                }
            } else {
                match find_byte(b.take(n), x) {
                    Some(j) => {
                        assert(b[j] == x);
                        assert(false);
                    },
                    None => {},
                }
            }
        },
        None => {
            match find_byte(b.take(n), x) {
            Some(j) => {
                assert(b[j] == x);
                assert(false);
            },
            None => {},
            }
        },
    }
}

/// Truncating a buffer keeps an early line-feed pair and loses a late one.
pub proof fn lemma_find_double_lf_take(b: Seq<u8>, n: int)
    requires
        0 <= n <= b.len(),
    ensures
        find_double_lf(b.take(n)) == match find_double_lf(b) {
            Some(p) => if p + 2 <= n {
                Some(p)
            } else {
                None::<int>
            },
            None => None::<int>,
        },
{
    lemma_find_double_lf_spec(b);
    lemma_find_double_lf_spec(b.take(n));
    match find_double_lf(b) {
        Some(p) => {
            if p + 2 <= n {
                assert(lf_pair_at(b.take(n), p));
                match find_double_lf(b.take(n)) {
                    Some(q) => {
                        if q < p {
                            assert(lf_pair_at(b, q));
                            assert(false);
                        }
                        if q > p {
                            assert(!lf_pair_at(b.take(n), p));
                            assert(false);
                        }
                    },
                    None => {
                        assert(!lf_pair_at(b.take(n), p));
                        assert(false);
                    },
                }
            } else {
                match find_double_lf(b.take(n)) {
                    Some(q) => {
                        assert(q + 1 < n);
                        assert(lf_pair_at(b, q));
                        assert(false);
                    },
                    None => {},
                }
            }
        },
        None => {
            match find_double_lf(b.take(n)) {
                Some(q) => {
                    assert(lf_pair_at(b, q));
                    assert(false);
                },
                None => {},
            }
        },
    }
}

/// Appending bytes does not move an already-found first occurrence.
pub proof fn lemma_find_byte_extend(b: Seq<u8>, ext: Seq<u8>, x: u8)
    requires
        find_byte(b, x) is Some,
    ensures
        find_byte(b + ext, x) == find_byte(b, x),
{
    lemma_find_byte_spec(b, x);
    lemma_find_byte_spec(b + ext, x);
    let i = find_byte(b, x)->Some_0;
    assert((b + ext)[i] == x);
    match find_byte(b + ext, x) {
        Some(j) => {
            if j < i {
                assert(b[j] == x);
                assert(false);
            }
            if j > i {
                assert((b + ext)[i] != x);
                assert(false);
            }
        },
        None => {
            assert((b + ext)[i] != x);
            assert(false);
        },
    }
}

/// Appending bytes does not move an already-found line-feed pair.
pub proof fn lemma_find_double_lf_extend(b: Seq<u8>, ext: Seq<u8>)
    requires
        find_double_lf(b) is Some,
    ensures
        find_double_lf(b + ext) == find_double_lf(b),
{
    lemma_find_double_lf_spec(b);
    lemma_find_double_lf_spec(b + ext);
    let p = find_double_lf(b)->Some_0;
    assert(lf_pair_at(b + ext, p));
    match find_double_lf(b + ext) {
        Some(q) => {
            if q < p {
                assert(lf_pair_at(b, q));
                assert(false);
            }
            if q > p {
                assert(!lf_pair_at(b + ext, p));
                assert(false);
            }
        },
        None => {
            assert(!lf_pair_at(b + ext, p));
            assert(false);
        },
    }
}

/// One pass of `str::replace` over bytes, for a two-byte pattern
/// `\` followed by `p1`, substituting the single byte `r`.
pub open spec fn replace_pair(s: Seq<u8>, p1: u8, r: u8) -> Seq<u8>
    decreases s.len(),
{
    if s.len() < 2 {
        s
    } else if s[0] == 92 && s[1] == p1 {
        seq![r] + replace_pair(s.skip(2), p1, r)
    } else {
        seq![s[0]] + replace_pair(s.skip(1), p1, r)
    }
}

/// The escape substitution applied to a header value, in the decoder's
/// fixed order: `\r` to CR, then `\n` to LF, then `\c` to `:`, then
/// `\\` to `\`.
pub open spec fn unescape_value(s: Seq<u8>) -> Seq<u8> {
    replace_pair(replace_pair(replace_pair(replace_pair(s, 114, 13), 110, 10), 99, 58), 92, 92)
}

/// A single ASCII byte is valid UTF-8.
proof fn lemma_ascii_singleton_valid(a: u8)
    requires
        a < 0x80,
    ensures
        valid_utf8(seq![a]),
{
    let s = seq![a];
    assert(a >= 0x80 || (a & 0x7f) == a) by (bit_vector);
    assert(vstd::utf8::valid_first_scalar(s));
    assert(vstd::utf8::length_of_first_scalar(s) == 1);
    assert(vstd::utf8::pop_first_scalar(s) =~= Seq::<u8>::empty());
    assert(valid_utf8(Seq::<u8>::empty()));
}

/// Dropping one leading ASCII byte from valid UTF-8 leaves valid UTF-8.
pub proof fn lemma_ascii_head_valid(t: Seq<u8>)
    requires
        valid_utf8(t),
        t.len() > 0,
        t[0] < 0x80,
    ensures
        valid_utf8(t.skip(1)),
{
    assert(vstd::utf8::length_of_first_scalar(t) == 1);
    assert(vstd::utf8::pop_first_scalar(t) =~= t.skip(1));
}

/// Splitting valid UTF-8 directly before an ASCII byte leaves two valid
/// halves: an ASCII byte always starts a character.
pub proof fn lemma_split_at_ascii(s: Seq<u8>, k: int)
    requires
        valid_utf8(s),
        0 <= k < s.len(),
        s[k] < 0x80,
    ensures
        valid_utf8(s.take(k)),
        valid_utf8(s.skip(k)),
{
    vstd::utf8::is_char_boundary_iff_not_is_continuation_byte(s, k);
    vstd::utf8::valid_utf8_split(s, k);
    assert(s.take(k) =~= s.subrange(0, k));
    assert(s.skip(k) =~= s.subrange(k, s.len() as int));
}

/// `replace_pair` copies a backslash-free prefix unchanged.
proof fn lemma_replace_pair_nonmatching_prefix(s: Seq<u8>, p1: u8, r: u8, k: int)
    requires
        1 <= k <= s.len(),
        forall|i: int| 0 <= i < k ==> s[i] != 92,
    ensures
        replace_pair(s, p1, r) == s.take(k) + replace_pair(s.skip(k), p1, r),
    decreases k,
{
    if k == 1 {
        if s.len() < 2 {
            assert(s.skip(1) =~= Seq::<u8>::empty());
            assert(s.take(1) =~= s);
            assert(s.take(1) + replace_pair(s.skip(1), p1, r) =~= s);
        } else {
            assert(seq![s[0]] =~= s.take(1));
        }
    } else {
        lemma_replace_pair_nonmatching_prefix(s.skip(1), p1, r, k - 1);
        assert(s.skip(1).take(k - 1) =~= s.subrange(1, k));
        assert(s.skip(1).skip(k - 1) =~= s.skip(k));
        assert(seq![s[0]] + (s.subrange(1, k) + replace_pair(s.skip(k), p1, r)) =~= s.take(k)
            + replace_pair(s.skip(k), p1, r));
    }
}

/// One escape pass keeps valid UTF-8 valid: the pattern only ever
/// matches ASCII bytes, which always sit on character boundaries, and
/// the written byte is ASCII.
proof fn lemma_replace_pair_preserves_utf8(s: Seq<u8>, p1: u8, r: u8)
    requires
        valid_utf8(s),
        p1 < 0x80,
        r < 0x80,
    ensures
        valid_utf8(replace_pair(s, p1, r)),
    decreases s.len(),
{
    if s.len() < 2 {
    } else if s[0] == 92 && s[1] == p1 {
        lemma_ascii_head_valid(s);
        lemma_ascii_head_valid(s.skip(1));
        assert(s.skip(1).skip(1) =~= s.skip(2));
        lemma_replace_pair_preserves_utf8(s.skip(2), p1, r);
        lemma_ascii_singleton_valid(r);
        vstd::utf8::valid_utf8_concat(seq![r], replace_pair(s.skip(2), p1, r));
    } else if s[0] < 0x80 {
        lemma_ascii_head_valid(s);
        lemma_replace_pair_preserves_utf8(s.skip(1), p1, r);
        lemma_ascii_singleton_valid(s[0]);
        vstd::utf8::valid_utf8_concat(seq![s[0]], replace_pair(s.skip(1), p1, r));
    } else {
        let k = vstd::utf8::length_of_first_scalar(s);
        assert(vstd::utf8::valid_first_scalar(s));
        if vstd::utf8::is_leading_byte_width_2(s[0]) {
            assert(k == 2 && vstd::utf8::is_continuation_byte(s[1]));
        } else if vstd::utf8::is_leading_byte_width_3(s[0]) {
            assert(k == 3 && vstd::utf8::is_continuation_byte(s[1])
                && vstd::utf8::is_continuation_byte(s[2]));
        } else {
            assert(k == 4 && vstd::utf8::is_continuation_byte(s[1])
                && vstd::utf8::is_continuation_byte(s[2])
                && vstd::utf8::is_continuation_byte(s[3]));
        }
        assert(forall|i: int| 0 <= i < k ==> s[i] != 92);
        lemma_replace_pair_nonmatching_prefix(s, p1, r, k);
        assert(vstd::utf8::valid_first_scalar(s.take(k)));
        assert(vstd::utf8::length_of_first_scalar(s.take(k)) == k);
        assert(vstd::utf8::pop_first_scalar(s.take(k)) =~= Seq::<u8>::empty());
        assert(valid_utf8(Seq::<u8>::empty()));
        assert(valid_utf8(s.take(k)));
        assert(vstd::utf8::pop_first_scalar(s) =~= s.skip(k));
        lemma_replace_pair_preserves_utf8(s.skip(k), p1, r);
        vstd::utf8::valid_utf8_concat(s.take(k), replace_pair(s.skip(k), p1, r));
    }
}

/// The escape substitution keeps a valid UTF-8 value valid.
pub proof fn lemma_unescape_value_preserves_utf8(s: Seq<u8>)
    requires
        valid_utf8(s),
    ensures
        valid_utf8(unescape_value(s)),
{
    lemma_replace_pair_preserves_utf8(s, 114, 13);
    lemma_replace_pair_preserves_utf8(replace_pair(s, 114, 13), 110, 10);
    lemma_replace_pair_preserves_utf8(replace_pair(replace_pair(s, 114, 13), 110, 10), 99, 58);
    lemma_replace_pair_preserves_utf8(
        replace_pair(replace_pair(replace_pair(s, 114, 13), 110, 10), 99, 58),
        92,
        92,
    );
}

/// One trailing carriage return stripped, as line splitting does for a
/// line that a line feed ended.
pub open spec fn strip_trailing_cr(line: Seq<u8>) -> Seq<u8> {
    if line.len() > 0 && line[line.len() - 1] == 13 {
        line.drop_last()
    } else {
        line
    }
}

/// The header pair a single stripped line contributes: `None` when the
/// line is empty, has no colon, or has an empty name.  The name is
/// lower-cased; the value undergoes the escape substitution.
pub open spec fn header_of_line(line: Seq<u8>) -> Option<(Seq<char>, Seq<char>)> {
    if line.len() == 0 {
        None
    } else {
        match find_byte(line, 58) {
            None => None,
            Some(k) => {
                if k == 0 {
                    None
                } else {
                    Some(
                        (
                            lower_of(decode_utf8(line.take(k))),
                            decode_utf8(unescape_value(line.skip(k + 1))),
                        ),
                    )
                }
            },
        }
    }
}

/// The header pairs of the region between the command line and the
/// header/body separator, in order of appearance.
pub open spec fn headers_of_region(region: Seq<u8>) -> Seq<(Seq<char>, Seq<char>)>
    decreases region.len(),
    via headers_of_region_decreases
{
    if region.len() == 0 {
        Seq::empty()
    } else {
        match find_byte(region, 10) {
            None => match header_of_line(region) {
                Some(h) => seq![h],
                None => Seq::empty(),
            },
            Some(j) => {
                let first = header_of_line(strip_trailing_cr(region.take(j)));
                let rest = headers_of_region(region.skip(j + 1));
                match first {
                    Some(h) => seq![h] + rest,
                    None => rest,
                }
            },
        }
    }
}

#[via_fn]
proof fn headers_of_region_decreases(region: Seq<u8>) {
    lemma_find_byte_spec(region, 10);
}

/// The numeric value of a digit sequence, most significant digit first.
pub open spec fn digits_value(t: Seq<char>) -> nat
    decreases t.len(),
{
    if t.len() == 0 {
        0
    } else {
        digits_value(t.drop_last()) * 10 + digit_of(t.last())
    }
}

/// The value of one decimal digit character; 0 for anything else.
pub open spec fn digit_of(c: char) -> nat {
    if 48 <= c as u32 <= 57 {
        (c as u32 - 48) as nat
    } else {
        0
    }
}

/// Whether `c` is a decimal digit.
pub open spec fn is_digit_char(c: char) -> bool {
    48 <= c as u32 <= 57
}

/// Whether every character of `t` is a decimal digit.
pub open spec fn all_digits(t: Seq<char>) -> bool {
    forall|i: int| 0 <= i < t.len() ==> is_digit_char(#[trigger] t[i])
}

/// The value of a sign-stripped digit sequence, when it is one or more
/// digits whose value fits in `usize`.
pub open spec fn parse_usize_digits(t: Seq<char>) -> Option<usize> {
    if t.len() == 0 {
        None
    } else if !all_digits(t) {
        None
    } else if digits_value(t) > usize::MAX {
        None
    } else {
        Some(digits_value(t) as usize)
    }
}

/// What `str::parse::<usize>` accepts of a header value: an optional
/// leading plus sign, then one or more digits, whose value fits in
/// `usize`.
pub open spec fn spec_parse_usize(s: Seq<char>) -> Option<usize> {
    if s.len() > 0 && s[0] == '+' {
        parse_usize_digits(s.drop_first())
    } else {
        parse_usize_digits(s)
    }
}

/// A digit prefix never exceeds the value of the whole digit sequence.
pub proof fn lemma_digits_value_mono(t: Seq<char>, k: int)
    requires
        0 <= k <= t.len(),
    ensures
        digits_value(t.take(k)) <= digits_value(t),
    decreases t.len() - k,
{
    if k < t.len() {
        lemma_digits_value_mono(t, k + 1);
        assert(t.take(k + 1).drop_last() =~= t.take(k));
        assert(digits_value(t.take(k + 1)) == digits_value(t.take(k)) * 10 + digit_of(
            t.take(k + 1).last(),
        ));
    } else {
        assert(t.take(k) =~= t);
    }
}

/// The declared body length: the value of the first `content-length`
/// header whose value is numeric; `None` when there is none.
pub open spec fn content_length_of(hs: Seq<(Seq<char>, Seq<char>)>) -> Option<usize>
    decreases hs.len(),
{
    if hs.len() == 0 {
        None
    } else if hs[0].0 == "content-length"@ && spec_parse_usize(hs[0].1) is Some {
        spec_parse_usize(hs[0].1)
    } else {
        content_length_of(hs.drop_first())
    }
}

/// One decode attempt on a buffer.  This is the decoder's contract: the
/// executable `frame::parse` returns exactly what this function says.
pub open spec fn spec_parse(b: Seq<u8>) -> SpecParse {
    if b.len() < 2 {
        SpecParse::NeedMore
    } else {
        match find_double_lf(b) {
            None => SpecParse::NeedMore,
            Some(sep) => match find_byte(b, 10) {
                None => SpecParse::NeedMore,
                Some(cmd_end) => {
                    let cmd_b = b.take(cmd_end);
                    if !valid_utf8(cmd_b) {
                        SpecParse::Malformed { why: ParseError::CommandNotUtf8 }
                    } else {
                        let command = trim_end_of(decode_utf8(cmd_b));
                        let region = b.subrange(cmd_end + 1, sep + 1);
                        if !valid_utf8(region) {
                            SpecParse::Malformed { why: ParseError::HeadersNotUtf8 }
                        } else {
                            let headers = headers_of_region(region);
                            match content_length_of(headers) {
                                None => spec_finish_bodyless(b, sep, command, headers),
                                Some(n) => spec_finish_body(b, sep, command, headers, n as int),
                            }
                        }
                    }
                },
            },
        }
    }
}

/// The terminator check for a frame without a `content-length` header:
/// NUL then LF must directly follow the separator.
pub open spec fn spec_finish_bodyless(
    b: Seq<u8>,
    sep: int,
    command: Seq<char>,
    headers: Seq<(Seq<char>, Seq<char>)>,
) -> SpecParse {
    if b.len() < sep + 4 {
        SpecParse::NeedMore
    } else if b[sep + 2] != 0 {
        SpecParse::Malformed { why: ParseError::MissingNullTerminator }
    } else if b[sep + 3] != 10 {
        SpecParse::Malformed { why: ParseError::MissingLineFeedTerminator }
    } else {
        SpecParse::Parsed {
            frame: SpecFrame { command, headers, body: None },
            used: sep + 4,
        }
    }
}

/// The body extraction for a frame with `content-length = n`: `n` raw
/// bytes after the separator are gzip-inflated, then NUL and LF must
/// follow them.
pub open spec fn spec_finish_body(
    b: Seq<u8>,
    sep: int,
    command: Seq<char>,
    headers: Seq<(Seq<char>, Seq<char>)>,
    n: int,
) -> SpecParse {
    let body_start = sep + 2;
    let body_end = body_start + n;
    if body_end > b.len() {
        SpecParse::NeedMore
    } else {
        match inflated_text_of(b.subrange(body_start, body_end)) {
            None => SpecParse::Malformed { why: ParseError::BodyDecompressionFailed },
            Some(t) => {
                if b.len() < body_end + 2 {
                    SpecParse::NeedMore
                } else if b[body_end] != 0 {
                    SpecParse::Malformed { why: ParseError::MissingNullTerminator }
                } else if b[body_end + 1] != 10 {
                    SpecParse::Malformed { why: ParseError::MissingLineFeedTerminator }
                } else {
                    SpecParse::Parsed {
                        frame: SpecFrame { command, headers, body: Some(t) },
                        used: body_end + 2,
                    }
                }
            },
        }
    }
}

/// One rendered header line: `name:value`.
pub open spec fn spec_header_line(h: (Seq<char>, Seq<char>)) -> Seq<char> {
    h.0 + seq![':'] + h.1
}

/// Header lines joined by line feeds.
pub open spec fn spec_header_block(hs: Seq<(Seq<char>, Seq<char>)>) -> Seq<char>
    decreases hs.len(),
{
    if hs.len() == 0 {
        Seq::empty()
    } else if hs.len() == 1 {
        spec_header_line(hs[0])
    } else {
        spec_header_line(hs[0]) + seq!['\n'] + spec_header_block(hs.drop_first())
    }
}

/// Appending one more header extends the block by a separator and line.
pub proof fn lemma_header_block_push(hs: Seq<(Seq<char>, Seq<char>)>, h: (Seq<char>, Seq<char>))
    ensures
        spec_header_block(hs.push(h)) == if hs.len() == 0 {
            spec_header_line(h)
        } else {
            spec_header_block(hs) + seq!['\n'] + spec_header_line(h)
        },
    decreases hs.len(),
{
    if hs.len() == 0 {
        assert(hs.push(h)[0] == h);
    } else {
        lemma_header_block_push(hs.drop_first(), h);
        assert(hs.push(h).drop_first() =~= hs.drop_first().push(h));
        if hs.len() == 1 {
            assert(hs.drop_first().len() == 0);
        } else {
            assert((spec_header_line(hs[0]) + seq!['\n'] + spec_header_block(hs.drop_first()))
                + seq!['\n'] + spec_header_line(h) =~= spec_header_line(hs[0]) + seq!['\n'] + (
            spec_header_block(hs.drop_first()) + seq!['\n'] + spec_header_line(h)));
        }
    }
}

/// What `create` renders: the command line, the optional header block,
/// the blank separator line, the body text, and one NUL byte.  No
/// escaping is applied to header values and no trailing line feed is
/// emitted: that is the encoder's deliberate asymmetry with the decoder.
pub open spec fn spec_create(
    command: Seq<char>,
    headers: Option<Seq<(Seq<char>, Seq<char>)>>,
    body: Seq<char>,
) -> Seq<char> {
    match headers {
        None => command + seq!['\n', '\n'] + body + seq!['\0'],
        Some(hs) => command + seq!['\n'] + spec_header_block(hs) + seq!['\n', '\n'] + body
            + seq!['\0'],
    }
}

/// The decimal digit character for a value below ten.
pub open spec fn digit_char(d: int) -> char {
    if d == 0 {
        '0'
    } else if d == 1 {
        '1'
    } else if d == 2 {
        '2'
    } else if d == 3 {
        '3'
    } else if d == 4 {
        '4'
    } else if d == 5 {
        '5'
    } else if d == 6 {
        '6'
    } else if d == 7 {
        '7'
    } else if d == 8 {
        '8'
    } else {
        '9'
    }
}

/// The decimal rendering of a non-negative number, most significant
/// digit first, as the standard formatter writes it.
pub open spec fn spec_decimal(n: int) -> Seq<char>
    decreases n,
{
    if n < 10 {
        seq![digit_char(n)]
    } else {
        spec_decimal(n / 10).push(digit_char(n % 10))
    }
}

/// The frame of a successful decode attempt.
pub open spec fn parsed_frame(b: Seq<u8>) -> SpecFrame {
    match spec_parse(b) {
        SpecParse::Parsed { frame, .. } => frame,
        _ => arbitrary(),
    }
}

/// The bytes a successful decode attempt consumes.
pub open spec fn parsed_used(b: Seq<u8>) -> int {
    match spec_parse(b) {
        SpecParse::Parsed { used, .. } => used,
        _ => arbitrary(),
    }
}

/// A complete frame consumes at least its two terminator bytes and the
/// separator, and never more than the buffer holds.
pub proof fn lemma_parsed_used_bounds(b: Seq<u8>)
    requires
        spec_parse(b) is Parsed,
    ensures
        4 <= parsed_used(b) <= b.len(),
{
    lemma_find_double_lf_spec(b);
}

/// What repeatedly decoding and removing consumed bytes leaves: the
/// frames in order, the bytes not yet consumed, and the fault that
/// stopped the drain, if one did.
pub struct DrainOutcome {
    pub frames: Seq<SpecFrame>,
    pub rest: Seq<u8>,
    pub fault: Option<ParseError>,
}

/// Draining a buffer: decode frames from the front until the buffer
/// needs more data or is malformed.
pub open spec fn spec_drain(b: Seq<u8>) -> DrainOutcome
    decreases b.len(),
    via spec_drain_decreases
{
    match spec_parse(b) {
        SpecParse::NeedMore => DrainOutcome { frames: Seq::empty(), rest: b, fault: None },
        SpecParse::Malformed { why } => DrainOutcome {
            frames: Seq::empty(),
            rest: b,
            fault: Some(why),
        },
        SpecParse::Parsed { frame, used } => {
            let tail = spec_drain(b.skip(used));
            DrainOutcome {
                frames: seq![frame] + tail.frames,
                rest: tail.rest,
                fault: tail.fault,
            }
        },
    }
}

#[via_fn]
proof fn spec_drain_decreases(b: Seq<u8>) {
    if spec_parse(b) is Parsed {
        lemma_parsed_used_bounds(b);
    }
}

} // verus!
