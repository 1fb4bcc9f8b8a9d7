//! The decoder's streaming laws: what truncation, concatenation and
//! completion of buffers do to a decode attempt.

use vstd::prelude::*;
use vstd::utf8::valid_utf8;

use crate::compress::inflated_text_of;
use crate::wire::{
    content_length_of, find_byte, find_double_lf, headers_of_region, lemma_find_byte_spec,
    lemma_find_byte_take, lemma_find_byte_extend, lemma_find_double_lf_spec,
    lemma_find_double_lf_take, lemma_find_double_lf_extend, lf_pair_at, parsed_frame,
    parsed_used, spec_parse, ParseError, SpecParse,
};

verus! {

/// The first line feed comes no later than the first line-feed pair.
proof fn lemma_cmd_end_le_sep(b: Seq<u8>)
    requires
        find_double_lf(b) is Some,
    ensures
        find_byte(b, 10) is Some,
        0 <= find_byte(b, 10)->Some_0 <= find_double_lf(b)->Some_0,
        0 <= find_double_lf(b)->Some_0,
        find_double_lf(b)->Some_0 + 1 < b.len(),
{
    lemma_find_double_lf_spec(b);
    lemma_find_byte_spec(b, 10);
    let sep = find_double_lf(b)->Some_0;
    assert(lf_pair_at(b, sep));
    match find_byte(b, 10) {
        Some(c) => {
            if c > sep {
                assert(b[sep] != 10);
                assert(false);
            }
        },
        None => {
            assert(b[sep] != 10);
            assert(false);
        },
    }
}

/// Any buffer shorter than the smallest possible frame yields
/// "need more data", never an error.  (One exception is carved out of
/// the hypothesis: a command line that is already present and already
/// malformed UTF-8 is reported as malformed, even in a short buffer.)
pub proof fn lemma_short_buffer_needs_more(b: Seq<u8>)
    requires
        b.len() < 4,
        find_double_lf(b) is Some ==> valid_utf8(b.take(find_byte(b, 10)->Some_0)),
    ensures
        spec_parse(b) is NeedMore,
{
    if b.len() >= 2 {
        lemma_find_double_lf_spec(b);
        match find_double_lf(b) {
            None => {},
            Some(sep) => {
                lemma_cmd_end_le_sep(b);
                lemma_find_byte_spec(b, 10);
                let cmd_end = find_byte(b, 10)->Some_0;
                if cmd_end < sep {
                    assert(cmd_end == 0 && sep == 1);
                    assert(lf_pair_at(b, 0));
                    assert(false);
                }
                assert(b.subrange(cmd_end + 1, sep + 1) =~= Seq::<u8>::empty());
                assert(headers_of_region(Seq::<u8>::empty()) =~= Seq::<(
                    Seq<char>,
                    Seq<char>,
                )>::empty());
                assert(b.len() < sep + 4);
            },
        }
    }
}

/// Appending bytes to a buffer that already holds a complete frame
/// changes nothing about the first decode: the same frame is returned
/// and the same bytes are consumed.
pub proof fn lemma_parse_extension(b: Seq<u8>, ext: Seq<u8>)
    requires
        spec_parse(b) is Parsed,
    ensures
        spec_parse(b + ext) == spec_parse(b),
{
    let w = b + ext;
    lemma_find_double_lf_extend(b, ext);
    lemma_cmd_end_le_sep(b);
    lemma_find_byte_extend(b, ext, 10);
    let sep = find_double_lf(b)->Some_0;
    let cmd_end = find_byte(b, 10)->Some_0;
    assert(w.take(cmd_end) =~= b.take(cmd_end));
    assert(w.subrange(cmd_end + 1, sep + 1) =~= b.subrange(cmd_end + 1, sep + 1));
    let region = b.subrange(cmd_end + 1, sep + 1);
    match content_length_of(headers_of_region(region)) {
        None => {
            assert(b.len() >= sep + 4);
            assert(w[sep + 2] == b[sep + 2]);
            assert(w[sep + 3] == b[sep + 3]);
        },
        Some(n) => {
            let body_start = sep + 2;
            let body_end = body_start + n;
            assert(body_end + 2 <= b.len());
            assert(w.subrange(body_start, body_end) =~= b.subrange(body_start, body_end));
            assert(w[body_end] == b[body_end]);
            assert(w[body_end + 1] == b[body_end + 1]);
        },
    }
}

/// Two complete frames concatenated in one buffer decode in order: the
/// first decode consumes exactly the first frame's bytes and leaves the
/// second frame intact for the next attempt.
pub proof fn lemma_frames_decode_in_sequence(a: Seq<u8>, rest: Seq<u8>)
    requires
        spec_parse(a) is Parsed,
        parsed_used(a) == a.len(),
    ensures
        spec_parse(a + rest) is Parsed,
        parsed_frame(a + rest) == parsed_frame(a),
        parsed_used(a + rest) == a.len(),
        (a + rest).skip(a.len() as int) == rest,
{
    lemma_parse_extension(a, rest);
    assert((a + rest).skip(a.len() as int) =~= rest);
}

/// Every strict prefix of a buffer that decodes as one complete frame
/// yields "need more data": the decoder never commits early and never
/// errs on a truncation.
pub proof fn lemma_complete_frame_prefix(b: Seq<u8>, k: int)
    requires
        spec_parse(b) is Parsed,
        parsed_used(b) == b.len(),
        0 <= k < b.len(),
    ensures
        spec_parse(b.take(k)) is NeedMore,
{
    let p = b.take(k);
    if k >= 2 {
        lemma_cmd_end_le_sep(b);
        lemma_find_double_lf_spec(b);
        lemma_find_byte_spec(b, 10);
        let sep = find_double_lf(b)->Some_0;
        let cmd_end = find_byte(b, 10)->Some_0;
        lemma_find_double_lf_take(b, k);
        if sep + 2 <= k {
            lemma_find_byte_take(b, 10, k);
            assert(p.take(cmd_end) =~= b.take(cmd_end));
            assert(p.subrange(cmd_end + 1, sep + 1) =~= b.subrange(cmd_end + 1, sep + 1));
            let region = b.subrange(cmd_end + 1, sep + 1);
            match content_length_of(headers_of_region(region)) {
                None => {
                    assert(b.len() == sep + 4);
                    assert(p.len() < sep + 4);
                },
                Some(n) => {
                    let body_start = sep + 2;
                    let body_end = body_start + n;
                    assert(b.len() == body_end + 2);
                    if body_end <= k {
                        assert(p.subrange(body_start, body_end) =~= b.subrange(
                            body_start,
                            body_end,
                        ));
                        assert(inflated_text_of(b.subrange(body_start, body_end)) is Some);
                        assert(p.len() < body_end + 2);
                    }
                },
            }
        }
    }
}

/// A byte sequence that is one whole frame without a body: the header
/// separator sits directly before the NUL and line-feed terminator, the
/// command line and header region are UTF-8, and no numeric
/// `content-length` header is present.
pub open spec fn complete_bodyless_frame(b: Seq<u8>) -> bool {
    &&& b.len() >= 4
    &&& find_double_lf(b) == Some(b.len() - 4)
    &&& b[b.len() - 2] == 0
    &&& b[b.len() - 1] == 10
    &&& (match find_byte(b, 10) {
        Some(c) => valid_utf8(b.take(c)) && valid_utf8(b.subrange(c + 1, b.len() - 3))
            && content_length_of(headers_of_region(b.subrange(c + 1, b.len() - 3))) is None,
        None => false,
    })
}

/// A complete frame without a body decodes whole: the full buffer
/// yields a parsed frame with no body whose consumed length is the
/// buffer's length, while every strict prefix — in particular every
/// split strictly before the terminating NUL — yields "need more data".
pub proof fn lemma_bodyless_frame_decodes(b: Seq<u8>)
    requires
        complete_bodyless_frame(b),
    ensures
        spec_parse(b) is Parsed,
        parsed_used(b) == b.len(),
        parsed_frame(b).body is None,
        forall|k: int| 0 <= k < b.len() ==> spec_parse(#[trigger] b.take(k)) is NeedMore,
{
    lemma_cmd_end_le_sep(b);
    assert(spec_parse(b) is Parsed);
    assert(parsed_used(b) == b.len());
    assert forall|k: int| 0 <= k < b.len() implies spec_parse(#[trigger] b.take(k)) is NeedMore by {
        lemma_complete_frame_prefix(b, k);
    }
}

/// A byte sequence that is one whole frame with a declared body of `n`
/// wire bytes: a numeric `content-length` header names `n`, exactly `n`
/// body bytes follow the separator, the NUL and line-feed terminator
/// follow them, and the body bytes inflate as gzip text.
pub open spec fn complete_body_frame(b: Seq<u8>, n: usize) -> bool {
    &&& find_double_lf(b) matches Some(sep) && ({
        &&& b.len() == sep + n + 4
        &&& (match find_byte(b, 10) {
            Some(c) => valid_utf8(b.take(c)) && valid_utf8(b.subrange(c + 1, sep + 1))
                && content_length_of(headers_of_region(b.subrange(c + 1, sep + 1))) == Some(n),
            None => false,
        })
        &&& b[sep + 2 + n] == 0
        &&& b[sep + 3 + n] == 10
        &&& inflated_text_of(b.subrange(sep + 2, sep + 2 + n)) is Some
    })
}

/// A complete frame with a `content-length` body decodes whole: the
/// full buffer yields a parsed frame whose body is exactly the inflated
/// text of the `n` declared wire bytes, consuming the whole buffer;
/// and every strict prefix — in particular one holding only `n - 1` of
/// the body bytes — yields "need more data".
pub proof fn lemma_body_frame_decodes(b: Seq<u8>, n: usize)
    requires
        complete_body_frame(b, n),
    ensures
        spec_parse(b) is Parsed,
        parsed_used(b) == b.len(),
        parsed_frame(b).body == inflated_text_of(
            b.subrange(find_double_lf(b)->Some_0 + 2, find_double_lf(b)->Some_0 + 2 + n),
        ),
        forall|k: int| 0 <= k < b.len() ==> spec_parse(#[trigger] b.take(k)) is NeedMore,
{
    lemma_cmd_end_le_sep(b);
    assert(spec_parse(b) is Parsed);
    assert(parsed_used(b) == b.len());
    assert forall|k: int| 0 <= k < b.len() implies spec_parse(#[trigger] b.take(k)) is NeedMore by {
        lemma_complete_frame_prefix(b, k);
    }
}

/// When no `content-length` header is present and both terminator
/// positions are buffered, a terminator byte that is not NUL makes the
/// buffer malformed — a typed error, never a panic.
pub proof fn lemma_wrong_terminator_malformed(b: Seq<u8>)
    requires
        find_double_lf(b) matches Some(sep) && ({
            &&& b.len() >= sep + 4
            &&& b[sep + 2] != 0
            &&& (match find_byte(b, 10) {
                Some(c) => valid_utf8(b.take(c)) && valid_utf8(b.subrange(c + 1, sep + 1))
                    && content_length_of(headers_of_region(b.subrange(c + 1, sep + 1))) is None,
                None => false,
            })
        }),
    ensures
        spec_parse(b) == (SpecParse::Malformed { why: ParseError::MissingNullTerminator }),
{
    lemma_cmd_end_le_sep(b);
}

} // verus!
