//! The frame codec: `create` renders a frame as wire text, `parse`
//! extracts the first complete frame from a byte buffer, and
//! `drain_frames` removes as many complete frames as a buffer holds.
//! Each is proved against the model in `wire`.

use vstd::prelude::*;
use vstd::slice::{slice_index_get, slice_subrange};
use vstd::string::StrSliceExecFns;
use vstd::utf8::valid_utf8;

use crate::compress::gunzip_to_string;
use crate::text::{to_lowercase_string, trim_end_string, utf8_to_string};
use crate::wire::{
    content_length_of, digits_value, find_byte, find_double_lf, header_of_line, headers_of_region,
    is_digit_char, parse_usize_digits, lemma_digits_value_mono, lemma_find_byte_spec, lemma_find_double_lf_spec,
    lemma_ascii_head_valid, lemma_header_block_push, lemma_parsed_used_bounds,
    lemma_split_at_ascii, lemma_unescape_value_preserves_utf8, lf_pair_at, replace_pair,
    spec_create,
    spec_drain, spec_header_block, spec_parse, spec_parse_usize, strip_trailing_cr,
    unescape_value, SpecFrame, SpecParse,
};

pub use crate::wire::ParseError;

verus! {

/// One protocol frame: a command, the header pairs in order of
/// appearance (names lower-cased on decode, duplicates allowed), and an
/// optional body.
#[derive(Debug, PartialEq)]
pub struct Frame {
    pub command: String,
    pub headers: Vec<(String, String)>,
    pub body: Option<String>,
}

/// The character-level view of a list of header pairs.
pub open spec fn hview(hs: Seq<(String, String)>) -> Seq<(Seq<char>, Seq<char>)> {
    Seq::new(hs.len(), |i: int| (hs[i].0@, hs[i].1@))
}

impl View for Frame {
    type V = SpecFrame;

    open spec fn view(&self) -> SpecFrame {
        SpecFrame {
            command: self.command@,
            headers: hview(self.headers@),
            body: match self.body {
                Some(s) => Some(s@),
                None => None,
            },
        }
    }
}

/// First occurrence of `x` in a byte slice.
fn find_byte_in(v: &[u8], x: u8) -> (r: Option<usize>)
    ensures
        match r {
            Some(i) => find_byte(v@, x) == Some(i as int),
            None => find_byte(v@, x) is None,
        },
{
    let n = v.len();
    let mut i: usize = 0;
    while i < n
        invariant
            i <= n,
            n == v@.len(),
            forall|q: int| 0 <= q < i ==> v@[q] != x,
        decreases n - i,
    {
        if *slice_index_get(v, i) == x {
            proof {
                lemma_find_byte_spec(v@, x);
            }
            return Some(i);
        }
        i = i + 1;
    }
    proof {
        lemma_find_byte_spec(v@, x);
    }
    None
}

/// First line-feed pair in a byte slice.
fn find_double_lf_in(v: &[u8]) -> (r: Option<usize>)
    ensures
        match r {
            Some(p) => find_double_lf(v@) == Some(p as int),
            None => find_double_lf(v@) is None,
        },
{
    let n = v.len();
    if n < 2 {
        return None;
    }
    let mut i: usize = 0;
    while i + 1 < n
        invariant
            i + 1 <= n,
            n == v@.len(),
            n >= 2,
            forall|q: int| 0 <= q < i ==> !lf_pair_at(v@, q),
        decreases n - i,
    {
        if *slice_index_get(v, i) == 10 && *slice_index_get(v, i + 1) == 10 {
            proof {
                lemma_find_double_lf_spec(v@);
                assert(lf_pair_at(v@, i as int));
            }
            return Some(i);
        }
        proof {
            assert(!lf_pair_at(v@, i as int));
        }
        i = i + 1;
    }
    proof {
        lemma_find_double_lf_spec(v@);
    }
    None
}

/// One escape substitution pass over bytes, as `replace_pair` describes.
fn replace_pair_exec(v: &[u8], p1: u8, r: u8) -> (out: Vec<u8>)
    ensures
        out@ == replace_pair(v@, p1, r),
{
    let n = v.len();
    let mut out: Vec<u8> = Vec::new();
    let mut i: usize = 0;
    proof {
        assert(v@.skip(0) =~= v@);
        assert(out@ + replace_pair(v@, p1, r) =~= replace_pair(v@, p1, r));
    }
    while i < n
        invariant
            i <= n,
            n == v@.len(),
            out@ + replace_pair(v@.skip(i as int), p1, r) == replace_pair(v@, p1, r),
        decreases n - i,
    {
        let b0 = *slice_index_get(v, i);
        if i + 1 < n && b0 == 92 && *slice_index_get(v, i + 1) == p1 {
            proof {
                assert(v@.skip(i as int).skip(2) =~= v@.skip(i + 2));
                assert(out@.push(r) + replace_pair(v@.skip(i + 2), p1, r) =~= out@ + (seq![r]
                    + replace_pair(v@.skip(i + 2), p1, r)));
            }
            out.push(r);
            i = i + 2;
        } else {
            proof {
                assert(v@.skip(i as int).skip(1) =~= v@.skip(i + 1));
                if i + 1 >= n {
                    assert(v@.skip(i as int) =~= seq![v@[i as int]]);
                    assert(v@.skip(i + 1) =~= Seq::<u8>::empty());
                }
                assert(out@.push(v@[i as int]) + replace_pair(v@.skip(i + 1), p1, r) =~= out@ + (
                seq![v@[i as int]] + replace_pair(v@.skip(i + 1), p1, r)));
            }
            out.push(b0);
            i = i + 1;
        }
    }
    proof {
        assert(v@.skip(n as int) =~= Seq::<u8>::empty());
        assert(out@ + Seq::<u8>::empty() =~= out@);
    }
    out
}

/// The decoder's escape substitution, in its fixed order.
fn unescape_exec(v: &[u8]) -> (out: Vec<u8>)
    ensures
        out@ == unescape_value(v@),
{
    let a = replace_pair_exec(v, 114, 13);
    let b = replace_pair_exec(a.as_slice(), 110, 10);
    let c = replace_pair_exec(b.as_slice(), 99, 58);
    replace_pair_exec(c.as_slice(), 92, 92)
}

/// Reads a header value the way `str::parse::<usize>` would.
fn parse_usize_str(s: &str) -> (r: Option<usize>)
    ensures
        r == spec_parse_usize(s@),
{
    let n = s.unicode_len();
    let mut i: usize = 0;
    if n > 0 {
        let c0 = s.get_char(0);
        if c0 == '+' {
            i = 1;
        }
    }
    let ghost t: Seq<char> = s@.skip(i as int);
    proof {
        if s@.len() > 0 && s@[0] == '+' {
            assert(t =~= s@.drop_first());
        } else {
            assert(t =~= s@);
        }
        assert(spec_parse_usize(s@) == parse_usize_digits(t));
    }
    if i >= n {
        return None;
    }
    let mut acc: usize = 0;
    let mut j = i;
    while j < n
        invariant
            i <= j <= n,
            n == s@.len(),
            t == s@.skip(i as int),
            t.len() == n - i,
            spec_parse_usize(s@) == parse_usize_digits(t),
            forall|q: int| 0 <= q < j - i ==> is_digit_char(t[q]),
            acc == digits_value(t.take(j - i)),
        decreases n - j,
    {
        let c = s.get_char(j);
        let cu = c as u32;
        if cu < 48 || cu > 57 {
            proof {
                assert(0 <= j - i < t.len() && !is_digit_char(t[j - i]));
                assert(!crate::wire::all_digits(t));
            }
            return None;
        }
        let d = (cu - 48) as usize;
        proof {
            assert(t.take(j - i + 1).drop_last() =~= t.take(j - i));
            assert(t.take(j - i + 1).last() == t[j - i]);
            assert(digits_value(t.take(j - i + 1)) == acc * 10 + d);
        }
        let m = match acc.checked_mul(10) {
            Some(m) => m,
            None => {
                proof {
                    lemma_digits_value_mono(t, j - i + 1);
                    assert(digits_value(t) > usize::MAX);
                }
                return None;
            },
        };
        let a2 = match m.checked_add(d) {
            Some(a2) => a2,
            None => {
                proof {
                    lemma_digits_value_mono(t, j - i + 1);
                    assert(digits_value(t) > usize::MAX);
                }
                return None;
            },
        };
        acc = a2;
        j = j + 1;
    }
    proof {
        assert(t.take(n - i) =~= t);
    }
    Some(acc)
}

/// The header pair one stripped line contributes, if any.
fn header_of_line_exec(line: &[u8]) -> (r: Option<(String, String)>)
    requires
        valid_utf8(line@),
    ensures
        match r {
            Some(p) => header_of_line(line@) == Some((p.0@, p.1@)),
            None => header_of_line(line@) is None,
        },
{
    let n = line.len();
    if n == 0 {
        return None;
    }
    let k = match find_byte_in(line, 58) {
        Some(k) => k,
        None => {
            return None;
        },
    };
    if k == 0 {
        return None;
    }
    proof {
        lemma_find_byte_spec(line@, 58);
        lemma_split_at_ascii(line@, k as int);
        assert(line@.take(k as int) =~= line@.subrange(0, k as int));
        lemma_ascii_head_valid(line@.skip(k as int));
        assert(line@.skip(k as int).skip(1) =~= line@.skip(k + 1));
        lemma_unescape_value_preserves_utf8(line@.skip(k + 1));
    }
    let name_b = slice_subrange(line, 0, k);
    let name_s = match utf8_to_string(name_b) {
        Some(s) => s,
        None => {
            proof {
                assert(false);
            }
            return None;
        },
    };
    let lc = to_lowercase_string(name_s.as_str());
    let value_raw = slice_subrange(line, k + 1, n);
    proof {
        assert(line@.skip(k + 1) =~= line@.subrange(k + 1, n as int));
    }
    let value_b = unescape_exec(value_raw);
    let value_s = match utf8_to_string(value_b.as_slice()) {
        Some(s) => s,
        None => {
            proof {
                assert(false);
            }
            return None;
        },
    };
    Some((lc, value_s))
}

/// Splits the header region into lines and collects their header pairs.
fn parse_header_region(region: &[u8]) -> (out: Vec<(String, String)>)
    requires
        valid_utf8(region@),
    ensures
        hview(out@) == headers_of_region(region@),
{
    let n = region.len();
    let mut out: Vec<(String, String)> = Vec::new();
    let mut i: usize = 0;
    proof {
        assert(region@.skip(0) =~= region@);
        assert(hview(out@) + headers_of_region(region@) =~= headers_of_region(region@));
    }
    while i < n
        invariant
            i <= n,
            n == region@.len(),
            valid_utf8(region@.skip(i as int)),
            hview(out@) + headers_of_region(region@.skip(i as int)) == headers_of_region(region@),
        decreases n - i,
    {
        let rest = slice_subrange(region, i, n);
        proof {
            assert(rest@ =~= region@.skip(i as int));
        }
        let ghost pre = out@;
        match find_byte_in(rest, 10) {
            None => {
                match header_of_line_exec(rest) {
                    Some(p) => {
                        let ghost pv = (p.0@, p.1@);
                        out.push(p);
                        proof {
                            assert(hview(out@) =~= hview(pre) + seq![pv]);
                            assert(headers_of_region(rest@) == seq![pv]);
                            assert(hview(pre) + seq![pv] + Seq::<(Seq<char>, Seq<char>)>::empty()
                                =~= hview(pre) + headers_of_region(rest@));
                        }
                    },
                    None => {
                        proof {
                            assert(headers_of_region(rest@) =~= Seq::<(Seq<char>, Seq<char>)>::empty());
                            assert(hview(out@) + Seq::<(Seq<char>, Seq<char>)>::empty() =~= hview(
                                out@,
                            ));
                        }
                    },
                }
                i = n;
                proof {
                    assert(region@.skip(n as int) =~= Seq::<u8>::empty());
                    assert(valid_utf8(Seq::<u8>::empty()));
                    assert(headers_of_region(Seq::<u8>::empty()) =~= Seq::<(
                        Seq<char>,
                        Seq<char>,
                    )>::empty());
                    assert(hview(out@) + Seq::<(Seq<char>, Seq<char>)>::empty() =~= hview(out@));
                }
            },
            Some(j_rel) => {
                proof {
                    lemma_find_byte_spec(rest@, 10);
                }
                let j = i + j_rel;
                let mut line_end = j;
                if j_rel > 0 && *slice_index_get(region, j - 1) == 13 {
                    line_end = j - 1;
                }
                let line = slice_subrange(region, i, line_end);
                proof {
                    assert(rest@.take(j_rel as int) =~= region@.subrange(i as int, j as int));
                    if j_rel > 0 && region@[j - 1] == 13 {
                        assert(region@.subrange(i as int, j as int).drop_last() =~= region@.subrange(
                            i as int,
                            j - 1,
                        ));
                    }
                    assert(strip_trailing_cr(rest@.take(j_rel as int)) =~= line@);
                    assert(rest@.skip(j_rel + 1) =~= region@.skip(j + 1));
                    lemma_split_at_ascii(rest@, j_rel as int);
                    if j_rel > 0 && region@[j - 1] == 13 {
                        lemma_split_at_ascii(rest@.take(j_rel as int), j_rel - 1);
                        assert(rest@.take(j_rel as int).take(j_rel - 1) =~= region@.subrange(
                            i as int,
                            j - 1,
                        ));
                    }
                    assert(valid_utf8(line@));
                    lemma_ascii_head_valid(rest@.skip(j_rel as int));
                    assert(rest@.skip(j_rel as int).skip(1) =~= region@.skip(j + 1));
                }
                let ghost line_part = match header_of_line(line@) {
                    Some(h) => seq![h],
                    None => Seq::<(Seq<char>, Seq<char>)>::empty(),
                };
                match header_of_line_exec(line) {
                    Some(p) => {
                        let ghost pv = (p.0@, p.1@);
                        out.push(p);
                        proof {
                            assert(hview(out@) =~= hview(pre) + seq![pv]);
                            assert(line_part =~= seq![pv]);
                        }
                    },
                    None => {
                        proof {
                            assert(hview(out@) + line_part =~= hview(out@));
                        }
                    },
                }
                i = j + 1;
                proof {
                    assert(headers_of_region(region@.skip(i - 1 - j_rel)) == line_part
                        + headers_of_region(region@.skip(i as int)));
                    assert(hview(pre) + (line_part + headers_of_region(region@.skip(i as int)))
                        =~= (hview(pre) + line_part) + headers_of_region(region@.skip(i as int)));
                }
            },
        }
    }
    proof {
        assert(region@.skip(n as int) =~= Seq::<u8>::empty());
        assert(hview(out@) + headers_of_region(Seq::<u8>::empty()) =~= hview(out@));
    }
    out
}

/// Finds the declared body length among decoded headers.
fn content_length_exec(headers: &Vec<(String, String)>) -> (r: Option<usize>)
    ensures
        r == content_length_of(hview(headers@)),
{
    let target: String = crate::header::Headers::ContentLength.as_str().to_owned();
    let n = headers.len();
    let mut i: usize = 0;
    proof {
        assert(hview(headers@).skip(0) =~= hview(headers@));
    }
    while i < n
        invariant
            i <= n,
            n == headers@.len(),
            target@ == "content-length"@,
            content_length_of(hview(headers@)) == content_length_of(
                hview(headers@).skip(i as int),
            ),
        decreases n - i,
    {
        proof {
            let ghost pair = headers@[i as int];
            assert(hview(headers@).skip(i as int)[0] == (pair.0@, pair.1@));
            assert(hview(headers@).skip(i as int).drop_first() =~= hview(headers@).skip(i + 1));
        }
        if headers[i].0 == target {
            match parse_usize_str(headers[i].1.as_str()) {
                Some(v) => {
                    return Some(v);
                },
                None => {},
            }
        }
        i = i + 1;
    }
    None
}

/// Whether an executable decode result is exactly what the model says.
pub open spec fn parse_models(r: Result<Option<(Frame, usize)>, ParseError>, s: SpecParse) -> bool {
    match s {
        SpecParse::NeedMore => r == Result::<Option<(Frame, usize)>, ParseError>::Ok(
            None::<(Frame, usize)>,
        ),
        SpecParse::Malformed { why } => r == Result::<Option<(Frame, usize)>, ParseError>::Err(why),
        SpecParse::Parsed { frame, used } => match r {
            Ok(Some((f, m))) => f@ == frame && m == used,
            _ => false,
        },
    }
}

/// Attempts to extract the first complete frame from a byte buffer.
///
/// Returns `Ok(None)` when the buffer does not yet hold a complete frame
/// (more bytes may still arrive), `Ok(Some((frame, used)))` when one
/// spans the buffer's first `used` bytes, and `Err` when the start of
/// the buffer can never become a frame.  The buffer itself is not
/// changed; the caller removes the first `used` bytes afterwards.
pub fn parse(buffer: &Vec<u8>) -> (r: Result<Option<(Frame, usize)>, ParseError>)
    ensures
        parse_models(r, spec_parse(buffer@)),
{
    let n = buffer.len();
    if n < 2 {
        return Ok(None);
    }
    let sl = buffer.as_slice();
    let sep = match find_double_lf_in(sl) {
        Some(sep) => sep,
        None => {
            return Ok(None);
        },
    };
    let cmd_end = match find_byte_in(sl, 10) {
        Some(c) => c,
        None => {
            proof {
                lemma_find_double_lf_spec(buffer@);
                lemma_find_byte_spec(buffer@, 10);
                assert(lf_pair_at(buffer@, sep as int));
                assert(false);
            }
            return Ok(None);
        },
    };
    proof {
        lemma_find_double_lf_spec(buffer@);
        lemma_find_byte_spec(buffer@, 10);
        assert(lf_pair_at(buffer@, sep as int));
        assert(cmd_end <= sep);
    }
    let cmd_b = slice_subrange(sl, 0, cmd_end);
    proof {
        assert(cmd_b@ =~= buffer@.take(cmd_end as int));
    }
    let cmd_s = match utf8_to_string(cmd_b) {
        Some(s) => s,
        None => {
            return Err(ParseError::CommandNotUtf8);
        },
    };
    let command = trim_end_string(cmd_s.as_str());
    let region = slice_subrange(sl, cmd_end + 1, sep + 1);
    match utf8_to_string(region) {
        Some(_) => {},
        None => {
            return Err(ParseError::HeadersNotUtf8);
        },
    }
    let headers = parse_header_region(region);
    match content_length_exec(&headers) {
        None => {
            if n - sep < 4 {
                return Ok(None);
            }
            if *slice_index_get(sl, sep + 2) != 0 {
                return Err(ParseError::MissingNullTerminator);
            }
            if *slice_index_get(sl, sep + 3) != 10 {
                return Err(ParseError::MissingLineFeedTerminator);
            }
            let frame = Frame { command, headers, body: None };
            Ok(Some((frame, sep + 4)))
        },
        Some(len) => {
            let body_start = sep + 2;
            if len > n - body_start {
                return Ok(None);
            }
            let body_end = body_start + len;
            let body_b = slice_subrange(sl, body_start, body_end);
            let body_s = match gunzip_to_string(body_b) {
                Some(s) => s,
                None => {
                    return Err(ParseError::BodyDecompressionFailed);
                },
            };
            if n - body_end < 2 {
                return Ok(None);
            }
            if *slice_index_get(sl, body_end) != 0 {
                return Err(ParseError::MissingNullTerminator);
            }
            if *slice_index_get(sl, body_end + 1) != 10 {
                return Err(ParseError::MissingLineFeedTerminator);
            }
            let frame = Frame { command, headers, body: Some(body_s) };
            Ok(Some((frame, body_end + 2)))
        },
    }
}

/// The character-level view of borrowed header pairs.
pub open spec fn hview_ref(hs: Seq<(&str, &str)>) -> Seq<(Seq<char>, Seq<char>)> {
    Seq::new(hs.len(), |i: int| (hs[i].0@, hs[i].1@))
}

/// Renders a frame as wire text: the command line, the header lines,
/// the blank separator line, the body text and a NUL.  Header values
/// are not escaped and no `content-length` header is added: a caller
/// that wants a length-delimited compressed body adds that header and
/// compresses the body itself.
pub fn create(command: &str, headers: Option<Vec<(&str, &str)>>, body: Option<&str>) -> (r: String)
    ensures
        r@ == spec_create(
            command@,
            match headers {
                Some(hs) => Some(hview_ref(hs@)),
                None => None,
            },
            match body {
                Some(b) => b@,
                None => Seq::empty(),
            },
        ),
{
    let mut out = String::new();
    out.append(command);
    match headers {
        None => {
            proof {
                reveal_strlit("\n");
                assert("\n"@ =~= seq!['\n']);
            }
            out.append("\n");
            out.append("\n");
            proof {
                assert(out@ =~= command@ + seq!['\n', '\n']);
            }
        },
        Some(hs) => {
            proof {
                reveal_strlit("\n");
                assert("\n"@ =~= seq!['\n']);
            }
            out.append("\n");
            let n = hs.len();
            let mut i: usize = 0;
            proof {
                assert(hview_ref(hs@).take(0) =~= Seq::<(Seq<char>, Seq<char>)>::empty());
                assert(out@ =~= command@ + seq!['\n'] + spec_header_block(hview_ref(hs@).take(0)));
            }
            while i < n
                invariant
                    i <= n,
                    n == hs@.len(),
                    out@ == command@ + seq!['\n'] + spec_header_block(hview_ref(hs@).take(i as int)),
                decreases n - i,
            {
                proof {
                    reveal_strlit("\n");
                    reveal_strlit(":");
                    assert("\n"@ =~= seq!['\n']);
                    assert(":"@ =~= seq![':']);
                }
                if i > 0 {
                    out.append("\n");
                }
                let pair = hs[i];
                out.append(pair.0);
                out.append(":");
                out.append(pair.1);
                proof {
                    let ghost hv = (hs@[i as int].0@, hs@[i as int].1@);
                    lemma_header_block_push(hview_ref(hs@).take(i as int), hv);
                    assert(hview_ref(hs@).take(i + 1) =~= hview_ref(hs@).take(i as int).push(hv));
                    assert(out@ =~= command@ + seq!['\n'] + spec_header_block(
                        hview_ref(hs@).take(i + 1),
                    ));
                }
                i = i + 1;
            }
            proof {
                reveal_strlit("\n");
                assert("\n"@ =~= seq!['\n']);
                assert(hview_ref(hs@).take(n as int) =~= hview_ref(hs@));
            }
            out.append("\n");
            out.append("\n");
            proof {
                assert(out@ =~= command@ + seq!['\n'] + spec_header_block(hview_ref(hs@))
                    + seq!['\n', '\n']);
            }
        },
    }
    match body {
        Some(b) => out.append(b),
        None => {},
    }
    proof {
        reveal_strlit("\0");
        assert("\0"@ =~= seq!['\0']);
    }
    out.append("\0");
    proof {
        assert(out@ =~= spec_create(
            command@,
            match headers {
                Some(hs) => Some(hview_ref(hs@)),
                None => None,
            },
            match body {
                Some(b) => b@,
                None => Seq::empty(),
            },
        ));
    }
    out
}

/// The views of a list of decoded frames.
pub open spec fn fview(fs: Seq<Frame>) -> Seq<SpecFrame> {
    Seq::new(fs.len(), |i: int| fs[i]@)
}

/// Removes every complete frame from the front of `pending`, in order.
///
/// Afterwards the buffer begins at the start of the next, incomplete
/// frame (or is empty).  When a decode attempt reports a malformed
/// buffer, the frames already extracted are returned together with the
/// fault, and the buffer keeps the malformed bytes.
pub fn drain_frames(pending: &mut Vec<u8>) -> (r: (Vec<Frame>, Option<ParseError>))
    ensures
        fview(r.0@) == spec_drain(old(pending)@).frames,
        final(pending)@ == spec_drain(old(pending)@).rest,
        r.1 == spec_drain(old(pending)@).fault,
{
    let mut frames: Vec<Frame> = Vec::new();
    proof {
        assert(fview(frames@) + spec_drain(pending@).frames =~= spec_drain(pending@).frames);
    }
    loop
        invariant
            spec_drain(old(pending)@).frames == fview(frames@) + spec_drain(pending@).frames,
            spec_drain(old(pending)@).rest == spec_drain(pending@).rest,
            spec_drain(old(pending)@).fault == spec_drain(pending@).fault,
        decreases pending@.len(),
    {
        match parse(pending) {
            Ok(None) => {
                proof {
                    assert(fview(frames@) + Seq::<SpecFrame>::empty() =~= fview(frames@));
                }
                return (frames, None);
            },
            Err(e) => {
                proof {
                    assert(fview(frames@) + Seq::<SpecFrame>::empty() =~= fview(frames@));
                }
                return (frames, Some(e));
            },
            Ok(Some((f, used))) => {
                proof {
                    lemma_parsed_used_bounds(pending@);
                }
                let ghost prev = pending@;
                let ghost pre_frames = frames@;
                let tail = pending.split_off(used);
                *pending = tail;
                proof {
                    assert(pending@ =~= prev.skip(used as int));
                }
                let ghost fv = f@;
                frames.push(f);
                proof {
                    assert(fview(frames@) =~= fview(pre_frames) + seq![fv]);
                    assert(spec_drain(prev).frames == seq![fv] + spec_drain(pending@).frames);
                    assert(fview(pre_frames) + (seq![fv] + spec_drain(pending@).frames)
                        =~= (fview(pre_frames) + seq![fv]) + spec_drain(pending@).frames);
                }
            },
        }
    }
}

} // verus!
