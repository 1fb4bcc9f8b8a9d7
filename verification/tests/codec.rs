use std::io::Write;

use stomp_client::frame::{create, parse, Frame, ParseError};
use stomp_client::header::Headers;

fn gzip(text: &str) -> Vec<u8> {
    let mut encoder = flate2::write::GzEncoder::new(Vec::new(), flate2::Compression::default());
    encoder.write_all(text.as_bytes()).unwrap();
    encoder.finish().unwrap()
}

fn body_frame(command: &str, extra_headers: &[(&str, &str)], text: &str) -> Vec<u8> {
    let compressed = gzip(text);
    let mut buf = Vec::new();
    buf.extend_from_slice(command.as_bytes());
    buf.push(b'\n');
    for (name, value) in extra_headers {
        buf.extend_from_slice(name.as_bytes());
        buf.push(b':');
        buf.extend_from_slice(value.as_bytes());
        buf.push(b'\n');
    }
    buf.extend_from_slice(format!("content-length:{}\n\n", compressed.len()).as_bytes());
    buf.extend_from_slice(&compressed);
    buf.push(0);
    buf.push(b'\n');
    buf
}

fn parsed(buf: &Vec<u8>) -> (Frame, usize) {
    parse(buf).unwrap().unwrap()
}

#[test]
fn short_buffers_need_more_data() {
    for bytes in [&b""[..], b"S", b"SE", b"\n\n", b"\n\nx", b"SEND"] {
        let buf = bytes.to_vec();
        assert!(matches!(parse(&buf), Ok(None)));
    }
}

#[test]
fn bodyless_frame_prefixes_need_more_data() {
    let buf = b"SEND\ndestination:/queue/a\n\n\0\n".to_vec();
    let nul_position = buf.len() - 2;
    for split in 0..nul_position {
        let prefix = buf[..split].to_vec();
        assert!(matches!(parse(&prefix), Ok(None)), "split at {}", split);
    }
    let (frame, used) = parsed(&buf);
    assert_eq!(used, buf.len());
    assert_eq!(frame.command, "SEND");
    assert_eq!(
        frame.headers,
        vec![("destination".to_string(), "/queue/a".to_string())]
    );
    assert_eq!(frame.body, None);
}

#[test]
fn body_arrives_byte_by_byte() {
    let buf = body_frame("MESSAGE", &[], "hello");
    // every strict prefix, in particular the one missing only the last
    // body byte before the terminator, still waits for more data
    for split in 0..buf.len() {
        let prefix = buf[..split].to_vec();
        assert!(matches!(parse(&prefix), Ok(None)), "split at {}", split);
    }
    let (frame, used) = parsed(&buf);
    assert_eq!(used, buf.len());
    assert_eq!(frame.command, "MESSAGE");
    assert_eq!(frame.body, Some("hello".to_string()));
}

#[test]
fn two_frames_decode_in_order() {
    let first = b"CONNECTED\nversion:1.2\n\n\0\n".to_vec();
    let second = body_frame("MESSAGE", &[("destination", "/queue/a")], "payload");
    let mut buf = first.clone();
    buf.extend_from_slice(&second);

    let (frame_a, used_a) = parsed(&buf);
    assert_eq!(used_a, first.len());
    assert_eq!(frame_a.command, "CONNECTED");
    assert_eq!(frame_a.body, None);

    let remainder = buf[used_a..].to_vec();
    assert_eq!(remainder, second);
    let (frame_b, used_b) = parsed(&remainder);
    assert_eq!(used_b, second.len());
    assert_eq!(frame_b.command, "MESSAGE");
    assert_eq!(frame_b.body, Some("payload".to_string()));
}

#[test]
fn compressed_body_round_trips() {
    let text = "Lorem ipsum dolor sit amet — zażółć gęślą jaźń";
    let buf = body_frame("MESSAGE", &[], text);
    let (frame, _) = parsed(&buf);
    assert_eq!(frame.body, Some(text.to_string()));
}

#[test]
fn wrong_terminator_is_malformed_not_a_panic() {
    let buf = b"SEND\na:b\n\nX\n".to_vec();
    assert_eq!(parse(&buf), Err(ParseError::MissingNullTerminator));
}

#[test]
fn missing_line_feed_after_nul_is_malformed() {
    let buf = b"SEND\na:b\n\n\0X".to_vec();
    assert_eq!(parse(&buf), Err(ParseError::MissingLineFeedTerminator));
}

#[test]
fn header_value_escapes_apply_in_fixed_order() {
    let buf = b"SEND\nh:a\\cb\\nc\n\n\0\n".to_vec();
    let (frame, _) = parsed(&buf);
    assert_eq!(frame.headers, vec![("h".to_string(), "a:b\nc".to_string())]);
}

#[test]
fn escape_substitution_is_a_sequence_of_replacements() {
    // `\\n` loses its backslash to the `\n` pass before the `\\` pass runs
    let buf = b"SEND\nh:a\\\\nb\n\n\0\n".to_vec();
    let (frame, _) = parsed(&buf);
    assert_eq!(frame.headers, vec![("h".to_string(), "a\\\nb".to_string())]);
}

#[test]
fn encoder_emits_exact_wire_text() {
    assert_eq!(create("CONNECT", None, Some("x")), "CONNECT\n\nx\0");
    assert_eq!(create("CONNECT", None, None), "CONNECT\n\n\0");
    assert_eq!(create("CMD", Some(vec![]), Some("x")), "CMD\n\n\nx\0");
    assert_eq!(
        create("SEND", Some(vec![("destination", "/queue/a")]), Some("hi")),
        "SEND\ndestination:/queue/a\n\nhi\0"
    );
    // no escaping is applied to header values on encode
    assert_eq!(
        create("SEND", Some(vec![("h", "a:b")]), None),
        "SEND\nh:a:b\n\n\0"
    );
}

#[test]
fn encoder_adds_no_framing_headers() {
    // the encoder leaves `content-length` to its caller: without it the
    // decoder relies on the terminator alone, so inline body text makes
    // the encoded bytes undecodable rather than a frame with a body
    let encoded = create("SEND", Some(vec![("destination", "/queue/a")]), Some("hi"));
    let buf = encoded.clone().into_bytes();
    assert_eq!(parse(&buf), Err(ParseError::MissingNullTerminator));

    // a bodyless frame, completed with the line feed the receive side
    // expects, decodes back with its headers intact and no body
    let encoded = create("SEND", Some(vec![("destination", "/queue/a")]), None);
    let mut buf = encoded.into_bytes();
    buf.push(b'\n');
    let (frame, used) = parsed(&buf);
    assert_eq!(used, buf.len());
    assert_eq!(frame.command, "SEND");
    assert_eq!(
        frame.headers,
        vec![("destination".to_string(), "/queue/a".to_string())]
    );
    assert_eq!(frame.body, None);
}

#[test]
fn header_names_are_lowercased_values_kept() {
    let buf = b"SEND\nFOO-Bar:Baz\n\n\0\n".to_vec();
    let (frame, _) = parsed(&buf);
    assert_eq!(frame.headers, vec![("foo-bar".to_string(), "Baz".to_string())]);
}

#[test]
fn lines_without_colon_or_name_are_discarded() {
    let buf = b"SEND\nnocolon\n:anonymous\nok:v\n\n\0\n".to_vec();
    let (frame, _) = parsed(&buf);
    assert_eq!(frame.headers, vec![("ok".to_string(), "v".to_string())]);
}

#[test]
fn carriage_returns_are_trimmed() {
    let buf = b"SEND\r\ndestination:/queue/a\r\n\n\0\n".to_vec();
    let (frame, _) = parsed(&buf);
    assert_eq!(frame.command, "SEND");
    assert_eq!(
        frame.headers,
        vec![("destination".to_string(), "/queue/a".to_string())]
    );
}

#[test]
fn invalid_command_utf8_is_malformed() {
    let buf = vec![0xFF, b'\n', b'\n'];
    assert_eq!(parse(&buf), Err(ParseError::CommandNotUtf8));
}

#[test]
fn invalid_header_utf8_is_malformed() {
    let mut buf = b"SEND\nh:".to_vec();
    buf.push(0xFF);
    buf.extend_from_slice(b"\n\n\0\n");
    assert_eq!(parse(&buf), Err(ParseError::HeadersNotUtf8));
}

#[test]
fn undecompressable_body_is_malformed() {
    let buf = b"SEND\ncontent-length:3\n\nabc\0\n".to_vec();
    assert_eq!(parse(&buf), Err(ParseError::BodyDecompressionFailed));
}

#[test]
fn non_numeric_content_length_is_tolerated_as_absent() {
    let buf = b"SEND\ncontent-length:soon\n\n\0\n".to_vec();
    let (frame, used) = parsed(&buf);
    assert_eq!(used, buf.len());
    assert_eq!(frame.body, None);
    assert_eq!(
        frame.headers,
        vec![("content-length".to_string(), "soon".to_string())]
    );
}

#[test]
fn first_numeric_content_length_wins() {
    let compressed = gzip("zip");
    let mut buf = format!(
        "MESSAGE\ncontent-length:none\ncontent-length:{}\n\n",
        compressed.len()
    )
    .into_bytes();
    buf.extend_from_slice(&compressed);
    buf.push(0);
    buf.push(b'\n');
    let (frame, used) = parsed(&buf);
    assert_eq!(used, buf.len());
    assert_eq!(frame.body, Some("zip".to_string()));
}

#[test]
fn content_length_accepts_a_leading_plus() {
    let compressed = gzip("plus");
    let mut buf = format!("MESSAGE\ncontent-length:+{}\n\n", compressed.len()).into_bytes();
    buf.extend_from_slice(&compressed);
    buf.push(0);
    buf.push(b'\n');
    let (frame, _) = parsed(&buf);
    assert_eq!(frame.body, Some("plus".to_string()));
}

#[test]
fn oversized_content_length_is_treated_as_absent() {
    let buf = b"SEND\ncontent-length:99999999999999999999999\n\n\0\n".to_vec();
    let (frame, used) = parsed(&buf);
    assert_eq!(used, buf.len());
    assert_eq!(frame.body, None);
}

#[test]
fn reserved_header_names() {
    assert_eq!(Headers::ContentLength.as_str(), "content-length");
    assert_eq!(Headers::ContentType.as_str(), "content_hyphen_type");
}
