use std::io::Write;

use stomp_client::frame::{drain_frames, ParseError};
use stomp_client::session::{connect_frame, subscribe_frame};

fn gzip(text: &str) -> Vec<u8> {
    let mut encoder = flate2::write::GzEncoder::new(Vec::new(), flate2::Compression::default());
    encoder.write_all(text.as_bytes()).unwrap();
    encoder.finish().unwrap()
}

#[test]
fn connect_frame_matches_wire_text() {
    assert_eq!(
        connect_frame("broker.example", "user", "pw"),
        "CONNECT\naccept-version:1.2\nhost:broker.example\nheart-beat:0,0\nlogin:user\npasscode:pw\n\n\0"
    );
}

#[test]
fn subscribe_frame_matches_wire_text() {
    assert_eq!(
        subscribe_frame(42, "/topic/news"),
        "SUBSCRIBE\nid:42\ndestination:/topic/news\nack:auto\n\n\0"
    );
    assert_eq!(
        subscribe_frame(0, "/queue/a"),
        "SUBSCRIBE\nid:0\ndestination:/queue/a\nack:auto\n\n\0"
    );
    assert_eq!(
        subscribe_frame(4294967295, "/queue/a"),
        "SUBSCRIBE\nid:4294967295\ndestination:/queue/a\nack:auto\n\n\0"
    );
}

#[test]
fn drain_extracts_complete_frames_and_keeps_the_tail() {
    let compressed = gzip("inner");
    let mut pending = b"CONNECTED\nversion:1.2\n\n\0\n".to_vec();
    pending.extend_from_slice(
        format!("MESSAGE\ncontent-length:{}\n\n", compressed.len()).as_bytes(),
    );
    pending.extend_from_slice(&compressed);
    pending.extend_from_slice(b"\0\n");
    pending.extend_from_slice(b"MESSAGE\npartial");

    let (frames, fault) = drain_frames(&mut pending);
    assert!(fault.is_none());
    assert_eq!(frames.len(), 2);
    assert_eq!(frames[0].command, "CONNECTED");
    assert_eq!(frames[0].body, None);
    assert_eq!(frames[1].command, "MESSAGE");
    assert_eq!(frames[1].body, Some("inner".to_string()));
    assert_eq!(pending, b"MESSAGE\npartial".to_vec());
}

#[test]
fn drain_reports_a_fault_after_the_good_frames() {
    let mut pending = b"CONNECTED\nversion:1.2\n\n\0\nBROKEN\n\nX\n".to_vec();
    let (frames, fault) = drain_frames(&mut pending);
    assert_eq!(frames.len(), 1);
    assert_eq!(frames[0].command, "CONNECTED");
    assert_eq!(fault, Some(ParseError::MissingNullTerminator));
    assert_eq!(pending, b"BROKEN\n\nX\n".to_vec());
}

#[test]
fn drain_on_an_empty_buffer_is_a_no_op() {
    let mut pending: Vec<u8> = Vec::new();
    let (frames, fault) = drain_frames(&mut pending);
    assert!(frames.is_empty());
    assert!(fault.is_none());
    assert!(pending.is_empty());
}
