use tlog::reassembly::Reassembler;
use tlog::record::{DecodeError, PayloadType};

fn frame(severity: u8, payload: &[u8]) -> Vec<u8> {
    let len = payload.len() as u16;
    let mut out = vec![0x1A, (len >> 8) as u8, (len & 0xFF) as u8, 0x01, severity];
    out.extend_from_slice(payload);
    out
}

#[test]
fn two_frames_one_feed() {
    let mut r = Reassembler::new(1000);
    let bytes = vec![
        0x1A, 0x00, 0x03, 0x01, 0x02, 0x61, 0x62, 0x63, 0x1A, 0x00, 0x02, 0x01, 0x00, 0x78, 0x79,
    ];
    let out = r.feed(&bytes, 0);
    assert_eq!(out.len(), 2);
    let first = out[0].as_ref().unwrap();
    assert_eq!(first.payload_type, PayloadType::Error);
    assert_eq!(first.payload, "abc");
    let second = out[1].as_ref().unwrap();
    assert_eq!(second.payload_type, PayloadType::Debug);
    assert_eq!(second.payload, "xy");
}

#[test]
fn partial_frame_retained() {
    let mut r = Reassembler::new(1000);
    // Header declares 10 payload bytes; only 3 are present.
    let out = r.feed(&[0x1A, 0x00, 0x0A, 0x01, 0x00, 0x61, 0x62, 0x63], 0);
    assert_eq!(out.len(), 0);
    // The remaining 7 payload bytes complete the frame.
    let out = r.feed(&[0x64, 0x65, 0x66, 0x67, 0x68, 0x69, 0x6A], 1);
    assert_eq!(out.len(), 1);
    assert_eq!(out[0].as_ref().unwrap().payload, "abcdefghij");
}

#[test]
fn chunk_size_independence() {
    let mut stream: Vec<u8> = Vec::new();
    stream.extend_from_slice(&frame(0x00, b"first"));
    stream.extend_from_slice(&frame(0x01, b"second"));
    stream.extend_from_slice(&frame(0x02, b"third"));

    let mut whole = Reassembler::new(1000);
    let all = whole.feed(&stream, 0);

    let mut split = Reassembler::new(1000);
    let mut one_by_one = Vec::new();
    for b in &stream {
        one_by_one.extend(split.feed(&[*b], 0));
    }

    assert_eq!(all.len(), 3);
    assert_eq!(all, one_by_one);
    let payloads: Vec<String> = all
        .into_iter()
        .map(|r| r.unwrap().payload)
        .collect();
    assert_eq!(payloads, vec!["first", "second", "third"]);
}

#[test]
fn garbage_prefix_dropped() {
    let mut r = Reassembler::new(1000);
    let mut bytes = vec![0x00, 0x42, 0xFE, 0x07];
    bytes.extend_from_slice(&frame(0x00, b"ok"));
    let out = r.feed(&bytes, 0);
    assert_eq!(out.len(), 1);
    assert_eq!(out[0].as_ref().unwrap().payload, "ok");
}

#[test]
fn marker_byte_inside_payload() {
    // A payload containing the start-marker byte is skipped over by the
    // declared length, not mistaken for a new frame start.
    let mut r = Reassembler::new(1000);
    let bytes = frame(0x00, &[0x61, 0x1A, 0x62]);
    let out = r.feed(&bytes, 0);
    assert_eq!(out.len(), 1);
    assert_eq!(out[0].as_ref().unwrap().payload, "a\u{1a}b");
}

#[test]
fn truncated_frame_times_out() {
    let mut r = Reassembler::new(1000);
    // Header declares 10 payload bytes; they never arrive.
    let out = r.feed(&[0x1A, 0x00, 0x0A, 0x01, 0x00, 0x61], 0);
    assert_eq!(out.len(), 0);
    // Before the timeout the stalled frame still blocks.
    r.check_timeout(900);
    // Past the timeout the buffer advances beyond the stalled marker.
    r.check_timeout(1001);
    // A following valid frame now decodes on its own.
    let out = r.feed(&frame(0x02, b"after"), 1002);
    assert_eq!(out.len(), 1);
    let rec = out[0].as_ref().unwrap();
    assert_eq!(rec.payload_type, PayloadType::Error);
    assert_eq!(rec.payload, "after");
}

#[test]
fn stalled_frame_blocks_until_timeout() {
    let mut r = Reassembler::new(1000);
    let out = r.feed(&[0x1A, 0x00, 0x02, 0x01, 0x00], 0);
    assert_eq!(out.len(), 0);
    // Without the timeout firing, the stalled header stays in charge: the
    // first bytes of the next frame are swallowed as its payload.
    r.check_timeout(500);
    let out = r.feed(&frame(0x00, b"hi"), 600);
    assert_eq!(out.len(), 1);
    assert_eq!(out[0].as_ref().unwrap().payload, "\u{1a}\u{0}");
}

#[test]
fn decode_error_emitted_in_order() {
    let mut r = Reassembler::new(1000);
    let mut bytes = frame(0x00, &[0xFF, 0xFE]);
    bytes.extend_from_slice(&frame(0x01, b"good"));
    let out = r.feed(&bytes, 0);
    assert_eq!(out.len(), 2);
    assert!(matches!(out[0], Err(DecodeError::InvalidEncoding)));
    assert_eq!(out[1].as_ref().unwrap().payload, "good");
}
