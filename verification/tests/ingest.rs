use tlog::record::{DecodeError, PayloadType};
use tlog::session::{ReadEvent, Session, SessionEnd};

fn frame(severity: u8, payload: &[u8]) -> Vec<u8> {
    let len = payload.len() as u16;
    let mut out = vec![0x1A, (len >> 8) as u8, (len & 0xFF) as u8, 0x01, severity];
    out.extend_from_slice(payload);
    out
}

#[test]
fn data_cycle_emits_records() {
    let mut s = Session::new(1000);
    let out = s.on_read(ReadEvent::Data(frame(0x01, b"warn me")), 0);
    assert!(out.end.is_none());
    assert_eq!(out.results.len(), 1);
    let rec = out.results[0].as_ref().unwrap();
    assert_eq!(rec.payload_type, PayloadType::Warning);
    assert_eq!(rec.payload, "warn me");
}

#[test]
fn decode_error_does_not_end_session() {
    let mut s = Session::new(1000);
    // A frame whose payload is not UTF-8 yields an error result, not an end.
    let out = s.on_read(ReadEvent::Data(frame(0x00, &[0xC0, 0xC0])), 0);
    assert!(out.end.is_none());
    assert_eq!(out.results.len(), 1);
    assert!(matches!(out.results[0], Err(DecodeError::InvalidEncoding)));
    // The stream keeps going afterwards.
    let out = s.on_read(ReadEvent::Data(frame(0x02, b"still here")), 1);
    assert!(out.end.is_none());
    assert_eq!(out.results[0].as_ref().unwrap().payload, "still here");
}

#[test]
fn idle_cycle_runs_staleness_check() {
    let mut s = Session::new(1000);
    // A stalled header arrives, then only idle cycles follow.
    let out = s.on_read(ReadEvent::Data(vec![0x1A, 0x00, 0x0A, 0x01, 0x00]), 0);
    assert_eq!(out.results.len(), 0);
    assert!(out.end.is_none());
    // Idle before the timeout: still stalled.
    let out = s.on_read(ReadEvent::Idle, 900);
    assert!(out.end.is_none());
    assert_eq!(out.results.len(), 0);
    // Idle past the timeout: the stalled marker is abandoned, so a fresh
    // frame decodes on its own.
    let out = s.on_read(ReadEvent::Idle, 1200);
    assert!(out.end.is_none());
    let out = s.on_read(ReadEvent::Data(frame(0x00, b"fresh")), 1300);
    assert_eq!(out.results.len(), 1);
    assert_eq!(out.results[0].as_ref().unwrap().payload, "fresh");
}

#[test]
fn closed_source_ends_session() {
    let mut s = Session::new(1000);
    let out = s.on_read(ReadEvent::Closed, 0);
    assert_eq!(out.end, Some(SessionEnd::Closed));
    assert_eq!(out.results.len(), 0);
}

#[test]
fn failed_source_ends_session() {
    let mut s = Session::new(1000);
    let out = s.on_read(ReadEvent::Failed, 0);
    assert_eq!(out.end, Some(SessionEnd::TransportError));
    assert_eq!(out.results.len(), 0);
}

#[test]
fn frames_split_across_cycles() {
    let mut s = Session::new(1000);
    let bytes = frame(0x00, b"split across reads");
    let (a, b) = bytes.split_at(7);
    let out = s.on_read(ReadEvent::Data(a.to_vec()), 0);
    assert_eq!(out.results.len(), 0);
    let out = s.on_read(ReadEvent::Data(b.to_vec()), 10);
    assert_eq!(out.results.len(), 1);
    assert_eq!(out.results[0].as_ref().unwrap().payload, "split across reads");
}
