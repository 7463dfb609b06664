use tlog::record::{DecodeError, EncodeError, PayloadType, TLog};

#[test]
fn test_ascii() {
    let tlog = TLog::new(
        "I want to some very nice food!".to_owned(),
        PayloadType::Debug,
    );
    let packet = tlog.to_packet().unwrap();
    let out_log = TLog::from_be_bytes(packet).unwrap();

    assert_eq!(tlog, out_log);
}

#[test]
fn test_utf8() {
    let tlog = TLog::new(
        "\u{7d20}\u{65e9}\u{3044}\u{8336}\u{8272}\u{306e}\u{30ad}\u{30c4}\u{30cd}\u{304c}\u{6020}\u{60f0}\u{306a}\u{72ac}\u{3092}\u{98db}\u{3073}\u{8d8a}\u{3048}\u{308b}".to_owned(),
        PayloadType::Debug,
    );
    let packet = tlog.to_packet().unwrap();
    let out_log = TLog::from_be_bytes(packet).unwrap();

    assert_eq!(tlog, out_log);
}

#[test]
fn test_utf8_icon() {
    let tlog = TLog::new("\u{e07a}".to_owned(), PayloadType::Debug);
    let packet = tlog.to_packet().unwrap();
    let out_log = TLog::from_be_bytes(packet).unwrap();

    assert_eq!(tlog, out_log);
}

#[test]
fn encode_hello_exact_bytes() {
    let tlog = TLog::new("hello".to_owned(), PayloadType::Debug);
    let packet = tlog.to_packet().unwrap();
    assert_eq!(
        packet,
        vec![0x1A, 0x00, 0x05, 0x01, 0x00, 0x68, 0x65, 0x6C, 0x6C, 0x6F]
    );
    let out_log = TLog::from_be_bytes(packet).unwrap();
    assert_eq!(out_log, tlog);
}

#[test]
fn encode_severity_codes() {
    let warning = TLog::new("w".to_owned(), PayloadType::Warning)
        .to_packet()
        .unwrap();
    assert_eq!(warning, vec![0x1A, 0x00, 0x01, 0x01, 0x01, 0x77]);
    let error = TLog::new("e".to_owned(), PayloadType::Error)
        .to_packet()
        .unwrap();
    assert_eq!(error, vec![0x1A, 0x00, 0x01, 0x01, 0x02, 0x65]);
}

#[test]
fn encode_rejects_unknown_severity() {
    let tlog = TLog::new("x".to_owned(), PayloadType::Unknown);
    assert_eq!(tlog.to_packet(), Err(EncodeError::UnsupportedSeverity));
}

#[test]
fn encode_rejects_oversized_payload() {
    let tlog = TLog::new("a".repeat(65536), PayloadType::Debug);
    assert_eq!(tlog.to_packet(), Err(EncodeError::PayloadTooLarge));
}

#[test]
fn encode_accepts_max_payload() {
    let tlog = TLog::new("a".repeat(65535), PayloadType::Debug);
    let packet = tlog.to_packet().unwrap();
    assert_eq!(packet.len(), 65540);
    assert_eq!(packet[1], 0xFF);
    assert_eq!(packet[2], 0xFF);
    let out_log = TLog::from_be_bytes(packet).unwrap();
    assert_eq!(out_log, tlog);
}

#[test]
fn decode_unknown_severity_code_is_permissive() {
    let out = TLog::from_be_bytes(vec![0x1A, 0x00, 0x01, 0x01, 0x07, 0x61]).unwrap();
    assert_eq!(out.payload_type, PayloadType::Unknown);
    assert_eq!(out.payload, "a");
}

#[test]
fn decode_multibyte_payload() {
    let out = TLog::from_be_bytes(vec![0x1A, 0x00, 0x02, 0x01, 0x00, 0xC3, 0xA9]).unwrap();
    assert_eq!(out.payload_type, PayloadType::Debug);
    assert_eq!(out.payload, "\u{e9}");
}

#[test]
fn decode_rejects_empty_input() {
    assert_eq!(TLog::from_be_bytes(vec![]), Err(DecodeError::EmptyInput));
}

#[test]
fn decode_rejects_bad_start_marker() {
    assert_eq!(
        TLog::from_be_bytes(vec![0x1B, 0x00, 0x00, 0x01, 0x00]),
        Err(DecodeError::MalformedHeader)
    );
}

#[test]
fn decode_rejects_bad_kind_marker() {
    assert_eq!(
        TLog::from_be_bytes(vec![0x1A, 0x00, 0x00, 0x02, 0x00]),
        Err(DecodeError::MalformedHeader)
    );
}

#[test]
fn decode_rejects_truncated_header() {
    assert_eq!(
        TLog::from_be_bytes(vec![0x1A, 0x00]),
        Err(DecodeError::LengthMismatch)
    );
}

#[test]
fn decode_rejects_length_mismatch() {
    assert_eq!(
        TLog::from_be_bytes(vec![0x1A, 0x00, 0x03, 0x01, 0x00, 0x61, 0x62]),
        Err(DecodeError::LengthMismatch)
    );
}

#[test]
fn decode_rejects_invalid_utf8() {
    assert_eq!(
        TLog::from_be_bytes(vec![0x1A, 0x00, 0x01, 0x01, 0x00, 0xFF]),
        Err(DecodeError::InvalidEncoding)
    );
}
