use tlog::text::{clean_str, format_timestamp, process_escape_sequence};

#[test]
fn clean_str_strips_reserved() {
    assert_eq!(clean_str("mqtt://host:1883/topic?x=1"), "mqtthost1883topicx1");
    assert_eq!(clean_str("plain-name_0"), "plain-name_0");
    assert_eq!(clean_str("a!*'();:@&=+$,/?#[]b"), "ab");
    assert_eq!(clean_str("say \\\"hi\\\""), "say hi");
    assert_eq!(clean_str(""), "");
}

#[test]
fn clean_str_keeps_multibyte_text() {
    assert_eq!(clean_str("caf\u{e9}!"), "caf\u{e9}");
    assert_eq!(
        clean_str("\u{7d20}\u{65e9}\u{3044}:\u{8336}"),
        "\u{7d20}\u{65e9}\u{3044}\u{8336}"
    );
}

#[test]
fn escape_named_sequences() {
    assert_eq!(process_escape_sequence("'"), Some('\''));
    assert_eq!(process_escape_sequence("\\\""), Some('"'));
    assert_eq!(process_escape_sequence("\\\\"), Some('\\'));
    assert_eq!(process_escape_sequence("\\n"), Some('\n'));
    assert_eq!(process_escape_sequence("\\r"), Some('\r'));
    assert_eq!(process_escape_sequence("\\t"), Some('\t'));
    assert_eq!(process_escape_sequence("\\b"), Some('\u{0008}'));
    assert_eq!(process_escape_sequence("\\f"), Some('\u{000C}'));
    assert_eq!(process_escape_sequence("\\v"), Some('\u{000B}'));
    assert_eq!(process_escape_sequence("\\0"), Some('\u{0000}'));
}

#[test]
fn escape_hex_sequences() {
    assert_eq!(process_escape_sequence("\\x41"), Some('A'));
    assert_eq!(process_escape_sequence("\\x0a"), Some('\n'));
    assert_eq!(process_escape_sequence("\\xFF"), Some('\u{ff}'));
    assert_eq!(process_escape_sequence("\\x+5"), Some('\u{5}'));
    assert_eq!(process_escape_sequence("\\x007f"), Some('\u{7f}'));
}

#[test]
fn escape_rejects_bad_input() {
    assert_eq!(process_escape_sequence(""), None);
    assert_eq!(process_escape_sequence("n"), None);
    assert_eq!(process_escape_sequence("\\q"), None);
    assert_eq!(process_escape_sequence("\\x"), None);
    assert_eq!(process_escape_sequence("\\x+"), None);
    assert_eq!(process_escape_sequence("\\xg1"), None);
    assert_eq!(process_escape_sequence("\\x1FF"), None);
    assert_eq!(process_escape_sequence("ab"), None);
    assert_eq!(process_escape_sequence("\\x4\u{e9}"), None);
}

#[test]
fn timestamp_renders_padded_fields() {
    let bytes = format_timestamp(2024, 1, 2, 3, 4, 5, 6);
    assert_eq!(
        String::from_utf8(bytes).unwrap(),
        "\x1b[0m[\x1b[32m2024-01-02 03:04:05.006\x1b[0m] "
    );
    let bytes = format_timestamp(1999, 12, 31, 23, 59, 58, 999);
    assert_eq!(
        String::from_utf8(bytes).unwrap(),
        "\x1b[0m[\x1b[32m1999-12-31 23:59:58.999\x1b[0m] "
    );
}
