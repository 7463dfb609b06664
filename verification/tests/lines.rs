use tlog::lines::LineSplitter;

#[test]
fn lines_split_on_newline() {
    let mut s = LineSplitter::new(b'\n');
    let out = s.feed(b"ab\ncd\ne");
    assert_eq!(out, vec![b"ab\n".to_vec(), b"cd\n".to_vec()]);
    // "e" stays buffered until its line is completed.
    let out = s.feed(b"f\n");
    assert_eq!(out, vec![b"ef\n".to_vec()]);
}

#[test]
fn lines_custom_split_byte() {
    let mut s = LineSplitter::new(b';');
    let out = s.feed(b"one;two;three");
    assert_eq!(out, vec![b"one;".to_vec(), b"two;".to_vec()]);
    let out = s.feed(b";");
    assert_eq!(out, vec![b"three;".to_vec()]);
}

#[test]
fn lines_chunking_is_irrelevant() {
    let text = b"alpha\nbeta\ngamma\n";
    let mut whole = LineSplitter::new(b'\n');
    let all = whole.feed(text);

    let mut split = LineSplitter::new(b'\n');
    let mut collected = Vec::new();
    for b in text {
        collected.extend(split.feed(&[*b]));
    }
    assert_eq!(all, collected);
    assert_eq!(all.len(), 3);
}

#[test]
fn lines_empty_line() {
    let mut s = LineSplitter::new(b'\n');
    let out = s.feed(b"\n\nx");
    assert_eq!(out, vec![b"\n".to_vec(), b"\n".to_vec()]);
}
