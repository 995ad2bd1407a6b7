use edge_loader::utf8::decode_utf8;

fn codepoints(s: &str) -> Vec<u32> {
    s.chars().map(|c| c as u32).collect()
}

#[test]
fn ascii_decodes_to_itself() {
    let r = decode_utf8(b"5\t7").unwrap();
    assert_eq!(r, vec![0x35, 0x09, 0x37]);
}

#[test]
fn multi_byte_sequences_decode() {
    for s in ["\u{E9}", "\u{A0}x\u{3000}", "a\u{10348}b", "\u{FFFD}"] {
        let r = decode_utf8(s.as_bytes()).unwrap();
        assert_eq!(r, codepoints(s));
    }
}

#[test]
fn invalid_sequences_are_rejected() {
    // A lone continuation byte, a truncated sequence, an overlong encoding,
    // a surrogate, and a code point beyond the last one.
    for bad in [
        &[0xFF][..],
        &[0x80][..],
        &[0xC3][..],
        &[0xC0, 0xAF][..],
        &[0xE0, 0x80, 0x80][..],
        &[0xED, 0xA0, 0x80][..],
        &[0xF4, 0x90, 0x80, 0x80][..],
    ] {
        assert_eq!(decode_utf8(bad), None);
        assert!(std::str::from_utf8(bad).is_err());
    }
}

#[test]
fn decoding_agrees_with_std_on_mixed_input() {
    let s = "edge list: 5\t7, comment #, caf\u{E9}, \u{1F600}";
    let r = decode_utf8(s.as_bytes()).unwrap();
    assert_eq!(r, codepoints(s));
}
