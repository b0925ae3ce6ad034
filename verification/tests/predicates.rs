use str_ext::{contains, is_ascii, is_utf8};

#[test]
fn ascii_of_plain_text() {
    assert!(is_ascii(b"hello"));
    assert!(is_ascii(b""));
}

#[test]
fn ascii_rejects_non_ascii_byte() {
    assert!(!is_ascii("héllo".as_bytes()));
    assert!(!is_ascii(&[0x68, 0xC3, 0xA9]));
    assert!(!is_ascii(&[0xFF]));
}

#[test]
fn utf8_accepts_well_formed() {
    assert!(is_utf8(b""));
    assert!(is_utf8(b"hello"));
    assert!(is_utf8("héllo ☃ 𝞃".as_bytes()));
}

#[test]
fn utf8_rejects_ill_formed() {
    assert!(!is_utf8(&[0xFF]));
    assert!(!is_utf8(&[0x68, 0x65, 0xFF, 0x6C, 0x6C, 0x6F]));
    // truncated two-byte encoding
    assert!(!is_utf8(&[0xC3]));
    // overlong encoding of '/'
    assert!(!is_utf8(&[0xC0, 0xAF]));
    // encoded surrogate
    assert!(!is_utf8(&[0xED, 0xA0, 0x80]));
    // above the Unicode range
    assert!(!is_utf8(&[0xF4, 0x90, 0x80, 0x80]));
}

#[test]
fn contains_finds_byte_substrings() {
    assert!(contains(b"lo", b"hello"));
    assert!(!contains(b"x", b"hello"));
    assert!(contains(b"", b"hello"));
    assert!(contains(b"", b""));
    assert!(contains(b"hello", b"hello"));
    assert!(!contains(b"hello!", b"hello"));
    assert!(contains(&[0xFF, 0x00], &[0x01, 0xFF, 0x00, 0x02]));
}

#[test]
fn predicates_are_deterministic() {
    let b: &[u8] = &[0x68, 0x65, 0xFF, 0x6C];
    assert_eq!(is_utf8(b), is_utf8(b));
    assert_eq!(is_ascii(b), is_ascii(b));
    assert_eq!(contains(b"e", b), contains(b"e", b));
}
