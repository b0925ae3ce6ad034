use str_ext::{fields, lines, parse_line_mode, split_whitespace, LineMode};

#[test]
fn lines_strip_terminators_by_default_mode() {
    let r = lines(b"a\nb\r\nc", LineMode::NoTerminator);
    assert_eq!(r, vec![b"a".to_vec(), b"b".to_vec(), b"c".to_vec()]);
}

#[test]
fn lines_keep_terminators_on_request() {
    let r = lines(b"a\nb\r\nc", LineMode::WithTerminator);
    assert_eq!(r, vec![b"a\n".to_vec(), b"b\r\n".to_vec(), b"c".to_vec()]);
}

#[test]
fn lines_edge_cases() {
    assert_eq!(lines(b"", LineMode::NoTerminator), Vec::<Vec<u8>>::new());
    assert_eq!(lines(b"", LineMode::WithTerminator), Vec::<Vec<u8>>::new());
    assert_eq!(lines(b"\n", LineMode::NoTerminator), vec![b"".to_vec()]);
    assert_eq!(lines(b"\n", LineMode::WithTerminator), vec![b"\n".to_vec()]);
    assert_eq!(
        lines(b"a\n\nb", LineMode::NoTerminator),
        vec![b"a".to_vec(), b"".to_vec(), b"b".to_vec()]
    );
    // A carriage return alone terminates nothing and is never stripped.
    assert_eq!(lines(b"a\rb", LineMode::NoTerminator), vec![b"a\rb".to_vec()]);
    assert_eq!(lines(b"a\r", LineMode::NoTerminator), vec![b"a\r".to_vec()]);
    // Only the terminator's own carriage return is stripped.
    assert_eq!(lines(b"a\r\r\n", LineMode::NoTerminator), vec![b"a\r".to_vec()]);
}

#[test]
fn lines_with_terminator_concatenate_to_input() {
    let inputs: Vec<Vec<u8>> = vec![
        b"".to_vec(),
        b"a\nb\r\nc".to_vec(),
        b"\n\n".to_vec(),
        b"no terminator".to_vec(),
        b"trailing\n".to_vec(),
        vec![0x61, 0xFF, 0x0A, 0x62],
    ];
    for input in inputs {
        let kept = lines(&input, LineMode::WithTerminator);
        let rebuilt: Vec<u8> = kept.iter().flatten().copied().collect();
        assert_eq!(rebuilt, input);
        // Stripped lines plus their terminators also rebuild the input.
        let bare = lines(&input, LineMode::NoTerminator);
        assert_eq!(bare.len(), kept.len());
        for (b, k) in bare.iter().zip(kept.iter()) {
            assert!(k.starts_with(b));
            let tail = &k[b.len()..];
            assert!(tail == b"" || tail == b"\n" || tail == b"\r\n");
        }
    }
}

#[test]
fn line_mode_keywords() {
    assert_eq!(parse_line_mode("no-terminator"), Some(LineMode::NoTerminator));
    assert_eq!(parse_line_mode("with-terminator"), Some(LineMode::WithTerminator));
    assert_eq!(parse_line_mode("terminator"), Some(LineMode::WithTerminator));
    assert_eq!(parse_line_mode("anything-else"), None);
    assert_eq!(parse_line_mode(""), None);
}

#[test]
fn fields_split_on_whitespace_runs() {
    assert_eq!(
        fields("  a   b\tc ".as_bytes()),
        vec![b"a".to_vec(), b"b".to_vec(), b"c".to_vec()]
    );
}

#[test]
fn fields_edge_cases() {
    assert_eq!(fields(b""), Vec::<Vec<u8>>::new());
    assert_eq!(fields(b"   \t\n "), Vec::<Vec<u8>>::new());
    assert_eq!(fields(b"one"), vec![b"one".to_vec()]);
    // Unicode whitespace separates fields too.
    assert_eq!(
        fields("a\u{2003}b".as_bytes()),
        vec![b"a".to_vec(), b"b".to_vec()]
    );
    // Ill-formed bytes are never whitespace: they stay inside a field.
    assert_eq!(
        fields(&[0x61, 0xFF, 0x62, 0x20, 0x63]),
        vec![vec![0x61, 0xFF, 0x62], vec![0x63]]
    );
}

#[test]
fn split_whitespace_yields_decoded_fields() {
    let r = split_whitespace("  a   b\tc ".as_bytes());
    assert_eq!(r, vec!["a".to_string(), "b".to_string(), "c".to_string()]);
    // The lossy variant replaces ill-formed units inside fields.
    let r = split_whitespace(&[0x61, 0xFF, 0x62, 0x20, 0x63]);
    assert_eq!(r, vec!["a\u{FFFD}b".to_string(), "c".to_string()]);
    assert_eq!(split_whitespace(b""), Vec::<String>::new());
}

#[test]
fn field_splitters_agree_on_ascii() {
    let input = b"  spread over\tthree lines\r\n ok ";
    let bytes = fields(input);
    let texts = split_whitespace(input);
    assert_eq!(bytes.len(), texts.len());
    for (b, t) in bytes.iter().zip(texts.iter()) {
        assert_eq!(b.as_slice(), t.as_bytes());
    }
}

#[test]
fn splitters_are_deterministic() {
    let input: &[u8] = &[0x61, 0xFF, 0x62, 0x20, 0x63];
    assert_eq!(fields(input), fields(input));
    assert_eq!(split_whitespace(input), split_whitespace(input));
    assert_eq!(
        lines(input, LineMode::NoTerminator),
        lines(input, LineMode::NoTerminator)
    );
}
