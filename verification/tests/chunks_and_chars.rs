use str_ext::{chars, is_utf8, utf8_chunks};

#[test]
fn chunks_of_mixed_input() {
    // "he" + invalid 0xFF + "llo"
    let (valid, invalid) = utf8_chunks(&[0x68, 0x65, 0xFF, 0x6C, 0x6C, 0x6F]);
    assert_eq!(valid, vec![b"he".to_vec(), b"llo".to_vec()]);
    assert_eq!(invalid, vec![vec![0xFF]]);
    assert_eq!(invalid[0].len(), 1);
}

#[test]
fn chunks_of_empty_input() {
    let (valid, invalid) = utf8_chunks(&[]);
    assert!(valid.is_empty());
    assert!(invalid.is_empty());
}

#[test]
fn chunks_of_valid_input() {
    let (valid, invalid) = utf8_chunks("héllo".as_bytes());
    assert_eq!(valid, vec!["héllo".as_bytes().to_vec()]);
    assert!(invalid.is_empty());
}

#[test]
fn chunks_follow_maximal_subparts() {
    // A truncated four-byte encoding: its three present bytes form one
    // maximal subpart.
    let (valid, invalid) = utf8_chunks(&[0x61, 0xF0, 0x9F, 0x87, 0x7A]);
    assert_eq!(valid, vec![vec![0x61], vec![0x7A]]);
    assert_eq!(invalid, vec![vec![0xF0, 0x9F, 0x87]]);
    // An ill-suited continuation ends the subpart at one byte each.
    let (valid, invalid) = utf8_chunks(&[0xE0, 0x80, 0x61]);
    assert_eq!(valid, vec![vec![0x61]]);
    assert_eq!(invalid, vec![vec![0xE0], vec![0x80]]);
}

#[test]
fn chunks_concatenate_to_input() {
    let inputs: Vec<Vec<u8>> = vec![
        vec![],
        b"plain".to_vec(),
        vec![0x68, 0x65, 0xFF, 0x6C, 0x6C, 0x6F],
        vec![0xFF, 0xFE, 0xC3],
        vec![0x61, 0xF0, 0x9F, 0x87, 0x7A],
        vec![0xE0, 0xA0, 0x80, 0xED, 0x9F, 0xBF, 0x80],
    ];
    for input in inputs {
        let (valid, invalid) = utf8_chunks(&input);
        // Rebuild the input by walking it again: valid runs and invalid
        // subparts alternate, starting with whichever comes first.
        let mut rebuilt: Vec<u8> = Vec::new();
        let (mut vi, mut ii) = (0, 0);
        while rebuilt.len() < input.len() {
            let at = rebuilt.len();
            if vi < valid.len() && input[at..].starts_with(&valid[vi]) {
                rebuilt.extend_from_slice(&valid[vi]);
                vi += 1;
            } else {
                rebuilt.extend_from_slice(&invalid[ii]);
                ii += 1;
            }
        }
        assert_eq!(rebuilt, input);
        assert_eq!(vi, valid.len());
        assert_eq!(ii, invalid.len());
        // Invalid chunks are always 1 to 3 bytes long.
        for part in &invalid {
            assert!(1 <= part.len() && part.len() <= 3);
        }
        // The validity predicate agrees with the chunk decoder.
        assert_eq!(is_utf8(&input), invalid.is_empty());
    }
}

#[test]
fn chunks_are_deterministic() {
    let input: &[u8] = &[0x68, 0x65, 0xFF, 0x6C, 0x6C, 0x6F];
    assert_eq!(utf8_chunks(input), utf8_chunks(input));
}

#[test]
fn chars_decode_leniently() {
    assert_eq!(chars(b"hello"), vec!['h', 'e', 'l', 'l', 'o']);
    assert_eq!(
        chars(&[0x68, 0x65, 0xFF, 0x6C, 0x6C, 0x6F]),
        vec!['h', 'e', '\u{FFFD}', 'l', 'l', 'o']
    );
    // One replacement character per maximal subpart, not per byte.
    assert_eq!(chars(&[0x61, 0xF0, 0x9F, 0x87, 0x7A]), vec!['a', '\u{FFFD}', 'z']);
    assert_eq!(chars("héllo".as_bytes()), vec!['h', 'é', 'l', 'l', 'o']);
    assert_eq!(chars("☃𝞃".as_bytes()), vec!['☃', '𝞃']);
    assert_eq!(chars(b""), Vec::<char>::new());
}
