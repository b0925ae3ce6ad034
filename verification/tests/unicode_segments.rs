use str_ext::{graphemes, parse_word_mode, sentences, words, WordMode};

#[test]
fn words_without_breaks() {
    let r = words(b"can't stop", WordMode::NoBreaks);
    assert_eq!(r, vec!["can't".to_string(), "stop".to_string()]);
}

#[test]
fn words_with_breaks() {
    let r = words(b"can't stop", WordMode::WithBreaks);
    assert_eq!(r, vec!["can't".to_string(), " ".to_string(), "stop".to_string()]);
}

#[test]
fn words_of_richer_text() {
    let r = words(
        br#"The quick ("brown") fox can't jump 32.3 feet, right?"#,
        WordMode::NoBreaks,
    );
    assert_eq!(
        r,
        vec!["The", "quick", "brown", "fox", "can't", "jump", "32.3", "feet", "right"]
    );
}

#[test]
fn words_with_breaks_concatenate_to_text() {
    // On well-formed input the segments rebuild it byte for byte.
    let input = "The quick fox can't jump 32.3 feet, right?";
    let r = words(input.as_bytes(), WordMode::WithBreaks);
    assert_eq!(r.concat(), input);
    // On ill-formed input they rebuild its lenient decoding.
    let r = words(&[0x66, 0x6F, 0x6F, 0x20, 0xFF, 0x62, 0x61, 0x72], WordMode::WithBreaks);
    assert_eq!(r.concat(), "foo \u{FFFD}bar");
}

#[test]
fn word_tokens_are_a_subsequence_of_segments() {
    let input = br#"a-b, c; d"#;
    let tokens = words(input, WordMode::NoBreaks);
    let all = words(input, WordMode::WithBreaks);
    let mut at = 0;
    for tok in &tokens {
        while at < all.len() && &all[at] != tok {
            at += 1;
        }
        assert!(at < all.len(), "token missing from the with-breaks segments");
        at += 1;
    }
}

#[test]
fn word_tokens_go_by_their_first_character() {
    // A combining mark attaches to the segment before it, so an apostrophe
    // carrying one forms a single segment that starts with the apostrophe:
    // it holds a word character (the mark) but is not a token.
    let bs = "'\u{0308}".as_bytes();
    assert_eq!(
        words(bs, WordMode::WithBreaks),
        vec!["'\u{0308}".to_string()]
    );
    assert_eq!(words(bs, WordMode::NoBreaks), Vec::<String>::new());
    // The same mark on its own is a segment that starts with a word
    // character, and is kept.
    let bs = "\u{0308}".as_bytes();
    assert_eq!(words(bs, WordMode::NoBreaks), vec!["\u{0308}".to_string()]);
}

#[test]
fn segments_are_never_empty() {
    let inputs: Vec<Vec<u8>> = vec![
        b"The quick fox. It can't jump 32.3 feet!  Right?".to_vec(),
        vec![0x61, 0xFF, 0x0A, 0x20, 0x62],
        vec![0xF0, 0x9F, 0x87],
    ];
    for input in inputs {
        for g in graphemes(&input) {
            assert!(!g.is_empty());
        }
        for w in words(&input, WordMode::WithBreaks) {
            assert!(!w.is_empty());
        }
        for w in words(&input, WordMode::NoBreaks) {
            assert!(!w.is_empty());
        }
        for t in sentences(&input) {
            assert!(!t.is_empty());
        }
    }
}

#[test]
fn graphemes_concatenate_to_text() {
    // On well-formed input the clusters rebuild it exactly.
    let input = "a\u{0300}\u{0316}x\u{1F1FA}\u{1F1F8}y";
    assert_eq!(graphemes(input.as_bytes()).concat(), input);
    // On ill-formed input they rebuild its lenient decoding.
    let r = graphemes(&[0x61, 0xF0, 0x9F, 0x87, 0x7A]);
    assert_eq!(r.concat(), "a\u{FFFD}z");
}

#[test]
fn words_edge_cases() {
    assert_eq!(words(b"", WordMode::NoBreaks), Vec::<String>::new());
    assert_eq!(words(b"", WordMode::WithBreaks), Vec::<String>::new());
    assert_eq!(words(b"   ", WordMode::NoBreaks), Vec::<String>::new());
}

#[test]
fn word_mode_keywords() {
    assert_eq!(parse_word_mode("no-breaks"), Some(WordMode::NoBreaks));
    assert_eq!(parse_word_mode("with-breaks"), Some(WordMode::WithBreaks));
    assert_eq!(parse_word_mode("breaks"), Some(WordMode::WithBreaks));
    assert_eq!(parse_word_mode("words"), None);
    assert_eq!(parse_word_mode(""), None);
}

#[test]
fn graphemes_cluster_combining_marks() {
    let bs = "a\u{0300}\u{0316}\u{1F1FA}\u{1F1F8}".as_bytes();
    let r = graphemes(bs);
    assert_eq!(r, vec!["a\u{0300}\u{0316}".to_string(), "\u{1F1FA}\u{1F1F8}".to_string()]);
}

#[test]
fn graphemes_replace_ill_formed_units() {
    let mut bytes = "a\u{0300}\u{0316}".as_bytes().to_vec();
    bytes.push(0xFF);
    bytes.extend_from_slice("\u{1F1FA}\u{1F1F8}".as_bytes());
    let r = graphemes(&bytes);
    assert_eq!(
        r,
        vec![
            "a\u{0300}\u{0316}".to_string(),
            "\u{FFFD}".to_string(),
            "\u{1F1FA}\u{1F1F8}".to_string(),
        ]
    );
}

#[test]
fn graphemes_edge_cases() {
    assert_eq!(graphemes(b""), Vec::<String>::new());
    assert_eq!(graphemes(b"abc"), vec!["a".to_string(), "b".to_string(), "c".to_string()]);
}

#[test]
fn sentences_keep_trailing_punctuation() {
    let r = sentences(b"I want this. Not that. Right now.");
    assert_eq!(
        r,
        vec![
            "I want this. ".to_string(),
            "Not that. ".to_string(),
            "Right now.".to_string(),
        ]
    );
}

#[test]
fn sentences_concatenate_to_text() {
    let input = "One. Two! Three?";
    let r = sentences(input.as_bytes());
    assert_eq!(r.concat(), input);
    assert_eq!(sentences(b""), Vec::<String>::new());
}

#[test]
fn segmenters_are_deterministic() {
    let input: &[u8] = b"The quick fox. It can't jump.";
    assert_eq!(words(input, WordMode::NoBreaks), words(input, WordMode::NoBreaks));
    assert_eq!(graphemes(input), graphemes(input));
    assert_eq!(sentences(input), sentences(input));
}
