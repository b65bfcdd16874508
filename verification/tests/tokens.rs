use llama_infer::bytes::LoadError;
use llama_infer::text::{same_text, side, split_first, utf8_codepoint_len, Side};
use llama_infer::tokenizer::{is_safe_piece, parse_byte_token, Tokenizer};

fn vocabulary(entries: &[(&[u8], f32)]) -> Vec<u8> {
    let mut bytes = 27u32.to_le_bytes().to_vec();
    for (text, score) in entries.iter() {
        bytes.extend_from_slice(&score.to_le_bytes());
        bytes.extend_from_slice(&(text.len() as u32).to_le_bytes());
        bytes.extend_from_slice(text);
    }
    bytes
}

/// The unknown text and the marks, a name for every byte, and then `more`.
fn with_bytes(more: &[(&str, f32)]) -> Tokenizer {
    let names: Vec<String> = (0..256).map(|b| format!("<0x{:02X}>", b)).collect();
    let mut entries: Vec<(&[u8], f32)> = vec![(b"<unk>", 0.0), (b"\n<s>\n", 0.0), (b"\n</s>\n", 0.0)];
    for name in names.iter() {
        entries.push((name.as_bytes(), 0.0));
    }
    for (text, score) in more.iter() {
        entries.push((text.as_bytes(), *score));
    }
    Tokenizer::from_bytes(&vocabulary(&entries), entries.len()).unwrap()
}

fn words() -> Tokenizer {
    with_bytes(&[
        (" ", -1.0),
        ("a", -1.0),
        ("b", -1.0),
        ("ab", -2.0),
        (" a", -3.0),
        (" ab", -4.0),
        ("\u{e9}", -1.0),
    ])
}

#[test]
fn a_vocabulary_is_read_in_order() {
    let t = words();
    assert_eq!(t.vocab_size(), 266);
    assert_eq!(t.token_to_str(0), "<unk>");
    assert_eq!(t.token_to_str(262), "ab");
    assert_eq!(t.bos_token(), 1);
    assert_eq!(t.eos_token(), 2);
}

#[test]
fn a_vocabulary_that_ends_early_is_an_error() {
    let bytes = vocabulary(&[(b"ab", 0.0), (b"c", 1.0)]);
    assert!(Tokenizer::from_bytes(&bytes, 2).is_ok());
    assert!(Tokenizer::from_bytes(&bytes, 1).is_ok());
    for n in [0usize, 3, 7, 11, 13, 14, 20, bytes.len() - 1].iter() {
        assert!(matches!(
            Tokenizer::from_bytes(&bytes[..*n], 2),
            Err(LoadError::UnexpectedEof)
        ));
    }
    assert!(matches!(Tokenizer::from_bytes(&bytes, 3), Err(LoadError::UnexpectedEof)));
}

#[test]
fn a_text_that_is_not_utf8_is_repaired() {
    let t = Tokenizer::from_bytes(&vocabulary(&[(b"x\xffy", 0.0)]), 1).unwrap();
    assert_eq!(t.token_to_str(0), "x\u{fffd}y");
}

#[test]
fn a_text_has_the_id_of_its_last_occurrence() {
    let t = Tokenizer::from_bytes(
        &vocabulary(&[(b"b", 0.0), (b"a", 0.0), (b"b", 0.0), (b"", 0.0), (b"ba", 0.0)]),
        5,
    )
    .unwrap();
    assert_eq!(t.str_lookup("b"), Some(2));
    assert_eq!(t.str_lookup("a"), Some(1));
    assert_eq!(t.str_lookup(""), Some(3));
    assert_eq!(t.str_lookup("ba"), Some(4));
    assert_eq!(t.str_lookup("c"), None);
    assert_eq!(t.str_lookup("A"), None);
}

#[test]
fn every_text_is_found() {
    let t = words();
    for id in 0..t.vocab_size() as u32 {
        assert_eq!(t.str_lookup(t.token_to_str(id)), Some(id));
    }
}

#[test]
fn lookup_in_an_empty_vocabulary() {
    let t = Tokenizer::from_bytes(&vocabulary(&[]), 0).unwrap();
    assert_eq!(t.str_lookup("a"), None);
    assert_eq!(t.vocab_size(), 0);
    assert!(t.can_encode("", true));
    assert!(!t.can_encode("a", true));
    assert_eq!(t.encode("", true, false), [1]);
}

#[test]
fn nothing_is_encoded_as_nothing() {
    let t = words();
    assert_eq!(t.encode("", false, false), Vec::<u32>::new());
    assert_eq!(t.encode("", true, false), [1]);
    assert_eq!(t.encode("", true, true), [1, 2]);
}

#[test]
fn the_best_pair_merges_first() {
    let t = words();
    assert_eq!(t.encode("ab", false, false), [264]);
    assert_eq!(t.encode("ab", true, true), [1, 264, 2]);
    assert_eq!(t.encode("b", false, false), [259, 261]);
    assert_eq!(t.encode("aab", false, false), [263, 262]);
}

#[test]
fn of_equal_pairs_the_first_merges() {
    let t = with_bytes(&[("a", 0.0), ("aa", 1.0)]);
    assert_eq!(t.encode("aaa", false, false), [260, 259]);
    assert_eq!(t.encode("aaaa", false, false), [260, 260]);
}

#[test]
fn a_score_that_is_no_number_never_merges() {
    let t = with_bytes(&[("a", 0.0), ("aa", f32::NAN)]);
    assert_eq!(t.encode("aa", false, false), [259, 259]);
    let t = with_bytes(&[("a", 0.0), ("aa", f32::NEG_INFINITY)]);
    assert_eq!(t.encode("aa", false, false), [259, 259]);
    let t = with_bytes(&[("a", 0.0), ("aa", f32::MIN)]);
    assert_eq!(t.encode("aa", false, false), [260]);
}

#[test]
fn a_character_without_a_token_becomes_bytes() {
    let t = words();
    assert_eq!(t.encode("\u{20ac}", false, false), [259, 0xe2 + 3, 0x82 + 3, 0xac + 3]);
    assert_eq!(t.encode("\u{e9}", false, false), [259, 265]);
    assert_eq!(t.encode("c\u{1f600}", false, false), [
        259,
        0x63 + 3,
        0xf0 + 3,
        0x9f + 3,
        0x98 + 3,
        0x80 + 3
    ]);
}

#[test]
fn no_space_is_put_in_front_where_there_is_none() {
    let t = with_bytes(&[("a", 0.0)]);
    assert_eq!(t.encode("a", false, false), [259]);
    assert_eq!(t.encode(" a", false, false), [0x20 + 3, 259]);
}

#[test]
fn a_vocabulary_without_bytes_cannot_encode_everything() {
    let t = Tokenizer::from_bytes(&vocabulary(&[(b"?", 0.0), (b"<s>", 0.0), (b"a", 0.0)]), 3)
        .unwrap();
    assert!(t.can_encode("aaa", true));
    assert_eq!(t.encode("aaa", true, false), [1, 2, 2, 2]);
    assert!(!t.can_encode("ab", false));
    assert!(t.can_encode("b", false));
    assert_eq!(t.encode("b", false, false), [0x62 + 3]);
}

#[test]
fn decoding_strips_the_space_after_the_mark() {
    let t = words();
    assert_eq!(t.decode(1, 264), "ab");
    assert_eq!(t.decode(2, 264), " ab");
    assert_eq!(t.decode(1, 262), "ab");
    assert_eq!(t.decode(1, 259), "");
}

#[test]
fn byte_tokens_decode_to_their_bytes() {
    let t = words();
    assert_eq!(t.decode(5, 0x41 + 3), "A");
    assert_eq!(t.decode(5, 0x0a + 3), "\n");
    assert_eq!(t.decode(5, 0x7f + 3), "\u{7f}");
    assert_eq!(t.decode(5, 0x80 + 3), "<0x80>");
    assert_eq!(t.decode(5, 0xff + 3), "<0xFF>");
}

#[test]
fn a_name_behind_a_space_is_a_byte_after_the_mark() {
    let t = with_bytes(&[(" <0x41>", 0.0)]);
    assert_eq!(t.decode(1, 259), "A");
    assert_eq!(t.decode(0, 259), " <0x41>");
}

#[test]
fn decoding_gives_back_the_text() {
    let t = words();
    for text in ["ab", "a b", "ba ab", " ab", "b\u{e9}a"].iter() {
        let tokens = t.encode(text, false, false);
        assert_eq!(t.decode_string(&tokens), *text);
        let marked = t.encode(text, true, false);
        assert_eq!(marked[0], 1);
        assert_eq!(t.decode_string(&marked[1..]), *text);
    }
    assert_eq!(t.decode_string(&[]), "");
}

#[test]
fn tokens_spell_the_text_they_were_made_from() {
    let t = words();
    let tokens = t.encode("abba ab", true, true);
    let spelling: String = tokens.iter().map(|x| t.token_to_str(*x)).collect();
    assert_eq!(spelling, "\n<s>\n abba ab\n</s>\n");
}

#[test]
fn control_characters_are_not_shown() {
    let t = words();
    assert_eq!(t.decode_string(&[0x41 + 3, 0x07 + 3, 0x0a + 3, 0x42 + 3]), "A\nB");
    assert_eq!(t.decode_string(&[259, 260]), "a");
}

#[test]
fn safe_pieces() {
    assert!(!is_safe_piece(""));
    assert!(is_safe_piece("a"));
    assert!(is_safe_piece("~"));
    assert!(is_safe_piece(" "));
    assert!(is_safe_piece("\t"));
    assert!(is_safe_piece("\n"));
    assert!(is_safe_piece("\u{c}"));
    assert!(is_safe_piece("\r"));
    assert!(!is_safe_piece("\u{b}"));
    assert!(!is_safe_piece("\u{7}"));
    assert!(!is_safe_piece("\u{7f}"));
    assert!(is_safe_piece("\u{80}"));
    assert!(is_safe_piece("\u{7}\u{7}"));
}

#[test]
fn byte_names() {
    assert_eq!(parse_byte_token("<0x00>"), Some(0));
    assert_eq!(parse_byte_token("<0xfF>"), Some(255));
    assert_eq!(parse_byte_token("<0x3a>"), Some(0x3a));
    assert_eq!(parse_byte_token("<0x+5>"), None);
    assert_eq!(parse_byte_token("<0x-5>"), None);
    assert_eq!(parse_byte_token("<0x5+>"), None);
    assert_eq!(parse_byte_token("<0x++>"), None);
    assert_eq!(parse_byte_token("<0xG0>"), None);
    assert_eq!(parse_byte_token("<0x0>"), None);
    assert_eq!(parse_byte_token("<0x000>"), None);
    assert_eq!(parse_byte_token("<0X00>"), None);
    assert_eq!(parse_byte_token(" 0x00>"), None);
    assert_eq!(parse_byte_token("<0x00 "), None);
    assert_eq!(parse_byte_token("<0x\u{e9}>"), None);
    assert_eq!(parse_byte_token(""), None);
}

#[test]
fn first_bytes_tell_the_length() {
    assert_eq!(utf8_codepoint_len(0x00), 1);
    assert_eq!(utf8_codepoint_len(0x7f), 1);
    assert_eq!(utf8_codepoint_len(0x80), 1);
    assert_eq!(utf8_codepoint_len(0xbf), 1);
    assert_eq!(utf8_codepoint_len(0xc0), 2);
    assert_eq!(utf8_codepoint_len(0xdf), 2);
    assert_eq!(utf8_codepoint_len(0xe0), 3);
    assert_eq!(utf8_codepoint_len(0xef), 3);
    assert_eq!(utf8_codepoint_len(0xf0), 4);
    assert_eq!(utf8_codepoint_len(0xff), 4);
}

#[test]
fn strings_split_and_compare() {
    assert_eq!(split_first("a"), ("a", ""));
    assert_eq!(split_first("\u{20ac}uro"), ("\u{20ac}", "uro"));
    assert!(matches!(side("a", "b"), Side::Before));
    assert!(matches!(side("a", "a"), Side::Equal));
    assert!(matches!(side("ab", "a"), Side::After));
    assert!(matches!(side("", "a"), Side::Before));
    assert!(matches!(side("\u{e9}", "z"), Side::After));
    assert!(same_text("\u{e9}", "\u{e9}"));
    assert!(!same_text("e", "\u{e9}"));
}
