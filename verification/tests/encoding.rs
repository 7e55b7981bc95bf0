use stego_wps::{encode, EncodingError};

#[test]
fn test_encode_valid_input() {
    let input = "This is a sentence. This is another.";
    let result = encode(input).expect("Failed to encode");
    assert_eq!(result, vec![4, 3]);
}

#[test]
fn test_encode_non_ascii_input() {
    let input = "This is a sentence with non-ascii char ö.";
    match encode(input) {
        Ok(_) => panic!("Should have failed on non-ASCII input"),
        Err(EncodingError::NonAsciiInput) => (),
        Err(_) => panic!("Unexpected error type"),
    }
}

#[test]
fn test_basic_wps_encode() {
    let input = "Hello, this is a test.\n        Does this work?\n        I sure hope so.";
    let expected = vec![5, 3, 4];
    let result = encode(input).expect("Failed to encode");
    assert_eq!(result, expected);
}

#[test]
fn test_incomplete_sentence_encode() {
    let input = "Hello. This is a great tool. .. Bad sentence punctuation";
    let expected = vec![1, 5, 3];
    let result = encode(input).expect("Failed to encode");
    assert_eq!(result, expected);
}

#[test]
fn encode_counts_are_positive_and_no_more_than_the_sentences() {
    let input = "One. Two words! ?? Three more words? tail";
    let result = encode(input).expect("Failed to encode");
    assert_eq!(result, vec![1, 2, 3, 1]);
    let terminators = input.chars().filter(|c| ".!?".contains(*c)).count();
    assert!(!result.is_empty());
    assert!(result.iter().all(|&n| n > 0));
    assert!(result.len() <= terminators + 1);
}

#[test]
fn encode_rejects_a_non_ascii_character_wherever_it_stands() {
    assert_eq!(encode("é"), Err(EncodingError::NonAsciiInput));
    assert_eq!(encode("... é"), Err(EncodingError::NonAsciiInput));
    assert_eq!(encode("Plain words. Then one more\u{a0}word."), Err(EncodingError::NonAsciiInput));
    assert_eq!(encode("\u{80}"), Err(EncodingError::NonAsciiInput));
}

#[test]
fn encode_accepts_the_last_ascii_character() {
    assert_eq!(encode("\u{7f}"), Ok(vec![1]));
}

#[test]
fn encode_finds_no_sentence_without_a_word() {
    assert_eq!(encode(". . ."), Err(EncodingError::NoValidSentences));
    assert_eq!(encode(""), Err(EncodingError::NoValidSentences));
    assert_eq!(encode("   "), Err(EncodingError::NoValidSentences));
    assert_eq!(encode("?!."), Err(EncodingError::NoValidSentences));
    assert_eq!(encode(" \t\n\r. \u{0b}\u{0c}!"), Err(EncodingError::NoValidSentences));
}

#[test]
fn encode_separates_words_at_every_kind_of_whitespace() {
    assert_eq!(encode("a b\tc\nd\u{0b}e\u{0c}f\rg"), Ok(vec![7]));
    assert_eq!(encode("  lead and trail  "), Ok(vec![3]));
    assert_eq!(encode("a \t\n b"), Ok(vec![2]));
}

#[test]
fn encode_treats_other_control_characters_as_parts_of_words() {
    assert_eq!(encode("a\u{1c}b\u{1f}c"), Ok(vec![1]));
    assert_eq!(encode("a\u{00}b \u{08}"), Ok(vec![2]));
}

#[test]
fn encode_ends_a_sentence_at_each_terminator() {
    assert_eq!(encode("a.b!c?d"), Ok(vec![1, 1, 1, 1]));
    assert_eq!(encode("one two...three"), Ok(vec![2, 1]));
    assert_eq!(encode(".first"), Ok(vec![1]));
    assert_eq!(encode("last."), Ok(vec![1]));
    assert_eq!(encode("no terminator at all"), Ok(vec![4]));
}

#[test]
fn encode_keeps_commas_and_other_marks_inside_words() {
    assert_eq!(encode("Well, well; 'tis - so: (yes)."), Ok(vec![6]));
}

#[test]
fn chars_of_lists_the_characters_in_order() {
    assert_eq!(stego_wps::text::chars_of("aé!"), vec!['a', 'é', '!']);
    assert_eq!(stego_wps::text::chars_of(""), Vec::<char>::new());
}
