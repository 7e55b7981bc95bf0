use stego_wps::{decode, encode, DecodingError};

#[test]
fn test_decode_basic() {
    let encoded = vec![1, 26, 5];
    let character_set = "abcdefghijklmnopqrstuvwxyz";
    let result = decode(&encoded, character_set).expect("Failed to decode");
    assert_eq!(result, "aze");
}

#[test]
fn test_decode_with_empty_input() {
    let encoded = vec![];
    let character_set = "abcdefghijklmnopqrstuvwxyz";
    let result = decode(&encoded, character_set).expect("Failed to decode");
    assert_eq!(result, "");
}

#[test]
fn test_normal_decode() {
    let hidden_msg = "SECRET";
    let cover_text = "\n        Hello Bob, I hope you are well and good, I would like to know if you are free tomorrow.\n        Hmm, How about a picnic?\n\n        At the park?\n\n        I would very much look forward to that, but will jane bring her dog, i was just wondering?\n\n        Anyway i would like to.\n        But how many days until Sara will be making her famous lemon drizzle cake, it was to die for, before.\n        ";
    let character_set = "ABCDEFGHIJKLMNOPQRSTUVWXYZ";
    let encoded = encode(cover_text).unwrap();
    let result = decode(&encoded, character_set).expect("Failed to decode");
    assert_eq!(result, hidden_msg);
}

#[test]
fn decode_fails_on_an_empty_character_set() {
    assert!(matches!(decode(&[1, 2, 3], ""), Err(DecodingError::EmptyCharacterSet)));
    assert!(matches!(decode(&[], ""), Err(DecodingError::EmptyCharacterSet)));
    assert!(matches!(decode(&[0], ""), Err(DecodingError::EmptyCharacterSet)));
}

#[test]
fn decode_gives_the_characters_at_the_codes() {
    let alphabet = "ABCDEFGHIJKLMNOPQRSTUVWXYZ";
    let codes: Vec<usize> = (1..=26).collect();
    assert_eq!(decode(&codes, alphabet).unwrap(), alphabet);
    assert_eq!(decode(&[8, 5, 12, 12, 15], alphabet).unwrap(), "HELLO");
}

#[test]
fn decode_skips_zero() {
    assert_eq!(decode(&[0, 1, 0, 0, 2, 0], "xy").unwrap(), "xy");
    assert_eq!(decode(&[0, 0], "xy").unwrap(), "");
}

#[test]
fn decode_starts_the_alphabet_again_after_its_last_character() {
    assert_eq!(decode(&[27, 28, 52, 53], "abcdefghijklmnopqrstuvwxyz").unwrap(), "abza");
    assert_eq!(decode(&[1, 2, 3, 1000], "q").unwrap(), "qqqq");
    assert_eq!(decode(&[usize::MAX], "abc").unwrap(), "c");
}

#[test]
fn decode_counts_characters_not_bytes() {
    assert_eq!(decode(&[1, 2, 3], "äöü").unwrap(), "äöü");
    assert_eq!(decode(&[4, 5, 6], "äöü").unwrap(), "äöü");
    assert_eq!(decode(&[2], "é").unwrap(), "é");
}

#[test]
fn decode_gives_one_character_for_each_code_that_is_not_zero() {
    let codes = [3, 0, 7, 7, 0, 1, 12];
    let decoded = decode(&codes, "0123456789").unwrap();
    assert_eq!(decoded.chars().count(), codes.iter().filter(|&&code| code != 0).count());
    assert_eq!(decoded, "26601");
}
