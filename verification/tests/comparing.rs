use stego_wps::{compare, decode, encode};

#[test]
fn test_compare_exact_match() {
    let secret_message = "HELLO";
    let cover_text = "This is a sentence. And another one.";
    let character_set = "ABCDEFGHIJKLMNOPQRSTUVWXYZ";
    let result = compare(secret_message, cover_text, character_set).expect("Failed to compare");
    assert_eq!(result, vec![4, 2, 12, 12, 15]);
}

#[test]
fn test_compare_length_mismatch() {
    let secret_message = "HELLO";
    let cover_text = "This is a sentence. This is another. And yet another.";
    let character_set = "ABCDEFGHIJKLMNOPQRSTUVWXYZ";
    let result = compare(secret_message, cover_text, character_set).expect("Failed to compare");
    assert_eq!(result, vec![4, 2, 9, 12, 15]);
}

#[test]
fn test_compare_non_ascii_input() {
    let secret_message = "HELLO";
    let cover_text = "This sentence contains ö.";
    let character_set = "ABCDEFGHIJKLMNOPQRSTUVWXYZ";
    let result = compare(secret_message, cover_text, character_set);
    assert!(result.is_err());
}

#[test]
fn test_compare_empty_input() {
    let secret_message = "";
    let cover_text = "";
    let character_set = "ABCDEFGHIJKLMNOPQRSTUVWXYZ";
    let result = compare(secret_message, cover_text, character_set).expect("Failed to compare");
    assert_eq!(result, Vec::<isize>::new());
}

#[test]
fn compare_of_an_empty_secret_asks_for_nothing() {
    assert_eq!(compare("", "Some cover. Text here.", "ABC"), Ok(vec![]));
    assert_eq!(compare("", "not ascii: ö", "ABC"), Ok(vec![]));
    assert_eq!(compare("", ". . .", ""), Ok(vec![]));
    assert_eq!(compare("", "", ""), Ok(vec![]));
}

#[test]
fn compare_removes_the_words_of_sentences_beyond_the_secret() {
    let result = compare("B", "one. two words. three little words.", "ABC");
    assert_eq!(result, Ok(vec![1, -2, -3]));
}

#[test]
fn compare_adds_sentences_for_codes_beyond_the_cover() {
    let result = compare("CAB", "Only one sentence here.", "ABC");
    assert_eq!(result, Ok(vec![-1, 1, 2]));
}

#[test]
fn compare_gives_zero_where_the_cover_fits() {
    let result = compare("BA", "two words. one.", "AB");
    assert_eq!(result, Ok(vec![0, 0]));
}

#[test]
fn compare_takes_the_last_position_of_a_repeated_character() {
    assert_eq!(compare("A", "x.", "ABA"), Ok(vec![2]));
    assert_eq!(compare("AB", "x. y.", "ABAB"), Ok(vec![2, 3]));
}

#[test]
fn compare_names_the_first_character_that_the_set_lacks() {
    assert_eq!(
        compare("HeLlo", "A cover text.", "ABCDEFGHIJKLMNOPQRSTUVWXYZ"),
        Err("Character 'e' not found in character set".to_string())
    );
    assert_eq!(
        compare("é", "A cover text.", "e"),
        Err("Character 'é' not found in character set".to_string())
    );
    assert_eq!(
        compare("A", "A cover text.", ""),
        Err("Character 'A' not found in character set".to_string())
    );
}

#[test]
fn compare_reports_a_cover_text_without_encoded_form() {
    assert_eq!(
        compare("HELLO", "This sentence contains ö.", "ABCDEFGHIJKLMNOPQRSTUVWXYZ"),
        Err("Error encoding cover text: NonAsciiInput".to_string())
    );
    assert_eq!(
        compare("HELLO", ". . .", "ABCDEFGHIJKLMNOPQRSTUVWXYZ"),
        Err("Error encoding cover text: NoValidSentences".to_string())
    );
    assert_eq!(
        compare("HELLO", "", "ABCDEFGHIJKLMNOPQRSTUVWXYZ"),
        Err("Error encoding cover text: NoValidSentences".to_string())
    );
}

#[test]
fn compare_looks_at_the_cover_text_before_the_secret() {
    assert_eq!(
        compare("hello", "ö", "ABC"),
        Err("Error encoding cover text: NonAsciiInput".to_string())
    );
}

#[test]
fn compare_accepts_characters_outside_ascii_in_secret_and_set() {
    assert_eq!(compare("üä", "one. two words. three little words.", "äöü"), Ok(vec![2, -1, -3]));
}

#[test]
fn changes_added_to_the_counts_give_the_codes() {
    let secret = "STEGANOGRAPHY";
    let cover = "It was a bright cold day in April. The clocks were striking thirteen! \
                 Winston Smith? His chin nuzzled into his breast. In an effort to escape \
                 the vile wind. He slipped quickly through the glass doors.";
    let alphabet = "ABCDEFGHIJKLMNOPQRSTUVWXYZ";
    let counts = encode(cover).unwrap();
    let changes = compare(secret, cover, alphabet).unwrap();
    assert_eq!(counts, vec![8, 5, 2, 6, 8, 7]);
    assert_eq!(changes.len(), secret.chars().count().max(counts.len()));
    let mut reached: Vec<usize> = Vec::new();
    for (i, change) in changes.iter().enumerate() {
        let count = if i < counts.len() { counts[i] as isize } else { 0 };
        reached.push((count + change) as usize);
    }
    assert_eq!(reached, vec![19, 20, 5, 7, 1, 14, 15, 7, 18, 1, 16, 8, 25]);
    assert_eq!(decode(&reached, alphabet).unwrap(), secret);
}

#[test]
fn codes_survive_decoding_and_comparing() {
    let alphabet = "zyxwvutsrq";
    let codes: Vec<usize> = vec![10, 1, 5, 5, 3];
    let secret = decode(&codes, alphabet).unwrap();
    assert_eq!(secret, "qzvvx");
    let changes = compare(&secret, "w.", alphabet).unwrap();
    assert_eq!(changes, vec![9, 1, 5, 5, 3]);
}
