use locksmith::wordlist::{dictionary_words, lowercase_words};

#[test]
fn dictionary_words_trim_and_filter() {
    let words = dictionary_words("  Apple \nab\n\nbanana\r\nkiwi");
    assert_eq!(words, vec!["Apple".to_string(), "banana".to_string(), "kiwi".to_string()]);
}

#[test]
fn lowercase_words_lowercase_first() {
    let words = lowercase_words("  Apple \nAB\nKIWI\n");
    assert_eq!(words, vec!["apple".to_string(), "kiwi".to_string()]);
}

#[test]
fn word_length_counts_bytes() {
    // "été" is three characters but five bytes; "ét" is three bytes.
    let words = dictionary_words("été\nét");
    assert_eq!(words, vec!["été".to_string()]);
    assert!(dictionary_words("").is_empty());
}
