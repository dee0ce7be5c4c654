use locksmith::wordlist::dictionary_words;
use locksmith::scorer::{
    default_scorer, Base64Scorer, BinaryScorer, BuiltinScorer, EnglishScorer,
    EnglishStructureScorer, EnglishTextScorer, MorseCodeScorer, Scorer, ScoringEngine, UrlScorer,
    YoutubeURLScorer,
};

fn words(list: &[&str]) -> Vec<String> {
    list.iter().map(|w| w.to_string()).collect()
}

#[test]
fn scores_binary_as_positive() {
    let s = BinaryScorer;
    assert!(s.score("01010101 11110000") > 0);
    assert!(s.score("1010\t0101\n0000") > 0);
}

#[test]
fn scores_non_binary_as_zero() {
    let s = BinaryScorer;
    assert_eq!(s.score("01020101"), 0);
    assert_eq!(s.score("not binary"), 0);
}

#[test]
fn scores_empty_as_zero() {
    let s = EnglishStructureScorer;
    assert_eq!(s.score(""), 0);
}

#[test]
fn scores_space_heavy_text_reasonably() {
    let s = EnglishStructureScorer;
    let input = "word word ";
    assert!(s.score(input) >= 10);
}

#[test]
fn structure_score_exact_values() {
    let s = EnglishStructureScorer;
    // 2 spaces in 10 characters: 20%, short text.
    assert_eq!(s.score("word word "), 30);
    // 3 spaces in 14 characters: about 21%, longer than ten characters.
    assert_eq!(s.score("one two three "), 40);
    // no spaces at all.
    assert_eq!(s.score("abcdefghijkl"), 0);
}

#[test]
fn scores_alnum_whitespace_as_positive() {
    let s = EnglishTextScorer;
    assert!(s.score("hello world 123") > 0);
    assert!(s.score("ThisIsATest") > 0);
    assert!(s.score("   \n\t") > 0);
}

#[test]
fn scores_with_punctuation_as_zero() {
    let s = EnglishTextScorer;
    assert_eq!(s.score("hello, world!"), 0);
    assert_eq!(s.score("email@example.com"), 0);
}

#[test]
fn scores_morse_like_text_positive() {
    let s = MorseCodeScorer;
    let input = ".... . .-.. .-.. --- / .-- --- .-. .-.. -..";
    assert!(s.score(input) > 0);
}

#[test]
fn scores_non_morse_as_zero() {
    let s = MorseCodeScorer;
    assert_eq!(s.score("..-.- not morse ..-.-"), 0);
    assert_eq!(s.score(""), 0);
    assert_eq!(s.score("... --- ..."), 0);
}

#[test]
fn url_and_youtube_scores() {
    assert_eq!(UrlScorer.score("https://example.com"), 100);
    assert_eq!(UrlScorer.score("ftp://x"), 50);
    assert_eq!(UrlScorer.score("plain"), 0);
    assert_eq!(YoutubeURLScorer.score("https://www.youtube.com/watch?v=U8DHPd4dAl0"), 1000);
    assert_eq!(YoutubeURLScorer.score("https://youtu.be/U8DHPd4dAl0"), 950);
    assert_eq!(YoutubeURLScorer.score("U8DHPd4dAl0"), 30);
    assert_eq!(YoutubeURLScorer.score("abc-_"), 10);
    assert_eq!(YoutubeURLScorer.score("a b"), 0);
}

#[test]
fn base64_scores() {
    assert_eq!(Base64Scorer.score("cmVndWxhciB3b3Jkcw=="), 30);
    assert_eq!(Base64Scorer.score("cmVndWxh"), 20);
    assert_eq!(Base64Scorer.score("not base64!"), 0);
    assert_eq!(Base64Scorer.score(""), 0);
}

#[test]
fn english_scorer_counts_covered_characters() {
    let s = EnglishScorer::new_with_wordlist(words(&["hello", "world"]));
    assert_eq!(s.score("Hello world"), 100);
    // 10 of 12 non-space characters covered: 83 percent.
    assert_eq!(s.score("Hello, world!"), 83);
    assert_eq!(s.score("   "), 0);
    assert_eq!(s.name(), "english");
}

#[test]
fn english_scorer_without_words_scores_zero() {
    let s = EnglishScorer::new_with_wordlist(Vec::new());
    assert_eq!(s.score("hello world"), 0);
}

#[test]
fn best_quick_paths() {
    let engine = ScoringEngine::new();
    assert_eq!(engine.best(""), Some(("Empty", 0)));
    assert_eq!(engine.best("abc"), Some(("Short", 10)));
    // Three characters but five bytes: no quick path, and no scorer.
    assert_eq!(engine.best("héé"), None);
}

#[test]
fn best_is_highest_and_last_among_equals() {
    let mut engine = ScoringEngine::new();
    engine.register(BuiltinScorer::Url(UrlScorer));
    engine.register(BuiltinScorer::Base64(Base64Scorer));
    engine.register(BuiltinScorer::EnglishText(EnglishTextScorer));
    // Base64 scores 20 and plain text scores 50.
    assert_eq!(engine.best("cmVndWxh"), Some(("English Text", 50)));
    let mut engine = ScoringEngine::new();
    engine.register(BuiltinScorer::Url(UrlScorer));
    engine.register(BuiltinScorer::Binary(BinaryScorer));
    assert_eq!(engine.best("hello"), Some(("Binary Data", 0)));
}

#[test]
fn score_all_sorts_descending_and_stably() {
    let mut engine = ScoringEngine::new();
    engine.register(BuiltinScorer::Url(UrlScorer));
    engine.register(BuiltinScorer::Base64(Base64Scorer));
    engine.register(BuiltinScorer::YoutubeUrl(YoutubeURLScorer));
    engine.register(BuiltinScorer::Binary(BinaryScorer));
    assert_eq!(
        engine.score_all("cmVndWxh"),
        vec![("base64", 20), ("youtube_url", 10), ("url", 0), ("Binary Data", 0)]
    );
    assert_eq!(engine.best("cmVndWxh").unwrap().1, engine.score_all("cmVndWxh")[0].1);
}

#[test]
fn score_many_keeps_highest_answer() {
    let mut engine = ScoringEngine::new();
    engine.register(BuiltinScorer::Url(UrlScorer));
    assert_eq!(engine.score_many(&[]), None);
    assert_eq!(engine.score_many(&["https://a.b", ""]), Some(("url", 100)));
    assert_eq!(engine.score_many(&["", "https://a.b"]), Some(("url", 100)));
    let empty = ScoringEngine::new();
    assert_eq!(empty.score_many(&["abc", ""]), Some(("Short", 10)));
    assert_eq!(empty.score_many(&["héé"]), None);
}

#[test]
fn default_scorer_picks_categories() {
    let engine = default_scorer(words(&["regular", "words"]));
    assert_eq!(
        engine.best("https://www.youtube.com/watch?v=U8DHPd4dAl0"),
        Some(("youtube_url", 1000))
    );
    assert_eq!(engine.best("https://youtu.be/U8DHPd4dAl0"), Some(("youtube_url", 950)));
    assert_eq!(engine.best("regular words"), Some(("english", 100)));
    assert_eq!(engine.best("cmVndWxhciB3b3Jkcw=="), Some(("base64", 30)));
}

#[test]
fn morse_threshold_is_twelve_bytes() {
    let s = MorseCodeScorer;
    assert_eq!(s.score("... --- ... "), 50);
    assert_eq!(s.score("... --- ..."), 0);
}

#[test]
fn english_score_is_at_most_one_hundred() {
    // A dictionary word with a space covers more characters than the text has
    // outside white space; the percentage stays at 100.
    let s = EnglishScorer::new_with_wordlist(words(&["a b"]));
    assert_eq!(s.score("a b"), 100);
    assert_eq!(s.score("a b xy"), 75);
}

fn assert_best(engine: &ScoringEngine, input: &str, expected: &str) {
    assert_eq!(engine.best(input).unwrap().0, expected)
}

#[test]
fn test_default_scorer() {
    // The dictionary that the default engine reads from the system word list
    // is given here as a small word list.
    let engine = default_scorer(dictionary_words("regular\nwords\n"));
    assert_best(&engine, "https://www.youtube.com/watch?v=U8DHPd4dAl0", "youtube_url");
    assert_best(&engine, "https://youtu.be/U8DHPd4dAl0", "youtube_url");

    assert_best(&engine, "regular words", "english");

    assert_best(&engine, "cmVndWxhciB3b3Jkcw==", "base64");
}
