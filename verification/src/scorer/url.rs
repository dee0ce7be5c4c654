//! A scorer for text that looks like a URL.
use vstd::prelude::*;
use crate::scorer::Scorer;
use crate::text::{chars_of, contains_chars, has_substring};

verus! {

/// Heuristic scorer that detects URLs by simple pattern checks.
/// Scores higher when the input looks like a URL.
pub struct UrlScorer;

/// 50 when the text holds "://", plus 50 when it holds "http".
pub open spec fn url_score(input: Seq<char>) -> i32 {
    ((if has_substring(input, "://"@) {
        50int
    } else {
        0int
    }) + (if has_substring(input, "http"@) {
        50int
    } else {
        0int
    })) as i32
}

impl Scorer for UrlScorer {
    open spec fn spec_name(&self) -> Seq<char> {
        "url"@
    }

    open spec fn spec_score(&self, input: Seq<char>) -> i32 {
        url_score(input)
    }

    fn name(&self) -> (r: &'static str) {
        "url"
    }

    fn score(&self, input: &str) -> (r: i32) {
        let cs = chars_of(input);
        let mut score: i32 = 0;
        // Very common URL indicator.
        if contains_chars(&cs, &chars_of("://")) {
            score = score + 50;
        }
        // Recognize common schemes like http/https by substring.
        if contains_chars(&cs, &chars_of("http")) {
            score = score + 50;
        }
        score
    }
}

} // verus!
