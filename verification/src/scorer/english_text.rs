//! A scorer for text made only of ASCII letters, digits and white space.
use vstd::prelude::*;
use crate::scorer::Scorer;
use crate::text::{chars_of, is_alnum, is_ascii_alphanumeric, is_whitespace, is_ws};

verus! {

/// Lightweight heuristic that scores inputs which look like plain English text
/// comprised only of ASCII alphanumeric characters and whitespace.
pub struct EnglishTextScorer;

/// An ASCII letter or digit, or white space.
pub open spec fn text_char(c: char) -> bool {
    is_ws(c) || is_alnum(c)
}

/// 50 when every character is an ASCII letter, digit or white space, else 0.
pub open spec fn english_text_score(input: Seq<char>) -> i32 {
    if forall|i: int| 0 <= i < input.len() ==> text_char(#[trigger] input[i]) {
        50
    } else {
        0
    }
}

impl Scorer for EnglishTextScorer {
    open spec fn spec_name(&self) -> Seq<char> {
        "English Text"@
    }

    open spec fn spec_score(&self, input: Seq<char>) -> i32 {
        english_text_score(input)
    }

    fn name(&self) -> (r: &'static str) {
        "English Text"
    }

    fn score(&self, input: &str) -> (r: i32) {
        let cs = chars_of(input);
        let mut i: usize = 0;
        while i < cs.len()
            invariant
                i <= cs@.len(),
                cs@ == input@,
                forall|k: int| 0 <= k < i ==> text_char(#[trigger] cs@[k]),
            decreases cs@.len() - i,
        {
            let c = cs[i];
            if !(is_whitespace(c) || is_ascii_alphanumeric(c)) {
                assert(!text_char(input@[i as int]));
                return 0;
            }
            i = i + 1;
        }
        // Good, but likely needs further decoding/validation.
        50
    }
}

} // verus!
