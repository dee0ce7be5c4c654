//! A scorer that favours text whose share of white space is close to that of
//! English.
use vstd::prelude::*;
use crate::scorer::Scorer;
use crate::text::{chars_of, count_whitespace, count_ws};

verus! {

/// Scores text based on its whitespace structure, favoring inputs where the
/// percentage of whitespace is within ten points of 20%.
pub struct EnglishStructureScorer;

/// 0 for empty text; else, when the share of white-space characters lies
/// strictly between 10% and 30%, 40 for text of more than ten characters and
/// 30 for shorter text; else 0.
pub open spec fn structure_score(input: Seq<char>) -> i32 {
    let total = input.len();
    let spaces = count_ws(input);
    if total == 0 {
        0
    } else if total < 10 * spaces && 10 * spaces < 3 * total {
        if total > 10 {
            40
        } else {
            30
        }
    } else {
        0
    }
}

impl EnglishStructureScorer {
    /// The structure score of `input`.
    pub fn structure(&self, input: &str) -> (r: i32)
        ensures
            r == structure_score(input@),
    {
        let cs = chars_of(input);
        let total = cs.len();
        if total == 0 {
            return 0;
        }
        let spaces = count_whitespace(&cs);
        proof {
            crate::text::lemma_count_ws_bound(cs@);
        }
        // Within ten points of 20%: strictly between 10% and 30%.
        let t = total as u128;
        let s = spaces as u128;
        if t < 10 * s && 10 * s < 3 * t {
            if total > 10 {
                40
            } else {
                30
            }
        } else {
            0
        }
    }
}

impl Scorer for EnglishStructureScorer {
    open spec fn spec_name(&self) -> Seq<char> {
        "English Text Structure"@
    }

    open spec fn spec_score(&self, input: Seq<char>) -> i32 {
        structure_score(input)
    }

    fn name(&self) -> (r: &'static str) {
        "English Text Structure"
    }

    fn score(&self, input: &str) -> (r: i32) {
        self.structure(input)
    }
}

} // verus!
