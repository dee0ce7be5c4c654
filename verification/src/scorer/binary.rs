//! A scorer for text that looks like binary digits.
use vstd::prelude::*;
use crate::scorer::Scorer;
use crate::text::{chars_of, is_whitespace, is_ws};

verus! {

/// Heuristic scorer for inputs that look like binary (0/1) data.
/// Whitespace is allowed and ignored for validation purposes.
pub struct BinaryScorer;

/// A binary digit or white space.
pub open spec fn binary_char(c: char) -> bool {
    is_ws(c) || c == '0' || c == '1'
}

/// 40 when every character is a binary digit or white space, else 0.
pub open spec fn binary_score(input: Seq<char>) -> i32 {
    if forall|i: int| 0 <= i < input.len() ==> binary_char(#[trigger] input[i]) {
        40
    } else {
        0
    }
}

impl Scorer for BinaryScorer {
    open spec fn spec_name(&self) -> Seq<char> {
        "Binary Data"@
    }

    open spec fn spec_score(&self, input: Seq<char>) -> i32 {
        binary_score(input)
    }

    fn name(&self) -> (r: &'static str) {
        "Binary Data"
    }

    fn score(&self, input: &str) -> (r: i32) {
        let cs = chars_of(input);
        let mut i: usize = 0;
        while i < cs.len()
            invariant
                i <= cs@.len(),
                cs@ == input@,
                forall|k: int| 0 <= k < i ==> binary_char(#[trigger] cs@[k]),
            decreases cs@.len() - i,
        {
            let c = cs[i];
            if !(is_whitespace(c) || c == '0' || c == '1') {
                assert(!binary_char(input@[i as int]));
                return 0;
            }
            i = i + 1;
        }
        // Looks like binary text; decent hint but likely needs further decoding.
        40
    }
}

} // verus!
