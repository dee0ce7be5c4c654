//! A scorer for text that looks like Morse code.
use vstd::prelude::*;
use vstd::string::StringSliceAdditionalSpecFns;
use vstd::utf8::encode_utf8;
use crate::scorer::Scorer;
use crate::text::{chars_of, is_whitespace, is_ws};

verus! {

/// Heuristic scorer for inputs that resemble Morse code.
/// Accepts only '.', '-', '/', and whitespace. Requires a minimal length to
/// avoid short accidental matches.
pub struct MorseCodeScorer;

/// A character of Morse code: '.', '-', '/' or white space.
pub open spec fn morse_char(c: char) -> bool {
    is_ws(c) || c == '.' || c == '-' || c == '/'
}

/// 50 when every character is a Morse character and the text is longer than
/// eleven bytes in UTF-8, else 0: a short code such as "... --- ..." stays
/// below the length threshold.
pub open spec fn morse_score(input: Seq<char>) -> i32 {
    if (forall|i: int| 0 <= i < input.len() ==> morse_char(#[trigger] input[i]))
        && (encode_utf8(input).len() as usize) > 11 {
        50
    } else {
        0
    }
}

impl Scorer for MorseCodeScorer {
    open spec fn spec_name(&self) -> Seq<char> {
        "Morse Code"@
    }

    open spec fn spec_score(&self, input: Seq<char>) -> i32 {
        morse_score(input)
    }

    fn name(&self) -> (r: &'static str) {
        "Morse Code"
    }

    fn score(&self, input: &str) -> (r: i32) {
        let cs = chars_of(input);
        let mut i: usize = 0;
        while i < cs.len()
            invariant
                i <= cs@.len(),
                cs@ == input@,
                forall|k: int| 0 <= k < i ==> morse_char(#[trigger] cs@[k]),
            decreases cs@.len() - i,
        {
            let c = cs[i];
            if !(is_whitespace(c) || c == '.' || c == '-' || c == '/') {
                assert(!morse_char(input@[i as int]));
                return 0;
            }
            i = i + 1;
        }
        assert(input.spec_bytes() == encode_utf8(input@));
        if input.len() > 11 {
            // Good signal, but likely needs decoding
            50
        } else {
            0
        }
    }
}

} // verus!
