//! A scorer for text that looks like Base64.
use vstd::prelude::*;
use crate::decoders::base64::{base64_padded, is_base64_char, lemma_nopad_chars};
use crate::outside::base64_nopad;
use crate::scorer::Scorer;
use crate::text::{chars_of, is_alnum, is_ascii_alphanumeric, is_whitespace, is_ws};

verus! {

/// Heuristic scorer for Base64-looking data.
/// This does not validate padding thoroughly; it's meant as a lightweight signal.
pub struct Base64Scorer;

/// The typical Base64 characters, plus white space.
pub open spec fn base64_char(c: char) -> bool {
    is_ws(c) || is_alnum(c) || c == '+' || c == '/' || c == '='
}

/// 0 for empty text; for text made only of Base64 characters, 30 when it
/// ends with '=' and 20 otherwise; else 0.
pub open spec fn base64_score(input: Seq<char>) -> i32 {
    if input.len() == 0 {
        0
    } else if forall|i: int| 0 <= i < input.len() ==> base64_char(#[trigger] input[i]) {
        if input.last() == '=' {
            30
        } else {
            20
        }
    } else {
        0
    }
}

/// Every non-empty text made of the standard Base64 alphabet (A-Z, a-z, 0-9,
/// '+' and '/'), '=' and white space scores 30 when it ends with '=' and 20
/// otherwise.
pub proof fn lemma_base64_alphabet_scores(input: Seq<char>)
    requires
        input.len() > 0,
        forall|i: int|
            0 <= i < input.len() ==> is_base64_char(#[trigger] input[i]) || input[i] == '='
                || is_ws(input[i]),
    ensures
        Base64Scorer.spec_score(input) == (if input.last() == '=' {
            30i32
        } else {
            20i32
        }),
{
    assert forall|i: int| 0 <= i < input.len() implies base64_char(#[trigger] input[i]) by {
        if is_base64_char(input[i]) {
            assert(is_alnum(input[i]) || input[i] == '+' || input[i] == '/');
        }
    }
}

/// The padded Base64 encoding of any non-empty bytes scores above 0: 30 when
/// it carries padding (the byte count is not a multiple of three), else 20.
pub proof fn lemma_base64_encoding_scores(b: Seq<u8>)
    requires
        b.len() > 0,
    ensures
        Base64Scorer.spec_score(base64_padded(b)) == (if b.len() % 3 == 0 {
            20i32
        } else {
            30i32
        }),
        Base64Scorer.spec_score(base64_padded(b)) > 0,
{
    let e = base64_nopad(b);
    let t = base64_padded(b);
    lemma_nopad_chars(b);
    assert(e.len() > 0);
    assert forall|i: int| 0 <= i < t.len() implies is_base64_char(#[trigger] t[i]) || t[i] == '='
        || is_ws(t[i]) by {
        if i < e.len() {
            assert(t[i] == e[i]);
        }
    }
    if b.len() % 3 == 0 {
        assert(t =~= e);
        assert(is_base64_char(e[e.len() - 1]));
    }
    lemma_base64_alphabet_scores(t);
}

impl Scorer for Base64Scorer {
    open spec fn spec_name(&self) -> Seq<char> {
        "base64"@
    }

    open spec fn spec_score(&self, input: Seq<char>) -> i32 {
        base64_score(input)
    }

    fn name(&self) -> (r: &'static str) {
        "base64"
    }

    fn score(&self, input: &str) -> (r: i32) {
        let cs = chars_of(input);
        if cs.len() == 0 {
            return 0;
        }
        // Accept typical Base64 charset plus whitespace.
        let mut i: usize = 0;
        while i < cs.len()
            invariant
                i <= cs@.len(),
                cs@ == input@,
                forall|k: int| 0 <= k < i ==> base64_char(#[trigger] cs@[k]),
            decreases cs@.len() - i,
        {
            let c = cs[i];
            if !(is_whitespace(c) || is_ascii_alphanumeric(c) || c == '+' || c == '/' || c == '=') {
                assert(!base64_char(input@[i as int]));
                return 0;
            }
            i = i + 1;
        }
        if cs[cs.len() - 1] == '=' {
            // Ending with '=' is a common Base64 padding indicator.
            30
        } else {
            // Looks like Base64 but no padding at the end.
            20
        }
    }
}

} // verus!
