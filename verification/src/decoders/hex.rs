//! The hexadecimal decoder.
use vstd::prelude::*;
use crate::engine::{Decoder, DecoderId, Policy, Step, TransformResult, TransformView};
use crate::text::{chars_of, digit_of, digit_value, non_ws, strip_whitespace};

verus! {

/// Decoder that converts hexadecimal-encoded text to characters.
///
/// - Whitespace is ignored (e.g., "68 69" decodes to "hi").
/// - Returns an empty list if the number of hex digits is odd or if any pair is invalid.
pub struct HexDecoder;

/// The value of the `p`-th pair of `d`: both characters must be hex digits.
pub open spec fn hex_pair(d: Seq<char>, p: int) -> Option<u32> {
    match (digit_value(d[2 * p], 16), digit_value(d[2 * p + 1], 16)) {
        (Some(hi), Some(lo)) => Some((16 * hi + lo) as u32),
        _ => None,
    }
}

/// Whether every pair of `d` is valid hex.
pub open spec fn hex_pairs_ok(d: Seq<char>) -> bool {
    forall|p: int| 0 <= p < d.len() / 2 ==> (#[trigger] hex_pair(d, p)) is Some
}

/// One character per pair: the character whose code is the pair's value.
pub open spec fn hex_text(d: Seq<char>) -> Seq<char> {
    Seq::new(d.len() / 2, |p: int| ((hex_pair(d, p)->0) as u8) as char)
}

impl Decoder for HexDecoder {
    open spec fn spec_id(&self) -> Seq<char> {
        "hex"@
    }

    open spec fn spec_policy(&self) -> Policy {
        Policy { no_consecutive_same_op: false }
    }

    /// With white space removed: nothing for an odd number of characters or an
    /// invalid pair; else the decoded characters.
    open spec fn spec_apply(&self, input: Seq<char>) -> Seq<TransformView> {
        let d = non_ws(input);
        if d.len() % 2 != 0 || !hex_pairs_ok(d) {
            seq![]
        } else {
            seq![(hex_text(d), ("hex"@, "Hex decode"@))]
        }
    }

    fn id(&self) -> (r: DecoderId) {
        "hex".to_string()
    }

    fn policy(&self) -> (p: Policy) {
        // Allow immediate repeated hex decodes by default (turns out this happens).
        Policy { no_consecutive_same_op: false }
    }

    fn apply(&self, input: &str) -> (r: Vec<TransformResult>) {
        // Remove whitespace from the input to get a continuous stream of hex digits.
        let filtered = strip_whitespace(&chars_of(input));
        // Hex decoding requires an even number of digits.
        if filtered.len() % 2 != 0 {
            let r: Vec<TransformResult> = Vec::new();
            assert(r.deep_view() =~= self.spec_apply(input@));
            return r;
        }
        let pairs = filtered.len() / 2;
        let mut out: Vec<char> = Vec::new();
        let mut p: usize = 0;
        while p < pairs
            invariant
                filtered@ == non_ws(input@),
                pairs == filtered@.len() / 2,
                filtered@.len() % 2 == 0,
                p <= pairs,
                out@.len() == p,
                forall|q: int| 0 <= q < p ==> (#[trigger] hex_pair(filtered@, q)) is Some,
                forall|q: int|
                    0 <= q < p ==> #[trigger] out@[q] == ((hex_pair(filtered@, q)->0) as u8) as char,
            decreases pairs - p,
        {
            assert(2 * p + 1 < filtered@.len());
            let parsed = match (digit_of(filtered[2 * p], 16), digit_of(filtered[2 * p + 1], 16)) {
                (Some(hi), Some(lo)) => Some(16 * hi + lo),
                _ => None,
            };
            match parsed {
                Some(byte) => {
                    out.push((byte as u8) as char);
                },
                None => {
                    // Invalid hex input -> no outputs
                    assert(hex_pair(filtered@, p as int) is None);
                    let r: Vec<TransformResult> = Vec::new();
                    assert(r.deep_view() =~= self.spec_apply(input@));
                    return r;
                },
            }
            p = p + 1;
        }
        assert(out@ =~= hex_text(filtered@));
        let r = vec![TransformResult::from_chars(&out, Step::from_strs("hex", "Hex decode"))];
        assert(r.deep_view() =~= self.spec_apply(input@));
        r
    }
}

} // verus!
