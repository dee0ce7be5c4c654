//! The brute-force Caesar decoder.
use vstd::prelude::*;
use crate::engine::{Decoder, DecoderId, Policy, Step, TransformResult, TransformView};
use crate::text::{chars_of, concat_chars, decimal, is_alpha, is_ascii_alphabetic, is_lower, small_decimal};

verus! {

/// Brute-force Caesar shift decoder (shifts 1..=25).
pub struct CaesarDecoder;

/// `c` shifted forward by `shift` places within its alphabet when it is an
/// ASCII letter, keeping its case; any other character is unchanged.
pub open spec fn shift_char(c: char, shift: nat) -> char {
    if is_alpha(c) {
        let base: int = if is_lower(c) {
            'a' as int
        } else {
            'A' as int
        };
        (((c as int - base + shift) % 26 + base) as u8) as char
    } else {
        c
    }
}

/// The text with every ASCII letter shifted by `shift`.
pub open spec fn shift_text(s: Seq<char>, shift: nat) -> Seq<char> {
    s.map_values(|c: char| shift_char(c, shift))
}

/// The output for shift `shift`.
pub open spec fn caesar_result(input: Seq<char>, shift: nat) -> TransformView {
    (shift_text(input, shift), ("caesar"@, "Caesar shift "@ + decimal(shift)))
}

impl Decoder for CaesarDecoder {
    open spec fn spec_id(&self) -> Seq<char> {
        "caesar"@
    }

    open spec fn spec_policy(&self) -> Policy {
        Policy { no_consecutive_same_op: true }
    }

    /// Twenty-five outputs, for the shifts 1 to 25 in order.
    open spec fn spec_apply(&self, input: Seq<char>) -> Seq<TransformView> {
        Seq::new(25, |i: int| caesar_result(input, (i + 1) as nat))
    }

    fn id(&self) -> (r: DecoderId) {
        "caesar".to_string()
    }

    fn policy(&self) -> (p: Policy) {
        // Avoid consecutive Caesar shifts (which are typically redundant).
        Policy { no_consecutive_same_op: true }
    }

    fn apply(&self, input: &str) -> (r: Vec<TransformResult>) {
        let cs = chars_of(input);
        let mut out: Vec<TransformResult> = Vec::with_capacity(25);
        let mut shift: u32 = 1;
        while shift <= 25
            invariant
                1 <= shift <= 26,
                cs@ == input@,
                out.deep_view().len() == shift - 1,
                forall|i: int|
                    0 <= i < shift - 1 ==> #[trigger] out.deep_view()[i] == caesar_result(
                        input@,
                        (i + 1) as nat,
                    ),
            decreases 26 - shift,
        {
            let mut decoded: Vec<char> = Vec::new();
            let mut k: usize = 0;
            while k < cs.len()
                invariant
                    1 <= shift <= 25,
                    k <= cs@.len(),
                    decoded@ == shift_text(cs@.take(k as int), shift as nat),
                decreases cs@.len() - k,
            {
                let c = cs[k];
                let d = if is_ascii_alphabetic(c) {
                    let base: u32 = if 'a' <= c && c <= 'z' {
                        'a' as u32
                    } else {
                        'A' as u32
                    };
                    let x: u32 = ((c as u32) - base + shift) % 26 + base;
                    (x as u8) as char
                } else {
                    c
                };
                decoded.push(d);
                k = k + 1;
                assert(decoded@ =~= shift_text(cs@.take(k as int), shift as nat));
            }
            assert(cs@.take(cs@.len() as int) =~= cs@);
            let desc = concat_chars(&chars_of("Caesar shift "), &small_decimal(shift));
            let ghost before = out.deep_view();
            out.push(TransformResult::from_chars(&decoded, Step::new("caesar", &desc)));
            assert(out.deep_view() =~= before.push(caesar_result(input@, shift as nat)));
            shift = shift + 1;
        }
        assert(out.deep_view() =~= self.spec_apply(input@));
        out
    }
}

/// Shifting back by the rest of the alphabet undoes a shift: shifting by `k`
/// and then by `26 - k` gives the text back.
pub proof fn lemma_shift_round_trip(s: Seq<char>, k: nat)
    requires
        k <= 26,
    ensures
        shift_text(shift_text(s, k), (26 - k) as nat) == s,
{
    let back = (26 - k) as nat;
    assert forall|i: int| 0 <= i < s.len() implies #[trigger] shift_text(shift_text(s, k), back)[i]
        == s[i] by {
        let c = s[i];
        if is_alpha(c) {
            let base: int = if is_lower(c) {
                'a' as int
            } else {
                'A' as int
            };
            let x = c as int - base;
            assert(0 <= x < 26);
            let y = (x + k) % 26;
            assert(0 <= y < 26);
            let d = shift_char(c, k);
            assert(d as int == y + base);
            assert(is_alpha(d) && is_lower(d) == is_lower(c));
            assert((y + back) % 26 == x) by {
                assert(y == x + k || y == x + k - 26);
            }
        }
    }
    assert(shift_text(shift_text(s, k), back) =~= s);
}

/// Every output of the Caesar decoder, shifted on by the rest of the
/// alphabet, gives the input back: the `i`-th output is the shift by `i + 1`.
pub proof fn lemma_caesar_outputs_invert(input: Seq<char>)
    ensures
        CaesarDecoder.spec_apply(input).len() == 25,
        forall|i: int|
            0 <= i < 25 ==> shift_text((#[trigger] CaesarDecoder.spec_apply(input)[i]).0, (25 - i) as nat)
                == input,
{
    assert forall|i: int|
        0 <= i < 25 implies shift_text((#[trigger] CaesarDecoder.spec_apply(input)[i]).0, (25 - i) as nat)
        == input by {
        lemma_shift_round_trip(input, (i + 1) as nat);
    }
}

} // verus!
