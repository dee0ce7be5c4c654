//! The decoder that reverses its input.
use vstd::prelude::*;
use crate::engine::{Decoder, DecoderId, Policy, Step, TransformResult, TransformView};
use crate::outside::string_from_chars;
use crate::text::chars_of;

verus! {

/// Decoder that reverses the input string.
pub struct ReverseDecoder;

impl Decoder for ReverseDecoder {
    open spec fn spec_id(&self) -> Seq<char> {
        "reverse"@
    }

    open spec fn spec_policy(&self) -> Policy {
        Policy { no_consecutive_same_op: true }
    }

    /// One output: the characters of the input in reverse order.
    open spec fn spec_apply(&self, input: Seq<char>) -> Seq<TransformView> {
        seq![(input.reverse(), ("reverse"@, "Reverse"@))]
    }

    fn id(&self) -> (r: DecoderId) {
        "reverse".to_string()
    }

    fn policy(&self) -> (p: Policy) {
        Policy { no_consecutive_same_op: true }
    }

    fn apply(&self, input: &str) -> (r: Vec<TransformResult>) {
        let cs = chars_of(input);
        let mut out: Vec<char> = Vec::new();
        let mut i: usize = cs.len();
        while i > 0
            invariant
                i <= cs@.len(),
                out@.len() == cs@.len() - i,
                forall|k: int| 0 <= k < out@.len() ==> out@[k] == cs@[cs@.len() - 1 - k],
            decreases i,
        {
            i = i - 1;
            out.push(cs[i]);
        }
        assert(out@ =~= input@.reverse());
        let step = Step::new("reverse", &chars_of("Reverse"));
        let r = vec![TransformResult { output: string_from_chars(&out), step }];
        assert(r.deep_view() =~= self.spec_apply(input@));
        r
    }
}

/// Reversing is its own inverse: the output for the output of the decoder is
/// the input again.
pub proof fn lemma_reverse_twice(input: Seq<char>)
    ensures
        ReverseDecoder.spec_apply(ReverseDecoder.spec_apply(input)[0].0)[0].0 == input,
{
    assert(input.reverse().reverse() =~= input);
}

} // verus!
