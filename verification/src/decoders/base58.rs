//! The Base58 decoder (Bitcoin alphabet), through the `bs58` crate.
use vstd::prelude::*;
use crate::engine::{Decoder, DecoderId, Policy, Step, TransformResult, TransformView};
use crate::outside::{bs58_decode, bs58_decoded, opt_bytes, utf8_lossy, utf8_lossy_decoded};

verus! {

/// Decoder for Base58-encoded data.
///
/// Uses the `bs58` crate to decode the input. On success, returns a single
/// result with the decoded bytes interpreted as UTF-8 (lossy).
pub struct Base58Decoder;

/// The output for the decoded bytes: their lossy UTF-8 text; nothing when
/// the input did not decode.
pub open spec fn base58_outcome(decoded: Option<Seq<u8>>) -> Seq<TransformView> {
    match decoded {
        Some(bytes) => seq![(utf8_lossy_decoded(bytes), ("base58"@, "Base58 decode"@))],
        None => seq![],
    }
}

/// The results for the bytes that `bs58` decoded (`None` when it did not).
pub fn base58_results(decoded: Option<Vec<u8>>) -> (r: Vec<TransformResult>)
    ensures
        r.deep_view() == base58_outcome(opt_bytes(decoded)),
{
    match decoded {
        Some(decoded) => {
            let output = utf8_lossy(decoded.as_slice());
            let r = vec![
                TransformResult { output, step: Step::from_strs("base58", "Base58 decode") },
            ];
            assert(r.deep_view() =~= base58_outcome(opt_bytes(Some(decoded))));
            r
        },
        None => {
            let r: Vec<TransformResult> = Vec::new();
            assert(r.deep_view() =~= base58_outcome(None));
            r
        },
    }
}

impl Decoder for Base58Decoder {
    open spec fn spec_id(&self) -> Seq<char> {
        "base58"@
    }

    open spec fn spec_policy(&self) -> Policy {
        Policy { no_consecutive_same_op: false }
    }

    /// The lossy UTF-8 text of the decoded bytes when `bs58` decodes the
    /// input, else nothing.
    open spec fn spec_apply(&self, input: Seq<char>) -> Seq<TransformView> {
        base58_outcome(bs58_decoded(input))
    }

    fn id(&self) -> (r: DecoderId) {
        "base58".to_string()
    }

    fn policy(&self) -> (p: Policy) {
        // Allow repeated Base58 decodes if desired by exploration logic.
        Policy { no_consecutive_same_op: false }
    }

    fn apply(&self, input: &str) -> (r: Vec<TransformResult>) {
        base58_results(bs58_decode(input))
    }
}

} // verus!
