//! The Base32 decoder, through the `fast32` crate.
use vstd::prelude::*;
use vstd::string::StringSliceAdditionalSpecFns;
use vstd::utf8::encode_utf8;
use crate::engine::{Decoder, DecoderId, Policy, Step, TransformResult, TransformView};
use crate::outside::{
    base32_decode, fast32_base32_decoded, opt_bytes, string_from_chars, utf8_lossy, utf8_lossy_decoded,
    Base32Alphabet,
};
use crate::text::{chars_of, concat_chars, trim_end_char, trim_end_matches};

verus! {

/// Decoder for Base32-encoded data.
///
/// Tries multiple common Base32 alphabets and gathers all successful decodes:
/// - RFC4648 (no padding)
/// - RFC4648 HEX (no padding)
/// - Crockford
/// - Crockford (lowercase)
///
/// Padding '=' is leniently stripped from the input before decoding.
pub struct Base32Decoder;

/// The name that the step's description gives an alphabet.
pub open spec fn base32_alphabet_name(a: Base32Alphabet) -> Seq<char> {
    match a {
        Base32Alphabet::Rfc4648 => "RFC4648"@,
        Base32Alphabet::Rfc4648Hex => "RFC4648HEX"@,
        Base32Alphabet::Crockford => "Crockford"@,
        Base32Alphabet::CrockfordLower => "Crockford lowercase"@,
    }
}

/// The output of one alphabet: the lossy UTF-8 text of the decoded bytes
/// when the alphabet decodes `bytes`, else nothing.
pub open spec fn base32_attempt(a: Base32Alphabet, bytes: Seq<u8>) -> Seq<TransformView> {
    base32_outcome(a, fast32_base32_decoded(a, bytes))
}

/// The output for what one alphabet decoded: the lossy UTF-8 text of the
/// bytes, described by the alphabet's name; nothing when it did not decode.
pub open spec fn base32_outcome(a: Base32Alphabet, decoded: Option<Seq<u8>>) -> Seq<TransformView> {
    match decoded {
        Some(d) => seq![
            (
                utf8_lossy_decoded(d),
                ("base32"@, "Base32 decode ("@ + base32_alphabet_name(a) + ")"@),
            ),
        ],
        None => seq![],
    }
}

fn alphabet_name(a: Base32Alphabet) -> (r: &'static str)
    ensures
        r@ == base32_alphabet_name(a),
{
    match a {
        Base32Alphabet::Rfc4648 => "RFC4648",
        Base32Alphabet::Rfc4648Hex => "RFC4648HEX",
        Base32Alphabet::Crockford => "Crockford",
        Base32Alphabet::CrockfordLower => "Crockford lowercase",
    }
}

/// The results for what the alphabet `a` decoded (`None` when it did not).
pub fn base32_results(a: Base32Alphabet, decoded: Option<Vec<u8>>) -> (r: Vec<TransformResult>)
    ensures
        r.deep_view() == base32_outcome(a, opt_bytes(decoded)),
{
    match decoded {
        Some(d) => {
            let output = utf8_lossy(d.as_slice());
            let desc = concat_chars(
                &concat_chars(&chars_of("Base32 decode ("), &chars_of(alphabet_name(a))),
                &chars_of(")"),
            );
            let r = vec![TransformResult { output, step: Step::new("base32", &desc) }];
            assert(r.deep_view() =~= base32_outcome(a, opt_bytes(decoded)));
            r
        },
        None => {
            let r: Vec<TransformResult> = Vec::new();
            assert(r.deep_view() =~= base32_outcome(a, opt_bytes(decoded)));
            r
        },
    }
}

/// Appends the output of one alphabet to `results`.
fn attempt(a: Base32Alphabet, bytes: &[u8], results: &mut Vec<TransformResult>)
    ensures
        final(results).deep_view() == old(results).deep_view() + base32_attempt(a, bytes@),
{
    let ghost before = results.deep_view();
    let mut found = base32_results(a, base32_decode(a, bytes));
    let ghost added = found.deep_view();
    results.append(&mut found);
    assert(results.deep_view() =~= before + added);
}

/// Removing trailing '=' twice removes no more than removing them once: what
/// is left is empty or ends with another character.
proof fn lemma_trim_end_settled(s: Seq<char>)
    ensures
        trim_end_char(s, '=').len() == 0 || trim_end_char(s, '=').last() != '=',
        trim_end_char(trim_end_char(s, '='), '=') == trim_end_char(s, '='),
    decreases s.len(),
{
    if s.len() > 0 && s.last() == '=' {
        lemma_trim_end_settled(s.drop_last());
    }
}

/// Appending '=' characters changes nothing of what `trim_end_char` leaves.
proof fn lemma_trim_end_padded(s: Seq<char>, pad: Seq<char>)
    requires
        forall|i: int| 0 <= i < pad.len() ==> #[trigger] pad[i] == '=',
    ensures
        trim_end_char(s + pad, '=') == trim_end_char(s, '='),
    decreases pad.len(),
{
    if pad.len() == 0 {
        assert(s + pad =~= s);
    } else {
        assert((s + pad).drop_last() =~= s + pad.drop_last());
        assert((s + pad).last() == '=');
        lemma_trim_end_padded(s, pad.drop_last());
    }
}

/// Padding is stripped completely before any alphabet sees the input: the
/// outputs for a text followed by any number of '=' are those for the text
/// alone, and those for the text with all its trailing '=' removed.
pub proof fn lemma_base32_padding_ignored(input: Seq<char>, pad: Seq<char>)
    requires
        forall|i: int| 0 <= i < pad.len() ==> #[trigger] pad[i] == '=',
    ensures
        Base32Decoder.spec_apply(input + pad) == Base32Decoder.spec_apply(input),
        Base32Decoder.spec_apply(input) == Base32Decoder.spec_apply(trim_end_char(input, '=')),
{
    lemma_trim_end_padded(input, pad);
    lemma_trim_end_settled(input);
}

impl Decoder for Base32Decoder {
    open spec fn spec_id(&self) -> Seq<char> {
        "base32"@
    }

    open spec fn spec_policy(&self) -> Policy {
        Policy { no_consecutive_same_op: false }
    }

    /// With trailing '=' removed, the outputs of the RFC4648, RFC4648 hex,
    /// Crockford and lowercase Crockford alphabets, in that order.
    open spec fn spec_apply(&self, input: Seq<char>) -> Seq<TransformView> {
        let bytes = encode_utf8(trim_end_char(input, '='));
        base32_attempt(Base32Alphabet::Rfc4648, bytes) + base32_attempt(
            Base32Alphabet::Rfc4648Hex,
            bytes,
        ) + base32_attempt(Base32Alphabet::Crockford, bytes) + base32_attempt(
            Base32Alphabet::CrockfordLower,
            bytes,
        )
    }

    fn id(&self) -> (r: DecoderId) {
        "base32".to_string()
    }

    fn policy(&self) -> (p: Policy) {
        // Allow repeated Base32 decodes if desired by exploration logic.
        Policy { no_consecutive_same_op: false }
    }

    fn apply(&self, input: &str) -> (r: Vec<TransformResult>) {
        // Be lenient about trailing padding.
        let trimmed = string_from_chars(&trim_end_matches(&chars_of(input), '='));
        let bytes = trimmed.as_str().as_bytes();
        let mut results: Vec<TransformResult> = Vec::new();
        attempt(Base32Alphabet::Rfc4648, bytes, &mut results);
        attempt(Base32Alphabet::Rfc4648Hex, bytes, &mut results);
        attempt(Base32Alphabet::Crockford, bytes, &mut results);
        attempt(Base32Alphabet::CrockfordLower, bytes, &mut results);
        assert(results.deep_view() =~= self.spec_apply(input@));
        results
    }
}

} // verus!
