//! The URL (percent-encoding) decoder, through the `urlencoding` crate.
use vstd::prelude::*;
use crate::engine::{Decoder, DecoderId, Policy, Step, TransformResult, TransformView};
use crate::outside::{url_decode, url_decoded};
use crate::text::chars_of;

verus! {

/// Decoder that attempts to URL-decode the input string.
///
/// Behavior:
/// - Uses `urlencoding::decode` to percent-decode.
/// - After decoding, replaces '+' with a space to mimic
///   application/x-www-form-urlencoded-style decoding.
pub struct URLDecoder;

/// `s` with every '+' replaced by a space.
pub open spec fn plus_to_space(s: Seq<char>) -> Seq<char> {
    s.map_values(|c: char| if c == '+' { ' ' } else { c })
}

/// The output for the percent-decoded text: that text with '+' read as a
/// space; nothing when the input did not decode.
pub open spec fn url_outcome(decoded: Option<Seq<char>>) -> Seq<TransformView> {
    match decoded {
        Some(d) => seq![(plus_to_space(d), ("url"@, "Decode URL"@))],
        None => seq![],
    }
}

/// The abstract value of an optional string.
pub open spec fn opt_text(s: Option<String>) -> Option<Seq<char>> {
    match s {
        Some(t) => Some(t@),
        None => None,
    }
}

/// The results for the text that `urlencoding` decoded (`None` when it did not).
pub fn url_results(decoded: Option<String>) -> (r: Vec<TransformResult>)
    ensures
        r.deep_view() == url_outcome(opt_text(decoded)),
{
    match decoded {
        Some(decoded) => {
            let cs = chars_of(decoded.as_str());
            let mut out: Vec<char> = Vec::new();
            let mut k: usize = 0;
            while k < cs.len()
                invariant
                    k <= cs@.len(),
                    out@ == plus_to_space(cs@.take(k as int)),
                decreases cs@.len() - k,
            {
                let c = cs[k];
                out.push(if c == '+' { ' ' } else { c });
                k = k + 1;
                assert(out@ =~= plus_to_space(cs@.take(k as int)));
            }
            assert(cs@.take(cs@.len() as int) =~= cs@);
            let r = vec![TransformResult::from_chars(&out, Step::from_strs("url", "Decode URL"))];
            assert(r.deep_view() =~= url_outcome(Some(decoded@)));
            r
        },
        None => {
            let r: Vec<TransformResult> = Vec::new();
            assert(r.deep_view() =~= url_outcome(None));
            r
        },
    }
}

/// Every '+' of the percent-decoded text reads as a space and every other
/// character stays as it is: when the input decodes, the decoder gives one
/// output, as long as the decoded text, holding ' ' wherever that text holds
/// '+' and its character everywhere else, so that no '+' is left; when the
/// input does not decode, it gives nothing.
pub proof fn lemma_url_plus_reads_as_space(input: Seq<char>)
    ensures
        match url_decoded(input) {
            Some(d) => {
                let out = URLDecoder.spec_apply(input);
                &&& out.len() == 1
                &&& out[0].0.len() == d.len()
                &&& forall|i: int|
                    0 <= i < d.len() ==> #[trigger] out[0].0[i] == (if d[i] == '+' {
                        ' '
                    } else {
                        d[i]
                    })
                &&& !out[0].0.contains('+')
            },
            None => URLDecoder.spec_apply(input).len() == 0,
        },
{
    if let Some(d) = url_decoded(input) {
        let t = URLDecoder.spec_apply(input)[0].0;
        assert(t == plus_to_space(d));
        assert forall|i: int| 0 <= i < t.len() implies t[i] != '+' by {
            assert(t[i] == (if d[i] == '+' { ' ' } else { d[i] }));
        }
    }
}

impl Decoder for URLDecoder {
    open spec fn spec_id(&self) -> Seq<char> {
        "url"@
    }

    open spec fn spec_policy(&self) -> Policy {
        Policy { no_consecutive_same_op: true }
    }

    /// The percent-decoded text with '+' read as a space, when it decodes;
    /// else nothing.
    open spec fn spec_apply(&self, input: Seq<char>) -> Seq<TransformView> {
        url_outcome(url_decoded(input))
    }

    fn id(&self) -> (r: DecoderId) {
        "url".to_string()
    }

    fn policy(&self) -> (p: Policy) {
        Policy::default()
    }

    fn apply(&self, input: &str) -> (r: Vec<TransformResult>) {
        let decoded = url_decode(input);
        proof {
            assert(opt_text(decoded) == url_decoded(input@));
        }
        url_results(decoded)
    }
}

} // verus!
