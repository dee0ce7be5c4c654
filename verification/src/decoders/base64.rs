//! The Base64 decoder, through the `fast32` crate.
use vstd::prelude::*;
use vstd::string::StringSliceAdditionalSpecFns;
use vstd::utf8::{decode_utf8, encode_utf8, valid_utf8};
use crate::engine::{Decoder, DecoderId, Policy, Step, TransformResult, TransformView};
use crate::outside::{
    ascii_bytes, base64_decode, base64_digit, base64_nopad, fast32_base64_decoded, opt_bytes,
    string_from_chars, utf8_lossy, utf8_lossy_decoded, Base64Alphabet,
};
use crate::text::{
    chars_of, contains_char, is_ws, trim_end_char, trim_end_matches, trim_whitespace, trim_ws,
    trim_ws_end, trim_ws_start,
};

verus! {

/// Decoder for Base64-encoded data.
pub struct Base64Decoder;

/// The bytes that the decoder hands to `fast32`: the input without its
/// surrounding white space and without trailing '='.
pub open spec fn base64_input(input: Seq<char>) -> Seq<u8> {
    encode_utf8(trim_end_char(trim_ws(input), '='))
}

/// The bytes decoded by the standard alphabet, or else by the URL-safe one.
pub open spec fn base64_bytes(input: Seq<char>) -> Option<Seq<u8>> {
    match fast32_base64_decoded(Base64Alphabet::Rfc4648, base64_input(input)) {
        Some(d) => Some(d),
        None => fast32_base64_decoded(Base64Alphabet::Rfc4648Url, base64_input(input)),
    }
}

/// The output for what the alphabets decoded: the lossy UTF-8 text of the
/// bytes unless it holds the replacement character U+FFFD; nothing when that
/// is so or when nothing decoded.
pub open spec fn base64_outcome(decoded: Option<Seq<u8>>) -> Seq<TransformView> {
    match decoded {
        Some(d) => if utf8_lossy_decoded(d).contains('\u{FFFD}') {
            seq![]
        } else {
            seq![(utf8_lossy_decoded(d), ("base64"@, "Base64 decode"@))]
        },
        None => seq![],
    }
}

/// The standard Base64 encoding of `b` with its '=' padding.
pub open spec fn base64_padded(b: Seq<u8>) -> Seq<char> {
    base64_nopad(b) + if b.len() % 3 == 1 {
        seq!['=', '=']
    } else if b.len() % 3 == 2 {
        seq!['=']
    } else {
        seq![]
    }
}

/// What decoding gives for the bytes `b`: their text when they are UTF-8
/// holding no U+FFFD, else nothing.
pub open spec fn decoded_bytes_outcome(b: Seq<u8>) -> Seq<TransformView> {
    if valid_utf8(b) && !decode_utf8(b).contains('\u{FFFD}') {
        seq![(decode_utf8(b), ("base64"@, "Base64 decode"@))]
    } else {
        seq![]
    }
}

/// For the UTF-8 bytes of a text holding no U+FFFD, decoding gives that text
/// back.
pub proof fn lemma_text_round_trip(s: Seq<char>)
    requires
        !s.contains('\u{FFFD}'),
    ensures
        decoded_bytes_outcome(encode_utf8(s)) == seq![(s, ("base64"@, "Base64 decode"@))],
{
    broadcast use vstd::utf8::encode_utf8_valid_utf8, vstd::utf8::encode_utf8_decode_utf8;

}

/// Whether every character of `s` is white space.
pub open spec fn all_ws(s: Seq<char>) -> bool {
    forall|i: int| 0 <= i < s.len() ==> is_ws(#[trigger] s[i])
}

/// A character of the standard Base64 alphabet.
pub open spec fn is_base64_char(c: char) -> bool {
    ||| ('A' <= c && c <= 'Z')
    ||| ('a' <= c && c <= 'z')
    ||| ('0' <= c && c <= '9')
    ||| c == '+'
    ||| c == '/'
}

proof fn lemma_digit(v: int)
    requires
        0 <= v < 64,
    ensures
        is_base64_char(base64_digit(v)),
{
}

/// Every character of the unpadded encoding is a digit of the standard
/// alphabet.
pub proof fn lemma_nopad_chars(b: Seq<u8>)
    ensures
        forall|i: int| 0 <= i < base64_nopad(b).len() ==> is_base64_char(#[trigger] base64_nopad(b)[i]),
    decreases b.len(),
{
    let e = base64_nopad(b);
    if b.len() == 0 {
    } else if b.len() == 1 {
        lemma_digit((b[0] as int) / 4);
        lemma_digit(((b[0] as int) % 4) * 16);
    } else if b.len() == 2 {
        lemma_digit((b[0] as int) / 4);
        lemma_digit(((b[0] as int) % 4) * 16 + (b[1] as int) / 16);
        lemma_digit(((b[1] as int) % 16) * 4);
    } else {
        lemma_digit((b[0] as int) / 4);
        lemma_digit(((b[0] as int) % 4) * 16 + (b[1] as int) / 16);
        lemma_digit(((b[1] as int) % 16) * 4 + (b[2] as int) / 64);
        lemma_digit((b[2] as int) % 64);
        lemma_nopad_chars(b.skip(3));
        let rest = base64_nopad(b.skip(3));
        assert forall|i: int| 0 <= i < e.len() implies is_base64_char(#[trigger] e[i]) by {
            if i >= 4 {
                assert(e[i] == rest[i - 4]);
            }
        }
    }
}

proof fn lemma_trim_start(p: Seq<char>, u: Seq<char>)
    requires
        all_ws(p),
        u.len() == 0 || !is_ws(u[0]),
    ensures
        trim_ws_start(p + u) == u,
    decreases p.len(),
{
    if p.len() == 0 {
        assert(p + u =~= u);
    } else {
        assert((p + u).drop_first() =~= p.drop_first() + u);
        assert(is_ws((p + u)[0]));
        lemma_trim_start(p.drop_first(), u);
    }
}

proof fn lemma_trim_end(u: Seq<char>, q: Seq<char>)
    requires
        all_ws(q),
        u.len() == 0 || !is_ws(u.last()),
    ensures
        trim_ws_end(u + q) == u,
    decreases q.len(),
{
    if q.len() == 0 {
        assert(u + q =~= u);
    } else {
        assert((u + q).drop_last() =~= u + q.drop_last());
        assert(is_ws((u + q).last()));
        lemma_trim_end(u, q.drop_last());
    }
}

proof fn lemma_trim_end_pad(t: Seq<char>, pad: Seq<char>)
    requires
        forall|i: int| 0 <= i < pad.len() ==> #[trigger] pad[i] == '=',
        t.len() == 0 || t.last() != '=',
    ensures
        trim_end_char(t + pad, '=') == t,
    decreases pad.len(),
{
    if pad.len() == 0 {
        assert(t + pad =~= t);
    } else {
        assert((t + pad).drop_last() =~= t + pad.drop_last());
        assert((t + pad).last() == '=');
        lemma_trim_end_pad(t, pad.drop_last());
    }
}

proof fn lemma_ascii_encoding(cs: Seq<char>)
    requires
        forall|i: int| 0 <= i < cs.len() ==> is_base64_char(#[trigger] cs[i]),
    ensures
        encode_utf8(cs) == ascii_bytes(cs),
    decreases cs.len(),
{
    if cs.len() > 0 {
        let rest = cs.drop_first();
        assert forall|i: int| 0 <= i < rest.len() implies is_base64_char(#[trigger] rest[i]) by {
            assert(rest[i] == cs[i + 1]);
        }
        lemma_ascii_encoding(rest);
        let v = cs[0] as u32;
        assert(is_base64_char(cs[0]));
        assert(v <= 0x7F);
        assert((v & 0x7F) as u8 == v as u8) by (bit_vector)
            requires
                v <= 0x7F,
        ;
        assert(ascii_bytes(cs) =~= seq![cs[0] as u8] + ascii_bytes(rest));
    }
}

/// The bytes that the decoder hands to `fast32` for the padded encoding of
/// `b`, with white space around it, are the unpadded encoding's ASCII bytes.
proof fn lemma_padded_input(b: Seq<u8>, pre: Seq<char>, post: Seq<char>)
    requires
        all_ws(pre),
        all_ws(post),
    ensures
        base64_input(pre + base64_padded(b) + post) == ascii_bytes(base64_nopad(b)),
{
    let e = base64_nopad(b);
    let t = base64_padded(b);
    let pad = t.skip(e.len() as int);
    assert(t =~= e + pad);
    lemma_nopad_chars(b);
    assert forall|i: int| 0 <= i < t.len() implies !is_ws(#[trigger] t[i]) by {
        if i < e.len() {
            assert(t[i] == e[i]);
            assert(is_base64_char(e[i]));
        } else {
            assert(t[i] == '=');
        }
    }
    if t.len() > 0 {
        lemma_trim_start(pre, t + post);
        assert(pre + (t + post) =~= pre + t + post);
        lemma_trim_end(t, post);
    } else {
        assert(pre + t + post =~= (pre + post) + t);
        assert(all_ws(pre + post));
        lemma_trim_start(pre + post, t);
        assert(trim_ws_end(t) == t);
    }
    assert(trim_ws(pre + t + post) == t);
    assert forall|i: int| 0 <= i < pad.len() implies #[trigger] pad[i] == '=' by {
        assert(pad[i] == t[e.len() + i]);
    }
    if e.len() > 0 {
        assert(is_base64_char(e[e.len() - 1]));
    }
    lemma_trim_end_pad(e, pad);
    lemma_ascii_encoding(e);
}

/// The results for the bytes that an alphabet decoded (`None` when none did).
pub fn base64_results(decoded: Option<Vec<u8>>) -> (r: Vec<TransformResult>)
    ensures
        r.deep_view() == base64_outcome(opt_bytes(decoded)),
        decoded matches Some(d) ==> r.deep_view() == decoded_bytes_outcome(d@),
{
    match decoded {
        Some(decoded) => {
            let output = utf8_lossy(decoded.as_slice());
            // Filter out lossy conversions (presence of the UTF-8 replacement char).
            if contains_char(&chars_of(output.as_str()), '\u{FFFD}') {
                let r: Vec<TransformResult> = Vec::new();
                assert(r.deep_view() =~= base64_outcome(opt_bytes(Some(decoded))));
                assert(r.deep_view() =~= decoded_bytes_outcome(decoded@));
                return r;
            }
            let r = vec![
                TransformResult { output, step: Step::from_strs("base64", "Base64 decode") },
            ];
            assert(r.deep_view() =~= base64_outcome(opt_bytes(Some(decoded))));
            assert(r.deep_view() =~= decoded_bytes_outcome(decoded@));
            r
        },
        None => {
            let r: Vec<TransformResult> = Vec::new();
            assert(r.deep_view() =~= base64_outcome(None));
            r
        },
    }
}

impl Decoder for Base64Decoder {
    open spec fn spec_id(&self) -> Seq<char> {
        "base64"@
    }

    open spec fn spec_policy(&self) -> Policy {
        Policy { no_consecutive_same_op: false }
    }

    /// The lossy UTF-8 text of the decoded bytes, unless that text holds the
    /// replacement character U+FFFD (a lossy conversion) or neither alphabet
    /// decodes the input; then nothing.
    open spec fn spec_apply(&self, input: Seq<char>) -> Seq<TransformView> {
        base64_outcome(base64_bytes(input))
    }

    fn id(&self) -> (r: DecoderId) {
        "base64".to_string()
    }

    fn policy(&self) -> (p: Policy) {
        Policy { no_consecutive_same_op: false }
    }

    /// Decoding undoes encoding: for the standard padded encoding of any
    /// bytes, with white space around it, the output is the bytes' text when
    /// they are UTF-8 holding no U+FFFD, and nothing otherwise.
    fn apply(&self, input: &str) -> (r: Vec<TransformResult>)
        ensures
            forall|b: Seq<u8>, pre: Seq<char>, post: Seq<char>|
                #![trigger pre + base64_padded(b) + post]
                input@ == pre + base64_padded(b) + post && all_ws(pre) && all_ws(post)
                    ==> r.deep_view() == decoded_bytes_outcome(b),
    {
        // Strip trailing '=' padding characters for leniency
        let stripped = string_from_chars(
            &trim_end_matches(&trim_whitespace(&chars_of(input)), '='),
        );
        let bytes = stripped.as_str().as_bytes();
        let first = base64_decode(Base64Alphabet::Rfc4648, bytes);
        let ghost standard = first;
        let decoded = match first {
            Some(d) => Some(d),
            None => base64_decode(Base64Alphabet::Rfc4648Url, bytes),
        };
        let r = base64_results(decoded);
        proof {
            assert(bytes@ == base64_input(input@));
            assert forall|b: Seq<u8>, pre: Seq<char>, post: Seq<char>|
                input@ == pre + base64_padded(b) + post && all_ws(pre) && all_ws(post)
                implies r.deep_view() == decoded_bytes_outcome(b) by {
                lemma_padded_input(b, pre, post);
                assert(bytes@ == ascii_bytes(base64_nopad(b)));
                assert(opt_bytes(standard) == Some(b));
            }
        }
        r
    }
}

} // verus!
