//! The decoder of decimal character codes.
use vstd::prelude::*;
use crate::engine::{Decoder, DecoderId, Policy, Step, TransformResult, TransformView};
use crate::outside::{char_from_u32, is_scalar};
use crate::text::{chars_of, copy_range, is_ascii_digit, is_digit, parse_u32, parse_u32_radix};

verus! {

/// Decoder that reads runs of decimal digits as character codes.
pub struct Dec2AsciiDecoder;

/// The characters that the codes in `s` stand for. Non-digits are skipped; a
/// code starting with '1' takes three characters and any other code two (fewer
/// at the end); a code that does not parse, or is no Unicode scalar value,
/// gives nothing.
pub open spec fn dec2ascii_text(s: Seq<char>) -> Seq<char>
    decreases s.len(),
{
    if s.len() == 0 {
        seq![]
    } else if !is_digit(s[0]) {
        dec2ascii_text(s.drop_first())
    } else {
        let want: int = if s[0] == '1' {
            3
        } else {
            2
        };
        let k: int = if want <= s.len() {
            want
        } else {
            s.len() as int
        };
        code_char(s.take(k)) + dec2ascii_text(s.skip(k))
    }
}

/// The character of one code, as a sequence of at most one character.
pub open spec fn code_char(tok: Seq<char>) -> Seq<char> {
    match parse_u32(tok, 10) {
        Some(v) => if is_scalar(v) {
            seq![v as char]
        } else {
            seq![]
        },
        None => seq![],
    }
}

impl Decoder for Dec2AsciiDecoder {
    open spec fn spec_id(&self) -> Seq<char> {
        "dec2ascii"@
    }

    open spec fn spec_policy(&self) -> Policy {
        Policy { no_consecutive_same_op: true }
    }

    /// Always one output: the decoded characters.
    open spec fn spec_apply(&self, input: Seq<char>) -> Seq<TransformView> {
        seq![(dec2ascii_text(input), ("dec2ascii"@, "Decimal to ASCII"@))]
    }

    fn id(&self) -> (r: DecoderId) {
        "dec2ascii".to_string()
    }

    fn policy(&self) -> (p: Policy) {
        Policy::default()
    }

    fn apply(&self, input: &str) -> (r: Vec<TransformResult>) {
        let cs = chars_of(input);
        let n = cs.len();
        let mut decoded: Vec<char> = Vec::new();
        let mut i: usize = 0;
        assert(cs@.skip(0) =~= cs@);
        while i < n
            invariant
                n == cs@.len(),
                i <= n,
                decoded@ + dec2ascii_text(cs@.skip(i as int)) == dec2ascii_text(cs@),
            decreases n - i,
        {
            let ghost rest = cs@.skip(i as int);
            let c = cs[i];
            if !is_ascii_digit(c) {
                // Skip non-digits
                assert(rest.drop_first() =~= cs@.skip(i + 1));
                i = i + 1;
            } else {
                // Determine length: if starts with '1', take 3, else take 2
                let want: usize = if c == '1' {
                    3
                } else {
                    2
                };
                let k: usize = if want <= n - i {
                    want
                } else {
                    n - i
                };
                let tok = copy_range(&cs, i, i + k);
                assert(tok@ =~= rest.take(k as int));
                assert(rest.skip(k as int) =~= cs@.skip(i + k));
                let ghost before = decoded@;
                if let Some(code) = parse_u32_radix(&tok, 10) {
                    if let Some(ch) = char_from_u32(code) {
                        assert(ch == code as char);
                        decoded.push(ch);
                    }
                }
                assert(decoded@ =~= before + code_char(tok@));
                i = i + k;
            }
        }
        assert(cs@.skip(n as int) =~= Seq::<char>::empty());
        let r = vec![
            TransformResult::from_chars(&decoded, Step::from_strs("dec2ascii", "Decimal to ASCII")),
        ];
        assert(r.deep_view() =~= self.spec_apply(input@));
        r
    }
}

} // verus!
