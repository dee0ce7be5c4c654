//! The decoder of numeric HTML entities.
use vstd::prelude::*;
use crate::engine::{Decoder, DecoderId, Policy, Step, TransformResult, TransformView};
use crate::outside::{char_from_u32, is_scalar};
use crate::text::{
    all_are, all_equal, chars_of, copy_range, parse_u32, parse_u32_radix, split_on,
    trim_end_char, trim_end_matches, trim_start_char, trim_start_matches,
};

verus! {

/// Decoder that attempts to interpret numeric HTML entities (decimal or hex) and
/// convert them to characters.
///
/// Notes:
/// - This is a very naive implementation that splits on '&' and decodes each
///   token as either decimal (e.g., `#65;`) or hexadecimal (e.g., `#x41;`).
/// - Unknown or invalid tokens are mapped to `\0` due to the current parsing
///   strategy.
/// - If the result would be empty or only contain '?' characters, no output is produced.
pub struct HTMLEntityDecoder;

/// The code that a piece between two '&' stands for: leading '#' and trailing
/// ';' removed, then hexadecimal after an 'x', else decimal; 0 when the digits
/// do not parse.
pub open spec fn entity_code(piece: Seq<char>) -> u32 {
    let e = trim_end_char(trim_start_char(piece, '#'), ';');
    let parsed = if e.len() > 0 && e[0] == 'x' {
        parse_u32(e.drop_first(), 16)
    } else {
        parse_u32(e, 10)
    };
    match parsed {
        Some(v) => v,
        None => 0,
    }
}

/// The character that a piece decodes to: the one with its code, or '?' when
/// the code is no Unicode scalar value.
pub open spec fn entity_char(piece: Seq<char>) -> char {
    let v = entity_code(piece);
    if is_scalar(v) {
        v as char
    } else {
        '?'
    }
}

/// One character per piece of the input between the '&' separators.
pub open spec fn entity_text(input: Seq<char>) -> Seq<char> {
    split_on(input, '&').map_values(|p: Seq<char>| entity_char(p))
}

/// Decodes one piece between two '&' separators.
fn decode_entity(piece: &Vec<char>) -> (c: char)
    ensures
        c == entity_char(piece@),
{
    let e = trim_end_matches(&trim_start_matches(piece, '#'), ';');
    let parsed = if e.len() > 0 && e[0] == 'x' {
        parse_u32_radix(&copy_range(&e, 1, e.len()), 16)
    } else {
        parse_u32_radix(&e, 10)
    };
    proof {
        if e@.len() > 0 && e@[0] == 'x' {
            assert(e@.subrange(1, e@.len() as int) =~= e@.drop_first());
        }
    }
    let v: u32 = match parsed {
        Some(v) => v,
        None => 0,
    };
    match char_from_u32(v) {
        Some(c) => c,
        None => '?',
    }
}

impl Decoder for HTMLEntityDecoder {
    open spec fn spec_id(&self) -> Seq<char> {
        "html_entity"@
    }

    open spec fn spec_policy(&self) -> Policy {
        Policy { no_consecutive_same_op: true }
    }

    /// One output, the decoded pieces, unless they are all '?'.
    open spec fn spec_apply(&self, input: Seq<char>) -> Seq<TransformView> {
        let out = entity_text(input);
        if all_are(out, '?') || out.len() == 0 {
            seq![]
        } else {
            seq![(out, ("html_entity"@, "Decode HTML entity"@))]
        }
    }

    fn id(&self) -> (r: DecoderId) {
        "html_entity".to_string()
    }

    fn policy(&self) -> (p: Policy) {
        Policy { no_consecutive_same_op: true }
    }

    fn apply(&self, input: &str) -> (r: Vec<TransformResult>) {
        let cs = chars_of(input);
        let mut out: Vec<char> = Vec::new();
        let mut cur: Vec<char> = Vec::new();
        let ghost mut done: Seq<Seq<char>> = seq![];
        let mut k: usize = 0;
        while k < cs.len()
            invariant
                cs@ == input@,
                k <= cs@.len(),
                split_on(cs@.take(k as int), '&') == done.push(cur@),
                out@ == done.map_values(|p: Seq<char>| entity_char(p)),
            decreases cs@.len() - k,
        {
            assert(cs@.take(k + 1).drop_last() =~= cs@.take(k as int));
            if cs[k] == '&' {
                let c = decode_entity(&cur);
                out.push(c);
                proof {
                    done = done.push(cur@);
                }
                cur = Vec::new();
                assert(out@ =~= done.map_values(|p: Seq<char>| entity_char(p)));
            } else {
                cur.push(cs[k]);
                assert(split_on(cs@.take(k + 1), '&') =~= done.push(cur@));
            }
            k = k + 1;
        }
        assert(cs@.take(cs@.len() as int) =~= cs@);
        let c = decode_entity(&cur);
        out.push(c);
        assert(out@ =~= entity_text(input@));
        if all_equal(&out, '?') || out.len() == 0 {
            let r: Vec<TransformResult> = Vec::new();
            assert(r.deep_view() =~= self.spec_apply(input@));
            return r;
        }
        let r = vec![
            TransformResult::from_chars(&out, Step::from_strs("html_entity", "Decode HTML entity")),
        ];
        assert(r.deep_view() =~= self.spec_apply(input@));
        r
    }
}

} // verus!
