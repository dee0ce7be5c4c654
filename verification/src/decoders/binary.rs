//! The decoder of written-out binary digits.
use vstd::prelude::*;
use crate::engine::{Decoder, DecoderId, Policy, Step, TransformResult, TransformView};
use crate::text::chars_of;

verus! {

/// Decoder that interprets sequences of '0' and '1' (ignoring whitespace and other
/// non-binary characters) as bytes and converts them to a string by mapping
/// each full 8-bit chunk to a char.
///
/// Example:
/// "01101000 01101001" -> "hi"
pub struct BinaryDecoder;

/// The binary digits of `s`, in order; every other character is dropped.
pub open spec fn bits_of(s: Seq<char>) -> Seq<char>
    decreases s.len(),
{
    if s.len() == 0 {
        seq![]
    } else if s.last() == '0' || s.last() == '1' {
        bits_of(s.drop_last()).push(s.last())
    } else {
        bits_of(s.drop_last())
    }
}

/// The number that a sequence of binary digits writes (most significant first).
pub open spec fn bits_value(b: Seq<char>) -> nat
    decreases b.len(),
{
    if b.len() == 0 {
        0
    } else {
        2 * bits_value(b.drop_last()) + if b.last() == '1' {
            1nat
        } else {
            0nat
        }
    }
}

/// One more than the largest number of `k` binary digits.
pub open spec fn pow2(k: nat) -> nat
    decreases k,
{
    if k == 0 {
        1
    } else {
        2 * pow2((k - 1) as nat)
    }
}

/// The character of a group of eight binary digits: the character whose code
/// is the byte's value.
pub open spec fn group_char(b: Seq<char>, g: int) -> char {
    (bits_value(b.subrange(8 * g, 8 * g + 8)) as u8) as char
}

/// One character per complete group of eight binary digits of the input; an
/// incomplete final group is dropped.
pub open spec fn binary_text(input: Seq<char>) -> Seq<char> {
    let b = bits_of(input);
    Seq::new(b.len() / 8, |g: int| group_char(b, g))
}

proof fn lemma_bits_value_bound(b: Seq<char>)
    ensures
        bits_value(b) < pow2(b.len()),
    decreases b.len(),
{
    if b.len() > 0 {
        lemma_bits_value_bound(b.drop_last());
    }
}

impl Decoder for BinaryDecoder {
    open spec fn spec_id(&self) -> Seq<char> {
        "binary"@
    }

    open spec fn spec_policy(&self) -> Policy {
        Policy { no_consecutive_same_op: true }
    }

    /// Always one output: the decoded characters.
    open spec fn spec_apply(&self, input: Seq<char>) -> Seq<TransformView> {
        seq![(binary_text(input), ("binary"@, "Binary to ASCII"@))]
    }

    fn id(&self) -> (r: DecoderId) {
        "binary".to_string()
    }

    fn policy(&self) -> (p: Policy) {
        Policy { no_consecutive_same_op: true }
    }

    fn apply(&self, input: &str) -> (r: Vec<TransformResult>) {
        let cs = chars_of(input);
        let mut out: Vec<char> = Vec::new();
        let mut byte: u8 = 0;
        let mut bit_count: usize = 0;
        let mut k: usize = 0;
        proof {
            assert(pow2(0) == 1);
        }
        while k < cs.len()
            invariant
                k <= cs@.len(),
                bit_count < 8,
                bits_of(cs@.take(k as int)).len() == 8 * out@.len() + bit_count,
                byte as nat == bits_value(
                    bits_of(cs@.take(k as int)).subrange(
                        8 * out@.len() as int,
                        8 * out@.len() as int + bit_count,
                    ),
                ),
                forall|g: int|
                    0 <= g < out@.len() ==> #[trigger] out@[g] == group_char(
                        bits_of(cs@.take(k as int)),
                        g,
                    ),
            decreases cs@.len() - k,
        {
            let c = cs[k];
            let ghost b = bits_of(cs@.take(k as int));
            let ghost groups: int = out@.len() as int;
            assert(cs@.take(k + 1).drop_last() =~= cs@.take(k as int));
            if c == '0' || c == '1' {
                let bit: u8 = if c == '1' {
                    1
                } else {
                    0
                };
                let ghost nb = b.push(c);
                let ghost old_group = b.subrange(8 * groups, 8 * groups + bit_count);
                let ghost new_group = nb.subrange(8 * groups, 8 * groups + bit_count + 1);
                assert(nb == bits_of(cs@.take(k + 1)));
                proof {
                    lemma_bits_value_bound(old_group);
                    assert(new_group =~= old_group.push(c));
                    assert(new_group.drop_last() =~= old_group);
                    reveal_with_fuel(pow2, 8);
                    assert(pow2(bit_count as nat) <= 128);
                    assert(bits_value(new_group) == 2 * bits_value(old_group) + bit);
                    assert forall|g: int| 0 <= g < groups implies group_char(nb, g)
                        == #[trigger] group_char(b, g) by {
                        assert(nb.subrange(8 * g, 8 * g + 8) =~= b.subrange(8 * g, 8 * g + 8));
                    }
                }
                byte = byte * 2 + bit;
                bit_count = bit_count + 1;
                assert(byte as nat == bits_value(new_group));
                if bit_count == 8 {
                    assert(group_char(nb, groups) == byte as char);
                    out.push(byte as char);
                    byte = 0;
                    bit_count = 0;
                    proof {
                        assert(nb.subrange(8 * (groups + 1), 8 * (groups + 1)) =~= Seq::<char>::empty());
                        assert forall|g: int| 0 <= g < out@.len() implies #[trigger] out@[g]
                            == group_char(nb, g) by {
                            if g < groups {
                                assert(group_char(nb, g) == group_char(b, g));
                            }
                        }
                    }
                } else {
                    proof {
                        assert forall|g: int| 0 <= g < out@.len() implies #[trigger] out@[g]
                            == group_char(nb, g) by {
                            assert(group_char(nb, g) == group_char(b, g));
                        }
                    }
                }
            } else {
                assert(b == bits_of(cs@.take(k + 1)));
            }
            k = k + 1;
        }
        assert(cs@.take(cs@.len() as int) =~= cs@);
        let ghost b = bits_of(input@);
        assert(b.len() / 8 == out@.len());
        assert(out@ =~= binary_text(input@));
        let r = vec![TransformResult::from_chars(&out, Step::from_strs("binary", "Binary to ASCII"))];
        assert(r.deep_view() =~= self.spec_apply(input@));
        r
    }
}

} // verus!
