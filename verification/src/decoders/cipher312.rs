//! The "312" cipher: letters and digits written as triplets of the digits 1, 2
//! and 3 (with a trailing 8 for digits), where a doubled 1, 2 or 3 may be
//! squished to 4, 5 or 6 and 0 stands for a space.
use vstd::prelude::*;
use crate::engine::{Decoder, DecoderId, Policy, Step, TransformResult, TransformView};
use crate::outside::string_from_chars;
use crate::text::{all_are, all_equal, chars_of, is_ascii_digit, is_ascii_whitespace, is_ascii_ws, is_digit};

verus! {

/// Decoder for the 312 cipher.
pub struct ThreeOneTwoCipher;

/// The characters that the cipher's input may hold: ASCII digits and ASCII
/// white space.
pub open spec fn cipher_char(c: char) -> bool {
    is_digit(c) || is_ascii_ws(c)
}

/// Whether every character of `s` may stand in the cipher's input.
pub open spec fn all_cipher_chars(s: Seq<char>) -> bool {
    forall|i: int| 0 <= i < s.len() ==> cipher_char(#[trigger] s[i])
}

/// Undoes the squishing of one character: 4, 5 and 6 stand for 11, 22 and 33.
pub open spec fn unsquish(c: char) -> Seq<char> {
    if c == '4' {
        seq!['1', '1']
    } else if c == '5' {
        seq!['2', '2']
    } else if c == '6' {
        seq!['3', '3']
    } else {
        seq![c]
    }
}

/// The input with every squished digit expanded.
pub open spec fn expand(s: Seq<char>) -> Seq<char>
    decreases s.len(),
{
    if s.len() == 0 {
        seq![]
    } else {
        expand(s.drop_last()) + unsquish(s.last())
    }
}

/// The character that a triplet stands for, '?' for a triplet that stands
/// for none.
pub open spec fn triplet_char(a: char, b: char, c: char) -> char {
    match (a, b, c) {
        ('1', '1', '1') => 'A',
        ('1', '1', '2') => 'B',
        ('1', '1', '3') => 'C',
        ('1', '2', '1') => 'D',
        ('1', '2', '2') => 'E',
        ('1', '2', '3') => 'F',
        ('1', '3', '1') => 'G',
        ('1', '3', '2') => 'H',
        ('1', '3', '3') => 'I',
        ('2', '1', '1') => 'J',
        ('2', '1', '2') => 'K',
        ('2', '1', '3') => 'L',
        ('2', '2', '1') => 'M',
        ('2', '2', '2') => 'N',
        ('2', '2', '3') => 'O',
        ('2', '3', '1') => 'P',
        ('2', '3', '2') => 'Q',
        ('2', '3', '3') => 'R',
        ('3', '1', '1') => 'S',
        ('3', '1', '2') => 'T',
        ('3', '1', '3') => 'U',
        ('3', '2', '1') => 'V',
        ('3', '2', '2') => 'W',
        ('3', '2', '3') => 'X',
        ('3', '3', '1') => 'Y',
        ('3', '3', '2') => 'Z',
        ('1', '1', '8') => '1',
        ('1', '2', '8') => '2',
        ('1', '3', '8') => '3',
        ('2', '1', '8') => '4',
        ('2', '2', '8') => '5',
        ('2', '3', '8') => '6',
        ('3', '1', '8') => '7',
        ('3', '2', '8') => '8',
        ('3', '3', '8') => '9',
        _ => '?',
    }
}

/// Decodes expanded text: '0' is a space and takes one digit; any other
/// character starts a triplet; an incomplete final triplet is '?' and ends
/// the text.
pub open spec fn decode_triplets(e: Seq<char>) -> Seq<char>
    decreases e.len(),
{
    if e.len() == 0 {
        seq![]
    } else if e[0] == '0' {
        seq![' '] + decode_triplets(e.drop_first())
    } else if e.len() < 3 {
        seq!['?']
    } else {
        seq![triplet_char(e[0], e[1], e[2])] + decode_triplets(e.skip(3))
    }
}

/// The table of triplets.
fn triplet(a: char, b: char, c: char) -> (r: char)
    ensures
        r == triplet_char(a, b, c),
{
    match (a, b, c) {
        ('1', '1', '1') => 'A',
        ('1', '1', '2') => 'B',
        ('1', '1', '3') => 'C',
        ('1', '2', '1') => 'D',
        ('1', '2', '2') => 'E',
        ('1', '2', '3') => 'F',
        ('1', '3', '1') => 'G',
        ('1', '3', '2') => 'H',
        ('1', '3', '3') => 'I',
        ('2', '1', '1') => 'J',
        ('2', '1', '2') => 'K',
        ('2', '1', '3') => 'L',
        ('2', '2', '1') => 'M',
        ('2', '2', '2') => 'N',
        ('2', '2', '3') => 'O',
        ('2', '3', '1') => 'P',
        ('2', '3', '2') => 'Q',
        ('2', '3', '3') => 'R',
        ('3', '1', '1') => 'S',
        ('3', '1', '2') => 'T',
        ('3', '1', '3') => 'U',
        ('3', '2', '1') => 'V',
        ('3', '2', '2') => 'W',
        ('3', '2', '3') => 'X',
        ('3', '3', '1') => 'Y',
        ('3', '3', '2') => 'Z',
        ('1', '1', '8') => '1',
        ('1', '2', '8') => '2',
        ('1', '3', '8') => '3',
        ('2', '1', '8') => '4',
        ('2', '2', '8') => '5',
        ('2', '3', '8') => '6',
        ('3', '1', '8') => '7',
        ('3', '2', '8') => '8',
        ('3', '3', '8') => '9',
        _ => '?',
    }
}

/// The triplets of the alphabet count in base 3 with the digits 1, 2 and 3:
/// the letter at place `n` of the alphabet (from 0) is written with the
/// base-3 digits of `n`, each raised by one, so that 111 is A, 113 is C and
/// 332 is Z, while 333 stands for nothing.
pub proof fn lemma_triplet_letters(a: char, b: char, c: char)
    requires
        '1' <= a <= '3',
        '1' <= b <= '3',
        '1' <= c <= '3',
    ensures
        !(a == '3' && b == '3' && c == '3') ==> triplet_char(a, b, c) as int == 'A' as int + 9 * (
        a as int - '1' as int) + 3 * (b as int - '1' as int) + (c as int - '1' as int),
        (a == '3' && b == '3' && c == '3') ==> triplet_char(a, b, c) == '?',
{
}

/// A digit is written as two base-3 digits (raised by one) of its value less
/// one, followed by 8: 118 is 1, 128 is 2 and 338 is 9.
pub proof fn lemma_triplet_digits(a: char, b: char)
    requires
        '1' <= a <= '3',
        '1' <= b <= '3',
    ensures
        triplet_char(a, b, '8') as int == '1' as int + 3 * (a as int - '1' as int) + (b as int
            - '1' as int),
{
}

/// No two triplets of the alphabet stand for the same character.
pub proof fn lemma_triplet_distinct(a: char, b: char, c: char, x: char, y: char, z: char)
    requires
        '1' <= a <= '3',
        '1' <= b <= '3',
        '1' <= c <= '3' || c == '8',
        '1' <= x <= '3',
        '1' <= y <= '3',
        '1' <= z <= '3' || z == '8',
        !(a == '3' && b == '3' && c == '3'),
        !(x == '3' && y == '3' && z == '3'),
        !(a == x && b == y && c == z),
    ensures
        triplet_char(a, b, c) != triplet_char(x, y, z),
{
}

/// The cipher digit (1, 2 or 3) for a base-3 digit (0, 1 or 2).
pub open spec fn base3_digit(v: int) -> char {
    if v == 0 {
        '1'
    } else if v == 1 {
        '2'
    } else {
        '3'
    }
}

/// How the cipher writes a capital letter or a space: a space is 0, and the
/// letter at place `n` of the alphabet is the three base-3 digits of `n`,
/// each raised by one.
pub open spec fn encode312_char(c: char) -> Seq<char> {
    if c == ' ' {
        seq!['0']
    } else {
        let n = c as int - 'A' as int;
        seq![base3_digit(n / 9), base3_digit((n / 3) % 3), base3_digit(n % 3)]
    }
}

/// The cipher text of a text of capital letters and spaces.
pub open spec fn encode312(s: Seq<char>) -> Seq<char>
    decreases s.len(),
{
    if s.len() == 0 {
        seq![]
    } else {
        encode312_char(s[0]) + encode312(s.drop_first())
    }
}

/// Whether `c` is a capital letter or a space.
pub open spec fn plain312_char(c: char) -> bool {
    ('A' <= c && c <= 'Z') || c == ' '
}

proof fn lemma_encoded_digits(s: Seq<char>)
    requires
        forall|i: int| 0 <= i < s.len() ==> plain312_char(#[trigger] s[i]),
    ensures
        forall|i: int|
            0 <= i < encode312(s).len() ==> '0' <= #[trigger] encode312(s)[i] <= '3',
    decreases s.len(),
{
    if s.len() > 0 {
        let rest = s.drop_first();
        assert forall|i: int| 0 <= i < rest.len() implies plain312_char(#[trigger] rest[i]) by {
            assert(rest[i] == s[i + 1]);
        }
        lemma_encoded_digits(rest);
        let h = encode312_char(s[0]);
        let e = encode312(s);
        assert(e == h + encode312(rest));
        assert forall|i: int| 0 <= i < e.len() implies '0' <= #[trigger] e[i] <= '3' by {
            if i >= h.len() {
                assert(e[i] == encode312(rest)[i - h.len()]);
            }
        }
    }
}

proof fn lemma_expand_plain(e: Seq<char>)
    requires
        forall|i: int| 0 <= i < e.len() ==> '0' <= #[trigger] e[i] <= '3',
    ensures
        expand(e) == e,
    decreases e.len(),
{
    if e.len() > 0 {
        lemma_expand_plain(e.drop_last());
        assert(e.drop_last() + seq![e.last()] =~= e);
    }
}

proof fn lemma_decode_encoded(s: Seq<char>)
    requires
        forall|i: int| 0 <= i < s.len() ==> plain312_char(#[trigger] s[i]),
    ensures
        decode_triplets(encode312(s)) == s,
    decreases s.len(),
{
    if s.len() > 0 {
        let rest = s.drop_first();
        assert forall|i: int| 0 <= i < rest.len() implies plain312_char(#[trigger] rest[i]) by {
            assert(rest[i] == s[i + 1]);
        }
        lemma_decode_encoded(rest);
        let h = encode312_char(s[0]);
        let e = encode312(s);
        assert(e == h + encode312(rest));
        if s[0] == ' ' {
            assert(e.drop_first() =~= encode312(rest));
        } else {
            let n = s[0] as int - 'A' as int;
            assert(0 <= n < 26);
            lemma_triplet_letters(h[0], h[1], h[2]);
            assert(e.skip(3) =~= encode312(rest));
            assert(triplet_char(e[0], e[1], e[2]) == s[0]);
        }
        assert(seq![s[0]] + rest =~= s);
    }
}

/// Decoding undoes the cipher: the cipher text of any text of capital letters
/// and spaces decodes back to that text, so the decoder gives it as its one
/// output (and nothing for the empty text).
pub proof fn lemma_cipher312_round_trip(s: Seq<char>)
    requires
        forall|i: int| 0 <= i < s.len() ==> plain312_char(#[trigger] s[i]),
    ensures
        cipher312_text(encode312(s)) == s,
        ThreeOneTwoCipher.spec_apply(encode312(s)) == (if s.len() == 0 {
            seq![]
        } else {
            seq![(s, ("cipher312"@, "Decode 312 Cipher"@))]
        }),
{
    let e = encode312(s);
    lemma_encoded_digits(s);
    lemma_expand_plain(e);
    lemma_decode_encoded(s);
    assert forall|i: int| 0 <= i < e.len() implies cipher_char(#[trigger] e[i]) by {
        assert('0' <= e[i] <= '3');
    }
    if s.len() > 0 {
        if all_are(s, '?') {
            assert(s[0] == '?');
        }
    }
}

/// The decoded text of an input made of digits and white space.
pub open spec fn cipher312_text(input: Seq<char>) -> Seq<char> {
    decode_triplets(expand(input))
}

impl Decoder for ThreeOneTwoCipher {
    open spec fn spec_id(&self) -> Seq<char> {
        "cipher312"@
    }

    open spec fn spec_policy(&self) -> Policy {
        Policy { no_consecutive_same_op: true }
    }

    /// No output when the input holds anything but digits and white space, or
    /// when the decoded text is empty or only '?'; else the decoded text.
    open spec fn spec_apply(&self, input: Seq<char>) -> Seq<TransformView> {
        if !all_cipher_chars(input) || all_are(cipher312_text(input), '?') {
            seq![]
        } else {
            seq![(cipher312_text(input), ("cipher312"@, "Decode 312 Cipher"@))]
        }
    }

    fn id(&self) -> (r: DecoderId) {
        "cipher312".to_string()
    }

    fn policy(&self) -> (p: Policy) {
        Policy::default()
    }

    fn apply(&self, input: &str) -> (r: Vec<TransformResult>) {
        let cs = chars_of(input);
        let mut k: usize = 0;
        while k < cs.len()
            invariant
                k <= cs@.len(),
                cs@ == input@,
                forall|j: int| 0 <= j < k ==> cipher_char(#[trigger] cs@[j]),
            decreases cs@.len() - k,
        {
            if !(is_ascii_digit(cs[k]) || is_ascii_whitespace(cs[k])) {
                assert(!cipher_char(input@[k as int]));
                let r: Vec<TransformResult> = Vec::new();
                assert(r.deep_view() =~= self.spec_apply(input@));
                return r;
            }
            k = k + 1;
        }
        // Reverse the squishing rule: 4 -> 11, 5 -> 22, 6 -> 33.
        let mut e: Vec<char> = Vec::new();
        let mut k: usize = 0;
        while k < cs.len()
            invariant
                k <= cs@.len(),
                e@ == expand(cs@.take(k as int)),
            decreases cs@.len() - k,
        {
            let c = cs[k];
            assert(cs@.take(k + 1).drop_last() =~= cs@.take(k as int));
            if c == '4' {
                e.push('1');
                e.push('1');
            } else if c == '5' {
                e.push('2');
                e.push('2');
            } else if c == '6' {
                e.push('3');
                e.push('3');
            } else {
                e.push(c);
            }
            assert(e@ =~= expand(cs@.take(k + 1)));
            k = k + 1;
        }
        assert(cs@.take(cs@.len() as int) =~= cs@);
        // Decode triplets, treating '0' as a space and unknowns as '?'.
        let mut result: Vec<char> = Vec::new();
        let mut i: usize = 0;
        assert(e@.skip(0) =~= e@);
        while i < e.len()
            invariant
                i <= e@.len(),
                result@ + decode_triplets(e@.skip(i as int)) == decode_triplets(e@),
            decreases e@.len() - i,
        {
            let ghost rest = e@.skip(i as int);
            if e[i] == '0' {
                result.push(' ');
                assert(rest.drop_first() =~= e@.skip(i + 1));
                i = i + 1;
            } else if e.len() - i < 3 {
                result.push('?');
                assert(e@.skip(e@.len() as int) =~= Seq::<char>::empty());
                i = e.len();
            } else {
                let ch = triplet(e[i], e[i + 1], e[i + 2]);
                result.push(ch);
                assert(rest.skip(3) =~= e@.skip(i + 3));
                i = i + 3;
            }
            assert(result@ + decode_triplets(e@.skip(i as int)) =~= decode_triplets(e@));
        }
        assert(e@.skip(i as int) =~= Seq::<char>::empty());
        assert(result@ =~= cipher312_text(input@));
        if all_equal(&result, '?') {
            let r: Vec<TransformResult> = Vec::new();
            assert(r.deep_view() =~= self.spec_apply(input@));
            return r;
        }
        let step = Step::new("cipher312", &chars_of("Decode 312 Cipher"));
        let r = vec![TransformResult { output: string_from_chars(&result), step }];
        assert(r.deep_view() =~= self.spec_apply(input@));
        r
    }
}

} // verus!
