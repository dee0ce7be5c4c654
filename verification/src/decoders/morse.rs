//! The Morse code decoder.
use vstd::prelude::*;
use crate::engine::{Decoder, DecoderId, Policy, Step, TransformResult, TransformView};
use vstd::hash_map::StringHashMap;
use crate::outside::string_from_chars;
use crate::text::{all_are, all_equal, chars_of, is_whitespace, is_ws, split_ws};

verus! {

/// Decoder for Morse code to ASCII/UTF-8 letters and digits.
///
/// Supported tokens:
/// - Letters A-Z
/// - Digits 0-9
/// - '/' as a word separator (mapped to ' ')
pub struct MorseCodeDecoder {
    table: StringHashMap<char>,
}

/// The Morse alphabet: each token with the character it stands for.
pub open spec fn morse_table() -> Map<Seq<char>, char> {
    map![
        ".-"@ => 'A',
        "-..."@ => 'B',
        "-.-."@ => 'C',
        "-.."@ => 'D',
        "."@ => 'E',
        "..-."@ => 'F',
        "--."@ => 'G',
        "...."@ => 'H',
        ".."@ => 'I',
        ".---"@ => 'J',
        "-.-"@ => 'K',
        ".-.."@ => 'L',
        "--"@ => 'M',
        "-."@ => 'N',
        "---"@ => 'O',
        ".--."@ => 'P',
        "--.-"@ => 'Q',
        ".-."@ => 'R',
        "..."@ => 'S',
        "-"@ => 'T',
        "..-"@ => 'U',
        "...-"@ => 'V',
        ".--"@ => 'W',
        "-..-"@ => 'X',
        "-.--"@ => 'Y',
        "--.."@ => 'Z',
        ".----"@ => '1',
        "..---"@ => '2',
        "...--"@ => '3',
        "....-"@ => '4',
        "....."@ => '5',
        "-...."@ => '6',
        "--..."@ => '7',
        "---.."@ => '8',
        "----."@ => '9',
        "-----"@ => '0',
        "/"@ => ' ',
    ]
}

/// The character that the alphabet gives for `token`, or '?' when it has none.
pub open spec fn morse_lookup(token: Seq<char>) -> char {
    if morse_table().contains_key(token) {
        morse_table()[token]
    } else {
        '?'
    }
}

/// One character per white-space separated token of the input.
pub open spec fn morse_text(input: Seq<char>) -> Seq<char> {
    split_ws(input).map_values(|t: Seq<char>| morse_lookup(t))
}

/// The letters of the Morse alphabet in the order of its binary tree, where
/// '?' marks a place that no letter takes.
pub open spec fn morse_tree() -> Seq<char> {
    seq![
        'E', 'T', 'I', 'A', 'N', 'M', 'S', 'U', 'R', 'W', 'D', 'K', 'G', 'O', 'H', 'V', 'F', '?',
        'L', '?', 'P', 'J', 'B', 'X', 'C', 'Y', 'Z', 'Q', '?', '?',
    ]
}

/// The node of a token in the binary tree of the alphabet: the root is 1, a
/// dot leads from node `n` to `2n` and a dash to `2n + 1`.
pub open spec fn tree_node(t: Seq<char>) -> int
    decreases t.len(),
{
    if t.len() == 0 {
        1
    } else {
        2 * tree_node(t.drop_last()) + if t.last() == '-' {
            1int
        } else {
            0int
        }
    }
}

/// Whether `t` is made of dots and dashes only.
pub open spec fn dots_and_dashes(t: Seq<char>) -> bool {
    forall|i: int| 0 <= i < t.len() ==> t[i] == '.' || t[i] == '-'
}

/// The tokens of the alphabet, spelled out.
proof fn lemma_morse_keys()
    ensures
        ".-"@ == seq!['.', '-'],
        "-..."@ == seq!['-', '.', '.', '.'],
        "-.-."@ == seq!['-', '.', '-', '.'],
        "-.."@ == seq!['-', '.', '.'],
        "."@ == seq!['.'],
        "..-."@ == seq!['.', '.', '-', '.'],
        "--."@ == seq!['-', '-', '.'],
        "...."@ == seq!['.', '.', '.', '.'],
        ".."@ == seq!['.', '.'],
        ".---"@ == seq!['.', '-', '-', '-'],
        "-.-"@ == seq!['-', '.', '-'],
        ".-.."@ == seq!['.', '-', '.', '.'],
        "--"@ == seq!['-', '-'],
        "-."@ == seq!['-', '.'],
        "---"@ == seq!['-', '-', '-'],
        ".--."@ == seq!['.', '-', '-', '.'],
        "--.-"@ == seq!['-', '-', '.', '-'],
        ".-."@ == seq!['.', '-', '.'],
        "..."@ == seq!['.', '.', '.'],
        "-"@ == seq!['-'],
        "..-"@ == seq!['.', '.', '-'],
        "...-"@ == seq!['.', '.', '.', '-'],
        ".--"@ == seq!['.', '-', '-'],
        "-..-"@ == seq!['-', '.', '.', '-'],
        "-.--"@ == seq!['-', '.', '-', '-'],
        "--.."@ == seq!['-', '-', '.', '.'],
        ".----"@ == seq!['.', '-', '-', '-', '-'],
        "..---"@ == seq!['.', '.', '-', '-', '-'],
        "...--"@ == seq!['.', '.', '.', '-', '-'],
        "....-"@ == seq!['.', '.', '.', '.', '-'],
        "....."@ == seq!['.', '.', '.', '.', '.'],
        "-...."@ == seq!['-', '.', '.', '.', '.'],
        "--..."@ == seq!['-', '-', '.', '.', '.'],
        "---.."@ == seq!['-', '-', '-', '.', '.'],
        "----."@ == seq!['-', '-', '-', '-', '.'],
        "-----"@ == seq!['-', '-', '-', '-', '-'],
        "/"@ == seq!['/'],
{
    reveal_strlit(".-");
    reveal_strlit("-...");
    reveal_strlit("-.-.");
    reveal_strlit("-..");
    reveal_strlit(".");
    reveal_strlit("..-.");
    reveal_strlit("--.");
    reveal_strlit("....");
    reveal_strlit("..");
    reveal_strlit(".---");
    reveal_strlit("-.-");
    reveal_strlit(".-..");
    reveal_strlit("--");
    reveal_strlit("-.");
    reveal_strlit("---");
    reveal_strlit(".--.");
    reveal_strlit("--.-");
    reveal_strlit(".-.");
    reveal_strlit("...");
    reveal_strlit("-");
    reveal_strlit("..-");
    reveal_strlit("...-");
    reveal_strlit(".--");
    reveal_strlit("-..-");
    reveal_strlit("-.--");
    reveal_strlit("--..");
    reveal_strlit(".----");
    reveal_strlit("..---");
    reveal_strlit("...--");
    reveal_strlit("....-");
    reveal_strlit(".....");
    reveal_strlit("-....");
    reveal_strlit("--...");
    reveal_strlit("---..");
    reveal_strlit("----.");
    reveal_strlit("-----");
    reveal_strlit("/");
}

/// Every token of one to four dots and dashes decodes to the letter at its
/// node of the binary tree (node 2 is the first place of `morse_tree`), and to
/// '?' where no letter takes that node: "." is E, "-" is T, "..-" is U,
/// "...-" is V and "--.." is Z.
pub proof fn lemma_morse_letters(t: Seq<char>)
    requires
        1 <= t.len() <= 4,
        dots_and_dashes(t),
    ensures
        morse_lookup(t) == morse_tree()[tree_node(t) - 2],
{
    lemma_morse_keys();
    reveal_with_fuel(tree_node, 5);
    if t.len() == 1 {
        assert(t =~= seq![t[0]]);
    } else if t.len() == 2 {
        assert(t =~= seq![t[0], t[1]]);
    } else if t.len() == 3 {
        assert(t =~= seq![t[0], t[1], t[2]]);
    } else {
        assert(t =~= seq![t[0], t[1], t[2], t[3]]);
    }
}

/// The digits are five dots and dashes: `k` dots then `5 - k` dashes is the
/// digit `k` (five dashes being 0), and `k` dashes then `5 - k` dots is the
/// digit `k + 5`, counted modulo 10; "/" is the space between words.
pub proof fn lemma_morse_digits(k: int)
    requires
        0 <= k <= 5,
    ensures
        morse_lookup(Seq::new(5, |i: int| if i < k { '.' } else { '-' })) as int == '0' as int + k,
        k >= 1 ==> morse_lookup(Seq::new(5, |i: int| if i < k { '-' } else { '.' })) as int == '0' as int
            + (k + 5) % 10,
        morse_lookup(seq!['/']) == ' ',
{
    lemma_morse_keys();
    let up = Seq::new(5, |i: int| if i < k { '.' } else { '-' });
    let down = Seq::new(5, |i: int| if i < k { '-' } else { '.' });
    assert(up =~= seq![up[0], up[1], up[2], up[3], up[4]]);
    assert(down =~= seq![down[0], down[1], down[2], down[3], down[4]]);
}

/// No two tokens of the alphabet stand for the same character.
pub proof fn lemma_morse_table_injective(t1: Seq<char>, t2: Seq<char>)
    requires
        morse_table().contains_key(t1),
        morse_table().contains_key(t2),
        t1 != t2,
    ensures
        morse_table()[t1] != morse_table()[t2],
{
    lemma_morse_keys();
}

/// The alphabet holds no other tokens than these: "/", the letters of one to
/// four dots and dashes, each at a node of the binary tree that a letter
/// takes, and the digits of five dots and dashes, a run of dots followed by a
/// run of dashes or a run of dashes followed by a run of dots.
pub proof fn lemma_morse_tokens(t: Seq<char>)
    requires
        morse_table().contains_key(t),
    ensures
        t == seq!['/'] || (dots_and_dashes(t) && 1 <= t.len() <= 5),
        dots_and_dashes(t) && t.len() <= 4 ==> morse_tree()[tree_node(t) - 2] != '?',
        t.len() == 5 ==> (forall|i: int, j: int|
            0 <= i < j < 5 && t[i] == '-' ==> t[j] == '-') || (forall|i: int, j: int|
            0 <= i < j < 5 && t[i] == '.' ==> t[j] == '.'),
{
    lemma_morse_keys();
    reveal_with_fuel(tree_node, 5);
}

impl MorseCodeDecoder {
    #[verifier::type_invariant]
    spec fn holds_alphabet(self) -> bool {
        self.table@ == morse_table()
    }

    /// The lookup table that the decoder holds.
    pub closed spec fn alphabet(&self) -> Map<Seq<char>, char> {
        self.table@
    }

    /// Construct a new Morse code decoder with a built-in lookup table.
    pub fn new() -> (d: Self)
        ensures
            d.alphabet() == morse_table(),
    {
        let mut t: StringHashMap<char> = StringHashMap::new();
        t.insert(".-".to_string(), 'A');
        t.insert("-...".to_string(), 'B');
        t.insert("-.-.".to_string(), 'C');
        t.insert("-..".to_string(), 'D');
        t.insert(".".to_string(), 'E');
        t.insert("..-.".to_string(), 'F');
        t.insert("--.".to_string(), 'G');
        t.insert("....".to_string(), 'H');
        t.insert("..".to_string(), 'I');
        t.insert(".---".to_string(), 'J');
        t.insert("-.-".to_string(), 'K');
        t.insert(".-..".to_string(), 'L');
        t.insert("--".to_string(), 'M');
        t.insert("-.".to_string(), 'N');
        t.insert("---".to_string(), 'O');
        t.insert(".--.".to_string(), 'P');
        t.insert("--.-".to_string(), 'Q');
        t.insert(".-.".to_string(), 'R');
        t.insert("...".to_string(), 'S');
        t.insert("-".to_string(), 'T');
        t.insert("..-".to_string(), 'U');
        t.insert("...-".to_string(), 'V');
        t.insert(".--".to_string(), 'W');
        t.insert("-..-".to_string(), 'X');
        t.insert("-.--".to_string(), 'Y');
        t.insert("--..".to_string(), 'Z');
        t.insert(".----".to_string(), '1');
        t.insert("..---".to_string(), '2');
        t.insert("...--".to_string(), '3');
        t.insert("....-".to_string(), '4');
        t.insert(".....".to_string(), '5');
        t.insert("-....".to_string(), '6');
        t.insert("--...".to_string(), '7');
        t.insert("---..".to_string(), '8');
        t.insert("----.".to_string(), '9');
        t.insert("-----".to_string(), '0');
        t.insert("/".to_string(), ' ');
        MorseCodeDecoder { table: t }
    }

    /// The character of the alphabet for `token`, '?' for an unknown token.
    fn lookup(&self, token: &Vec<char>) -> (c: char)
        ensures
            c == morse_lookup(token@),
    {
        proof {
            use_type_invariant(self);
        }
        let key = string_from_chars(token);
        match self.table.get(key.as_str()) {
            Some(c) => *c,
            None => '?',
        }
    }
}

impl Decoder for MorseCodeDecoder {
    open spec fn spec_id(&self) -> Seq<char> {
        "morse"@
    }

    open spec fn spec_policy(&self) -> Policy {
        Policy { no_consecutive_same_op: true }
    }

    /// Decodes Morse code tokens separated by whitespace; one output unless the
    /// decoded text is empty or all '?'.
    open spec fn spec_apply(&self, input: Seq<char>) -> Seq<TransformView> {
        let out = morse_text(input);
        if out.len() == 0 || all_are(out, '?') {
            seq![]
        } else {
            seq![(out, ("morse"@, "Decode morse"@))]
        }
    }

    fn id(&self) -> (r: DecoderId) {
        "morse".to_string()
    }

    fn policy(&self) -> (p: Policy) {
        Policy { no_consecutive_same_op: true }
    }

    /// Decodes Morse code tokens separated by whitespace.
    ///
    /// Unknown tokens are mapped to '?' during decoding, but if the entire output
    /// would consist only of '?' or be empty, this returns no outputs.
    fn apply(&self, input: &str) -> (r: Vec<TransformResult>) {
        let cs = chars_of(input);
        let mut out: Vec<char> = Vec::new();
        let mut cur: Vec<char> = Vec::new();
        let ghost mut done: Seq<Seq<char>> = seq![];
        let mut k: usize = 0;
        while k < cs.len()
            invariant
                cs@ == input@,
                k <= cs@.len(),
                cur@.len() > 0 ==> split_ws(cs@.take(k as int)) == done.push(cur@) && k > 0
                    && !is_ws(cs@[k - 1]),
                cur@.len() == 0 ==> split_ws(cs@.take(k as int)) == done && (k == 0 || is_ws(
                    cs@[k - 1],
                )),
                out@ == done.map_values(|t: Seq<char>| morse_lookup(t)),
            decreases cs@.len() - k,
        {
            let ghost s = cs@.take(k + 1);
            assert(s.drop_last() =~= cs@.take(k as int));
            assert(s.last() == cs@[k as int]);
            if is_whitespace(cs[k]) {
                if cur.len() > 0 {
                    let c = self.lookup(&cur);
                    out.push(c);
                    proof {
                        done = done.push(cur@);
                    }
                    cur = Vec::new();
                    assert(out@ =~= done.map_values(|t: Seq<char>| morse_lookup(t)));
                }
            } else {
                if cur.len() > 0 {
                    assert(s[k - 1] == cs@[k - 1]);
                    cur.push(cs[k]);
                    assert(split_ws(s) =~= done.push(cur@));
                } else {
                    cur.push(cs[k]);
                    assert(cur@ =~= seq![cs@[k as int]]);
                    assert(split_ws(s) =~= done.push(cur@));
                }
            }
            k = k + 1;
        }
        assert(cs@.take(cs@.len() as int) =~= cs@);
        if cur.len() > 0 {
            let c = self.lookup(&cur);
            out.push(c);
            proof {
                done = done.push(cur@);
            }
        }
        assert(out@ =~= morse_text(input@));
        if out.len() == 0 || all_equal(&out, '?') {
            let r: Vec<TransformResult> = Vec::new();
            assert(r.deep_view() =~= self.spec_apply(input@));
            return r;
        }
        let r = vec![TransformResult::from_chars(&out, Step::from_strs("morse", "Decode morse"))];
        assert(r.deep_view() =~= self.spec_apply(input@));
        r
    }
}

} // verus!
