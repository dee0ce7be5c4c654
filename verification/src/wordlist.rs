//! Dictionary word lists read from text, one word per line.
use vstd::prelude::*;
use vstd::string::StringSliceAdditionalSpecFns;
use vstd::utf8::encode_utf8;
use crate::outside::{lowercased, string_from_chars, to_lowercase};
use crate::text::{chars_of, split_on, trim_whitespace, trim_ws};

verus! {

/// The word on a line: the line without surrounding white space, lowercased
/// when asked.
pub open spec fn line_word(line: Seq<char>, lowercase: bool) -> Seq<char> {
    let t = trim_ws(line);
    if lowercase {
        lowercased(t)
    } else {
        t
    }
}

/// Whether a word is kept: longer than three bytes in UTF-8 (its byte
/// length as `str::len` reports it).
pub open spec fn long_enough(w: Seq<char>) -> bool {
    (encode_utf8(w).len() as usize) > 3
}

/// The kept words of `lines`, in order.
pub open spec fn words_of(lines: Seq<Seq<char>>, lowercase: bool) -> Seq<Seq<char>>
    decreases lines.len(),
{
    if lines.len() == 0 {
        seq![]
    } else {
        let rest = words_of(lines.drop_last(), lowercase);
        let w = line_word(lines.last(), lowercase);
        if long_enough(w) {
            rest.push(w)
        } else {
            rest
        }
    }
}

/// The words of a text with one word per line.
pub open spec fn text_words(text: Seq<char>, lowercase: bool) -> Seq<Seq<char>> {
    words_of(split_on(text, '\n'), lowercase)
}

/// Short words are filtered out: every word of a word list is longer than
/// three bytes.
pub proof fn lemma_words_long_enough(text: Seq<char>, lowercase: bool)
    ensures
        forall|i: int|
            0 <= i < text_words(text, lowercase).len() ==> long_enough(
                #[trigger] text_words(text, lowercase)[i],
            ),
{
    lemma_words_of_long_enough(split_on(text, '\n'), lowercase);
}

proof fn lemma_words_of_long_enough(lines: Seq<Seq<char>>, lowercase: bool)
    ensures
        forall|i: int|
            0 <= i < words_of(lines, lowercase).len() ==> long_enough(
                #[trigger] words_of(lines, lowercase)[i],
            ),
    decreases lines.len(),
{
    if lines.len() > 0 {
        lemma_words_of_long_enough(lines.drop_last(), lowercase);
        let rest = words_of(lines.drop_last(), lowercase);
        let all = words_of(lines, lowercase);
        assert forall|i: int| 0 <= i < all.len() implies long_enough(#[trigger] all[i]) by {
            if i < rest.len() {
                assert(all[i] == rest[i]);
            }
        }
    }
}

/// The word of one line, as a string.
fn line_to_word(line: &Vec<char>, lowercase: bool) -> (w: String)
    ensures
        w@ == line_word(line@, lowercase),
{
    let t = string_from_chars(&trim_whitespace(line));
    if lowercase {
        to_lowercase(t.as_str())
    } else {
        t
    }
}

/// Adds the word of `line` to the words of the lines before it.
fn push_word(out: &mut Vec<String>, line: &Vec<char>, lowercase: bool, Ghost(done): Ghost<Seq<Seq<char>>>)
    requires
        old(out).deep_view() == words_of(done, lowercase),
    ensures
        final(out).deep_view() == words_of(done.push(line@), lowercase),
{
    assert(done.push(line@).drop_last() =~= done);
    let w = line_to_word(line, lowercase);
    if w.as_str().len() > 3 {
        let ghost before = out.deep_view();
        out.push(w);
        assert(out.deep_view() =~= before.push(line_word(line@, lowercase)));
    }
}

/// The words of a text, one per line: each line trimmed, lowercased when
/// asked, and kept when longer than three bytes.
fn word_lines(text: &str, lowercase: bool) -> (r: Vec<String>)
    ensures
        r.deep_view() == text_words(text@, lowercase),
{
    let cs = chars_of(text);
    let mut out: Vec<String> = Vec::new();
    let mut cur: Vec<char> = Vec::new();
    let ghost mut done: Seq<Seq<char>> = seq![];
    let mut k: usize = 0;
    while k < cs.len()
        invariant
            cs@ == text@,
            k <= cs@.len(),
            split_on(cs@.take(k as int), '\n') == done.push(cur@),
            out.deep_view() == words_of(done, lowercase),
        decreases cs@.len() - k,
    {
        assert(cs@.take(k + 1).drop_last() =~= cs@.take(k as int));
        if cs[k] == '\n' {
            push_word(&mut out, &cur, lowercase, Ghost(done));
            proof {
                done = done.push(cur@);
            }
            cur = Vec::new();
        } else {
            cur.push(cs[k]);
            assert(split_on(cs@.take(k + 1), '\n') =~= done.push(cur@));
        }
        k = k + 1;
    }
    assert(cs@.take(cs@.len() as int) =~= cs@);
    push_word(&mut out, &cur, lowercase, Ghost(done));
    out
}

/// The dictionary words of a word-list file: every line trimmed, keeping
/// those longer than three bytes.
pub fn dictionary_words(text: &str) -> (r: Vec<String>)
    ensures
        r.deep_view() == text_words(text@, false),
{
    word_lines(text, false)
}

/// The words of a word list fetched for the search: every line trimmed and
/// lowercased, keeping those longer than three bytes.
pub fn lowercase_words(text: &str) -> (r: Vec<String>)
    ensures
        r.deep_view() == text_words(text@, true),
{
    word_lines(text, true)
}

} // verus!
