//! A dictionary scorer: the share of the input that can be covered by
//! non-overlapping dictionary words, found with a trie and dynamic programming.
use vstd::prelude::*;
use vstd::hash_map::HashMapWithView;
use crate::outside::{lowercased, to_lowercase};
use crate::scorer::Scorer;
use crate::text::{chars_of, count_whitespace, count_ws, lemma_count_ws_bound};

verus! {

/// Trie node used for dictionary word matching.
struct TrieNode {
    /// The child of each label, keyed by the label's code point.
    children: HashMapWithView<u32, usize>,
    terminal: bool,
}

/// Scorer that estimates how much of the input can be segmented into
/// dictionary words using a trie and dynamic programming.
///
/// The score is the percentage of non-whitespace characters covered by
/// dictionary words (0..=100).
pub struct EnglishScorer {
    trie: Vec<TrieNode>,
    max_word_len: usize,
    /// The dictionary: the lowercased, non-empty words.
    words: Ghost<Set<Seq<char>>>,
    /// The characters that lead from the root to each node.
    paths: Ghost<Seq<Seq<char>>>,
    /// The parent of each node other than the root, and the code point of
    /// the label under which the parent holds the node.
    parents: Ghost<Seq<(int, u32)>>,
}

/// The most characters of `s.take(k)` that non-overlapping occurrences of
/// words of `dict` can cover.
pub open spec fn cover(s: Seq<char>, dict: Set<Seq<char>>, k: nat) -> nat
    decreases k, k + 1,
{
    if k == 0 {
        0
    } else {
        let skip = cover(s, dict, (k - 1) as nat);
        let end = best_ending(s, dict, k, k);
        if skip >= end {
            skip
        } else {
            end
        }
    }
}

/// The best cover of `s.take(k)` whose last word ends at `k` and starts
/// before `j` (0 when there is none).
pub open spec fn best_ending(s: Seq<char>, dict: Set<Seq<char>>, k: nat, j: nat) -> nat
    decreases k, j,
{
    if j == 0 || j > k {
        0
    } else {
        let before = best_ending(s, dict, k, (j - 1) as nat);
        let here = word_ending(s, dict, k, (j - 1) as nat);
        if before >= here {
            before
        } else {
            here
        }
    }
}

/// The cover of `s.take(k)` whose last word is `s.subrange(i, k)`, or 0 when
/// that is no word.
pub open spec fn word_ending(s: Seq<char>, dict: Set<Seq<char>>, k: nat, i: nat) -> nat
    decreases k, i,
{
    if i < k && dict.contains(s.subrange(i as int, k as int)) {
        cover(s, dict, i) + (k - i) as nat
    } else {
        0
    }
}

pub proof fn lemma_cover_bound(s: Seq<char>, dict: Set<Seq<char>>, k: nat)
    ensures
        cover(s, dict, k) <= k,
    decreases k, k + 1,
{
    if k > 0 {
        lemma_cover_bound(s, dict, (k - 1) as nat);
        lemma_best_ending_bound(s, dict, k, k);
    }
}

pub proof fn lemma_best_ending_bound(s: Seq<char>, dict: Set<Seq<char>>, k: nat, j: nat)
    ensures
        best_ending(s, dict, k, j) <= k,
    decreases k, j,
{
    if j > 0 && j <= k {
        lemma_best_ending_bound(s, dict, k, (j - 1) as nat);
        lemma_cover_bound(s, dict, (j - 1) as nat);
        assert(word_ending(s, dict, k, (j - 1) as nat) <= k);
    }
}

/// `dp[j]`, for an end `j` after `i`, before the relaxations that start at
/// `i`: the best ending before `i`, and for `j == i + 1` the best cover of
/// the first `i` characters too.
pub open spec fn relax_pre(s: Seq<char>, dict: Set<Seq<char>>, i: nat, j: nat) -> nat {
    if j == i + 1 {
        let a = best_ending(s, dict, j, i);
        let b = cover(s, dict, i);
        if a >= b {
            a
        } else {
            b
        }
    } else {
        best_ending(s, dict, j, i)
    }
}

/// `dp[j]`, for an end `j` after `i`, after the relaxations that start at
/// `i`.
pub open spec fn relax_post(s: Seq<char>, dict: Set<Seq<char>>, i: nat, j: nat) -> nat {
    if j == i + 1 {
        cover(s, dict, j)
    } else {
        best_ending(s, dict, j, i + 1)
    }
}

/// The relaxation of the end `j` from the start `i` takes `relax_pre` to
/// `relax_post`.
pub proof fn lemma_relax_step(s: Seq<char>, dict: Set<Seq<char>>, i: nat, j: nat)
    requires
        i < j,
    ensures
        relax_post(s, dict, i, j) == (if relax_pre(s, dict, i, j) >= word_ending(s, dict, j, i) {
            relax_pre(s, dict, i, j)
        } else {
            word_ending(s, dict, j, i)
        }),
        word_ending(s, dict, j, i) == (if dict.contains(s.subrange(i as int, j as int)) {
            cover(s, dict, i) + (j - i) as nat
        } else {
            0
        }),
{
    assert(best_ending(s, dict, j, i + 1) == (if best_ending(s, dict, j, i) >= word_ending(s, dict, j, i) {
        best_ending(s, dict, j, i)
    } else {
        word_ending(s, dict, j, i)
    }));
    if j == i + 1 {
        assert(cover(s, dict, j) == (if cover(s, dict, i) >= best_ending(s, dict, j, j) {
            cover(s, dict, i)
        } else {
            best_ending(s, dict, j, j)
        }));
    }
}

/// The score of text covered to `covered` of its `non_ws` non-white-space
/// characters: the truncated percentage, at most 100.
pub open spec fn coverage_percent(covered: nat, non_ws: nat) -> int {
    let p: int = (100 * covered / non_ws) as int;
    if p > 100 {
        100
    } else {
        p
    }
}

/// The score of `input` against the dictionary `dict`: 0 for an empty
/// dictionary and for text without non-white-space characters; else the
/// percentage of the lowercased text's non-white-space characters that
/// dictionary words cover, at most 100.
pub open spec fn english_score(dict: Set<Seq<char>>, input: Seq<char>) -> i32 {
    let lower = lowercased(input);
    let non_ws = (lower.len() - count_ws(lower)) as nat;
    if dict.is_empty() || non_ws == 0 {
        0
    } else {
        coverage_percent(cover(lower, dict, lower.len()), non_ws) as i32
    }
}

/// The dictionary score is a percentage: between 0 and 100.
pub proof fn lemma_english_score_is_percentage(dict: Set<Seq<char>>, input: Seq<char>)
    ensures
        0 <= english_score(dict, input) <= 100,
{
    let lower = lowercased(input);
    let non_ws = (lower.len() - count_ws(lower)) as nat;
    if !(dict.is_empty() || non_ws == 0) {
        let c = cover(lower, dict, lower.len());
        assert(100 * c / non_ws >= 0) by (nonlinear_arith)
            requires
                non_ws > 0,
        ;
    }
}

/// Whether `x` is one of the lowercased, non-empty words of `words`.
pub open spec fn is_dictionary_word(words: Seq<Seq<char>>, x: Seq<char>) -> bool {
    x.len() > 0 && exists|i: int| 0 <= i < words.len() && #[trigger] lowercased(words[i]) == x
}

/// The dictionary of a word list holds exactly its lowercased, non-empty
/// words.
pub proof fn lemma_dictionary_of(words: Seq<Seq<char>>)
    ensures
        forall|x: Seq<char>| #[trigger] dictionary_of(words).contains(x) <==> is_dictionary_word(words, x),
    decreases words.len(),
{
    if words.len() > 0 {
        let rest = words.drop_last();
        lemma_dictionary_of(rest);
        assert forall|x: Seq<char>| #[trigger] dictionary_of(words).contains(x) <==> is_dictionary_word(
            words,
            x,
        ) by {
            if is_dictionary_word(words, x) {
                let i = choose|i: int| 0 <= i < words.len() && #[trigger] lowercased(words[i]) == x;
                if i < rest.len() {
                    assert(lowercased(rest[i]) == x);
                }
            }
            if dictionary_of(rest).contains(x) {
                let i = choose|i: int| 0 <= i < rest.len() && #[trigger] lowercased(rest[i]) == x;
                assert(lowercased(words[i]) == x);
            }
            if x == lowercased(words.last()) {
                assert(lowercased(words[words.len() - 1]) == x);
            }
        }
    }
}

/// Only the lowercased, non-empty words matter: two word lists with the same
/// such words give dictionary scorers that score every text alike.
pub proof fn lemma_same_words_same_scores(a: Seq<Seq<char>>, b: Seq<Seq<char>>, input: Seq<char>)
    requires
        forall|x: Seq<char>| is_dictionary_word(a, x) <==> is_dictionary_word(b, x),
    ensures
        english_score(dictionary_of(a), input) == english_score(dictionary_of(b), input),
{
    lemma_dictionary_of(a);
    lemma_dictionary_of(b);
    assert(dictionary_of(a) =~= dictionary_of(b));
}

/// The trie holds exactly the words of `words`: every node has the path from
/// the root that `paths` records, nodes have distinct paths, every node but
/// the root hangs under its recorded parent, a node is terminal exactly when
/// its path is a word, and every word has a node.
spec fn trie_wf(
    trie: Seq<TrieNode>,
    paths: Seq<Seq<char>>,
    parents: Seq<(int, u32)>,
    words: Set<Seq<char>>,
    max_word_len: usize,
) -> bool {
    &&& trie.len() >= 1
    &&& paths.len() == trie.len()
    &&& parents.len() == trie.len()
    &&& paths[0] == Seq::<char>::empty()
    &&& forall|i: int, c: u32|
        #![trigger trie[i].children@.contains_key(c)]
        0 <= i < trie.len() && trie[i].children@.contains_key(c) ==> {
            &&& trie[i].children@[c] < trie.len()
            &&& paths[trie[i].children@[c] as int] == paths[i].push(c as char)
            &&& (c as char) as u32 == c
        }
    &&& forall|j: int|
        #![trigger parents[j]]
        0 < j < trie.len() ==> {
            &&& 0 <= parents[j].0 < trie.len()
            &&& trie[parents[j].0].children@.contains_key(parents[j].1)
            &&& trie[parents[j].0].children@[parents[j].1] == j
        }
    &&& forall|i: int, j: int|
        #![trigger paths[i], paths[j]]
        0 <= i < trie.len() && 0 <= j < trie.len() && i != j ==> paths[i] != paths[j]
    &&& forall|i: int|
        #![trigger trie[i]]
        0 <= i < trie.len() ==> (trie[i].terminal <==> words.contains(paths[i]))
    &&& forall|w: Seq<char>|
        #![trigger words.contains(w)]
        words.contains(w) ==> w.len() > 0 && exists|i: int| 0 <= i < trie.len() && paths[i] == w
    &&& (max_word_len == 0 <==> words.is_empty())
}

/// Every prefix of a node's path is the path of a node.
proof fn lemma_prefix_node(
    trie: Seq<TrieNode>,
    paths: Seq<Seq<char>>,
    parents: Seq<(int, u32)>,
    words: Set<Seq<char>>,
    max_word_len: usize,
    m: int,
    l: int,
)
    requires
        trie_wf(trie, paths, parents, words, max_word_len),
        0 <= m < trie.len(),
        0 <= l <= paths[m].len(),
    ensures
        exists|q: int| 0 <= q < trie.len() && paths[q] == paths[m].take(l),
    decreases paths[m].len(),
{
    if l == paths[m].len() {
        assert(paths[m].take(l) =~= paths[m]);
    } else {
        assert(m != 0);
        let p = parents[m].0;
        let c = parents[m].1;
        assert(paths[m] == paths[p].push(c as char));
        assert(paths[p].take(l) =~= paths[m].take(l));
        lemma_prefix_node(trie, paths, parents, words, max_word_len, p, l);
    }
}

/// When no child of `node` is labelled `ch`, no node has the path of `node`
/// followed by `ch`.
proof fn lemma_no_node_with_path(
    trie: Seq<TrieNode>,
    paths: Seq<Seq<char>>,
    parents: Seq<(int, u32)>,
    words: Set<Seq<char>>,
    max_word_len: usize,
    node: int,
    ch: char,
)
    requires
        trie_wf(trie, paths, parents, words, max_word_len),
        0 <= node < trie.len(),
        !trie[node].children@.contains_key(ch as u32),
    ensures
        forall|m: int| 0 <= m < trie.len() ==> paths[m] != paths[node].push(ch),
{
    assert forall|m: int| 0 <= m < trie.len() implies paths[m] != paths[node].push(ch) by {
        if paths[m] == paths[node].push(ch) {
            assert(m != 0) by {
                assert(paths[m].len() > 0);
            }
            let p = parents[m].0;
            let c = parents[m].1;
            assert(paths[m] == paths[p].push(c as char));
            assert(paths[p] =~= paths[m].drop_last());
            assert(paths[node] =~= paths[m].drop_last());
            assert(p == node);
            assert(paths[m].last() == c as char);
            assert(paths[node].push(ch).last() == ch);
            assert(c == ch as u32);
        }
    }
}

/// When no child of `node` is labelled `ch`, no word begins with the path of
/// `node` followed by `ch`.
proof fn lemma_no_word_extends(
    trie: Seq<TrieNode>,
    paths: Seq<Seq<char>>,
    parents: Seq<(int, u32)>,
    words: Set<Seq<char>>,
    max_word_len: usize,
    node: int,
    ch: char,
)
    requires
        trie_wf(trie, paths, parents, words, max_word_len),
        0 <= node < trie.len(),
        !trie[node].children@.contains_key(ch as u32),
    ensures
        forall|w: Seq<char>|
            #![trigger words.contains(w)]
            words.contains(w) && w.len() > paths[node].len() ==> w.take(paths[node].len() + 1int)
                != paths[node].push(ch),
{
    lemma_no_node_with_path(trie, paths, parents, words, max_word_len, node, ch);
    assert forall|w: Seq<char>|
        #![trigger words.contains(w)]
        words.contains(w) && w.len() > paths[node].len() implies w.take(paths[node].len() + 1int)
        != paths[node].push(ch) by {
        let m = choose|i: int| 0 <= i < trie.len() && paths[i] == w;
        lemma_prefix_node(trie, paths, parents, words, max_word_len, m, paths[node].len() + 1int);
    }
}

/// Adding a node under `node`, labelled `ch`, keeps the trie well formed
/// when no child of `node` had that label.
proof fn lemma_add_node(
    old_trie: Seq<TrieNode>,
    old_paths: Seq<Seq<char>>,
    old_parents: Seq<(int, u32)>,
    trie: Seq<TrieNode>,
    paths: Seq<Seq<char>>,
    parents: Seq<(int, u32)>,
    words: Set<Seq<char>>,
    max_word_len: usize,
    node: int,
    ch: char,
    new_idx: usize,
)
    requires
        new_idx == old_trie.len(),
        trie_wf(old_trie, old_paths, old_parents, words, max_word_len),
        0 <= node < old_trie.len(),
        !old_trie[node].children@.contains_key(ch as u32),
        forall|m: int| 0 <= m < old_trie.len() ==> old_paths[m] != old_paths[node].push(ch),
        paths == old_paths.push(old_paths[node].push(ch)),
        parents == old_parents.push((node, ch as u32)),
        trie.len() == old_trie.len() + 1,
        trie[old_trie.len() as int].children@ == Map::<u32, usize>::empty(),
        !trie[old_trie.len() as int].terminal,
        trie[node].children@ == old_trie[node].children@.insert(ch as u32, new_idx),
        trie[node].terminal == old_trie[node].terminal,
        forall|i: int| 0 <= i < old_trie.len() && i != node ==> trie[i] == old_trie[i],
    ensures
        trie_wf(trie, paths, parents, words, max_word_len),
{
    let n = old_trie.len() as int;
    let key = ch as u32;
    assert(key as char == ch);
    assert forall|i: int| 0 <= i < n implies paths[i] == old_paths[i] && parents[i] == old_parents[i] by {}
    assert forall|i: int, c: u32|
        0 <= i < trie.len() && #[trigger] trie[i].children@.contains_key(c) implies {
            &&& trie[i].children@[c] < trie.len()
            &&& paths[trie[i].children@[c] as int] == paths[i].push(c as char)
            &&& (c as char) as u32 == c
        } by {
        if i == node && c == key {
            assert(trie[i].children@[c] == new_idx);
            assert(paths[n] == paths[node].push(ch));
        } else if i < n {
            if i == node {
                assert(old_trie[i].children@.contains_key(c));
                assert(trie[i].children@[c] == old_trie[i].children@[c]);
            } else {
                assert(trie[i] == old_trie[i]);
                assert(old_trie[i].children@.contains_key(c));
            }
            let j = old_trie[i].children@[c] as int;
            assert(j < n);
            assert(paths[j] == old_paths[j]);
            assert(paths[i] == old_paths[i]);
        }
    }
    assert forall|j: int| 0 < j < trie.len() implies {
        &&& 0 <= #[trigger] parents[j].0 < trie.len()
        &&& trie[parents[j].0].children@.contains_key(parents[j].1)
        &&& trie[parents[j].0].children@[parents[j].1] == j
    } by {
        if j < n {
            let p = old_parents[j].0;
            let c = old_parents[j].1;
            assert(old_trie[p].children@.contains_key(c));
            assert(old_trie[p].children@[c] == j);
            if p == node {
                assert(c != key);
                assert(trie[p].children@[c] == old_trie[p].children@[c]);
            } else {
                assert(trie[p] == old_trie[p]);
            }
        }
    }
    assert forall|i: int, j: int|
        0 <= i < trie.len() && 0 <= j < trie.len() && i != j implies #[trigger] paths[i]
        != #[trigger] paths[j] by {
        if i < n && j < n {
            assert(old_paths[i] != old_paths[j]);
        }
    }
    assert forall|i: int| 0 <= i < trie.len() implies (#[trigger] trie[i].terminal
        <==> words.contains(paths[i])) by {
        if i == n {
            if words.contains(paths[i]) {
                let m = choose|m: int| 0 <= m < old_trie.len() && old_paths[m] == paths[i];
                assert(old_paths[m] == old_paths[node].push(ch));
            }
        } else if i != node {
            assert(trie[i] == old_trie[i]);
        }
    }
    assert forall|w: Seq<char>| #[trigger] words.contains(w) implies w.len() > 0 && exists|i: int|
        0 <= i < trie.len() && paths[i] == w by {
        let m = choose|m: int| 0 <= m < old_trie.len() && old_paths[m] == w;
        assert(paths[m] == w);
    }
}

/// Marking the node whose path is `paths[node]` as terminal keeps the trie
/// well formed for the dictionary with that path added.
proof fn lemma_mark_word(
    old_trie: Seq<TrieNode>,
    trie: Seq<TrieNode>,
    paths: Seq<Seq<char>>,
    parents: Seq<(int, u32)>,
    words: Set<Seq<char>>,
    max_word_len: usize,
    node: int,
)
    requires
        trie_wf(old_trie, paths, parents, words, max_word_len),
        0 <= node < old_trie.len(),
        paths[node].len() > 0,
        trie.len() == old_trie.len(),
        trie[node].terminal,
        trie[node].children@ == old_trie[node].children@,
        forall|i: int| 0 <= i < old_trie.len() && i != node ==> trie[i] == old_trie[i],
    ensures
        forall|m: usize| m > 0 && m >= max_word_len ==> trie_wf(trie, paths, parents, words.insert(paths[node]), m),
        forall|m: usize| m > 0 && !words.is_empty() ==> trie_wf(trie, paths, parents, words.insert(paths[node]), m),
{
    let w2 = words.insert(paths[node]);
    assert forall|i: int| 0 <= i < trie.len() implies trie[i].children@ == old_trie[i].children@ by {
        if i != node {
            assert(trie[i] == old_trie[i]);
        }
    }
    assert forall|i: int| 0 <= i < trie.len() implies (#[trigger] trie[i].terminal
        <==> w2.contains(paths[i])) by {
        if i != node {
            assert(trie[i] == old_trie[i]);
            assert(paths[i] != paths[node]);
        }
    }
    assert forall|w: Seq<char>| #[trigger] w2.contains(w) implies w.len() > 0 && exists|i: int|
        0 <= i < trie.len() && paths[i] == w by {
        if w == paths[node] {
        } else {
            assert(words.contains(w));
        }
    }
    assert(w2.contains(paths[node]));
}

/// The dictionary made of `words`: each word lowercased, empty ones left out.
pub open spec fn dictionary_of(words: Seq<Seq<char>>) -> Set<Seq<char>>
    decreases words.len(),
{
    if words.len() == 0 {
        Set::empty()
    } else {
        let rest = dictionary_of(words.drop_last());
        let w = lowercased(words.last());
        if w.len() > 0 {
            rest.insert(w)
        } else {
            rest
        }
    }
}

/// A character is the character of its code point.
proof fn lemma_char_code(ch: char)
    ensures
        (ch as u32) as char == ch,
{
}

/// The child of a node labelled `ch`, if any.
fn find_child(children: &HashMapWithView<u32, usize>, ch: char) -> (r: Option<usize>)
    ensures
        match r {
            Some(c) => children@.contains_key(ch as u32) && children@[ch as u32] == c,
            None => !children@.contains_key(ch as u32),
        },
{
    match children.get(&(ch as u32)) {
        Some(c) => Some(*c),
        None => None,
    }
}

/// A node with no children that ends no word.
fn leaf() -> (n: TrieNode)
    ensures
        n.children@ == Map::<u32, usize>::empty(),
        !n.terminal,
{
    broadcast use vstd::std_specs::hash::group_hash_axioms;

    TrieNode { children: HashMapWithView::new(), terminal: false }
}

impl EnglishScorer {
    #[verifier::type_invariant]
    spec fn wf(self) -> bool {
        trie_wf(self.trie@, self.paths@, self.parents@, self.words@, self.max_word_len)
    }

    /// The dictionary: the lowercased, non-empty words.
    pub closed spec fn dictionary(&self) -> Set<Seq<char>> {
        self.words@
    }

    /// Build the scorer from a list of words.
    fn from_words(words: Vec<String>) -> (r: Self)
        ensures
            r.dictionary() == dictionary_of(words.deep_view()),
    {
        let mut trie: Vec<TrieNode> = Vec::new();
        trie.push(leaf());
        let ghost mut paths: Seq<Seq<char>> = seq![Seq::<char>::empty()];
        let ghost mut parents: Seq<(int, u32)> = seq![(0int, 0u32)];
        let ghost mut dict: Set<Seq<char>> = Set::empty();
        let mut max_word_len: usize = 0;
        let mut wi: usize = 0;
        while wi < words.len()
            invariant
                wi <= words@.len(),
                trie_wf(trie@, paths, parents, dict, max_word_len),
                dict == dictionary_of(words.deep_view().take(wi as int)),
            decreases words@.len() - wi,
        {
            let lw = to_lowercase(words[wi].as_str());
            let cs = chars_of(lw.as_str());
            assert(words.deep_view().take(wi + 1).drop_last() =~= words.deep_view().take(
                wi as int,
            ));
            assert(words.deep_view().take(wi + 1).last() == words@[wi as int]@);
            if cs.len() > 0 {
                let mut node: usize = 0;
                let mut k: usize = 0;
                assert(cs@.take(0) =~= Seq::<char>::empty());
                while k < cs.len()
                    invariant
                        k <= cs@.len(),
                        trie_wf(trie@, paths, parents, dict, max_word_len),
                        node < trie@.len(),
                        paths[node as int] == cs@.take(k as int),
                    decreases cs@.len() - k,
                {
                    let ch = cs[k];
                    match find_child(&trie[node].children, ch) {
                        Some(child) => {
                            proof {
                                lemma_char_code(ch);
                            }
                            node = child;
                        },
                        None => {
                            proof {
                                lemma_no_node_with_path(
                                    trie@,
                                    paths,
                                    parents,
                                    dict,
                                    max_word_len,
                                    node as int,
                                    ch,
                                );
                            }
                            let new_idx = trie.len();
                            let ghost old_trie = trie@;
                            let ghost old_paths = paths;
                            let ghost old_parents = parents;
                            trie.push(leaf());
                            proof {
                                paths = paths.push(paths[node as int].push(ch));
                                parents = parents.push((node as int, ch as u32));
                            }
                            trie[node].children.insert(ch as u32, new_idx);
                            proof {
                                lemma_add_node(
                                    old_trie,
                                    old_paths,
                                    old_parents,
                                    trie@,
                                    paths,
                                    parents,
                                    dict,
                                    max_word_len,
                                    node as int,
                                    ch,
                                    new_idx,
                                );
                            }
                            node = new_idx;
                        },
                    }
                    assert(cs@.take(k + 1) =~= cs@.take(k as int).push(ch));
                    k = k + 1;
                }
                assert(cs@.take(cs@.len() as int) =~= cs@);
                let ghost before = trie@;
                trie[node].terminal = true;
                proof {
                    lemma_mark_word(before, trie@, paths, parents, dict, max_word_len, node as int);
                    dict = dict.insert(cs@);
                }
                if cs.len() > max_word_len {
                    max_word_len = cs.len();
                }
            }
            wi = wi + 1;
        }
        assert(words.deep_view().take(words@.len() as int) =~= words.deep_view());
        EnglishScorer {
            trie,
            max_word_len,
                    words: Ghost(dict),
            paths: Ghost(paths),
            parents: Ghost(parents),
        }
    }

    /// The relaxations of the dynamic program that start at `i`: for each end
    /// `j` after `i`, `dp[j]` becomes `target(j)` from `pre(j)`.
    fn relax_from(&self, s: &Vec<char>, dp: &mut Vec<usize>, i: usize)
        requires
            i < s@.len(),
            old(dp)@.len() == s@.len() + 1,
            forall|k: int| 0 <= k <= i ==> old(dp)@[k] == cover(s@, self.dictionary(), k as nat),
            forall|j: int|
                i < j <= s@.len() ==> old(dp)@[j] == relax_pre(s@, self.dictionary(), i as nat, j as nat),
        ensures
            final(dp)@.len() == s@.len() + 1,
            forall|k: int| 0 <= k <= i ==> final(dp)@[k] == old(dp)@[k],
            forall|j: int|
                i < j <= s@.len() ==> final(dp)@[j] == relax_post(s@, self.dictionary(), i as nat, j as nat),
    {
        proof {
            use_type_invariant(self);
        }
        let ghost dict = self.dictionary();
        let n = s.len();
        let mut node: usize = 0;
        let mut off: usize = 0;
        assert(s@.subrange(i as int, i as int) =~= Seq::<char>::empty());
        while off < n - i
            invariant
                i < n == s@.len(),
                dict == self.dictionary(),
                trie_wf(self.trie@, self.paths@, self.parents@, self.words@, self.max_word_len),
                off <= n - i,
                node < self.trie@.len(),
                self.paths@[node as int] == s@.subrange(i as int, i + off),
                dp@.len() == n + 1,
                old(dp)@.len() == n + 1,
                forall|k: int| 0 <= k <= i ==> dp@[k] == old(dp)@[k],
                forall|k: int| 0 <= k <= i ==> dp@[k] == cover(s@, dict, k as nat),
                forall|j: int|
                    i < j <= i + off ==> #[trigger] dp@[j] == relax_post(s@, dict, i as nat, j as nat),
                forall|j: int|
                    i + off < j <= n ==> #[trigger] dp@[j] == relax_pre(s@, dict, i as nat, j as nat),
            ensures
                dp@.len() == n + 1,
                forall|k: int| 0 <= k <= i ==> dp@[k] == old(dp)@[k],
                forall|j: int|
                    i < j <= n ==> #[trigger] dp@[j] == relax_post(s@, dict, i as nat, j as nat),
            decreases n - i - off,
        {
            let ch = s[i + off];
            let ghost path = s@.subrange(i as int, i + off);
            assert(s@.subrange(i as int, i + off + 1) =~= path.push(ch));
            match find_child(&self.trie[node].children, ch) {
                Some(child) => {
                    proof {
                        lemma_char_code(ch);
                    }
                    node = child;
                    let j = i + off + 1;
                    proof {
                        lemma_relax_step(s@, dict, i as nat, j as nat);
                    }
                    if self.trie[node].terminal {
                        proof {
                            lemma_cover_bound(s@, dict, i as nat);
                        }
                        let covered = dp[i] + (off + 1);
                        if dp[j] < covered {
                            dp.set(j, covered);
                        }
                    }
                },
                None => {
                    proof {
                        lemma_no_word_extends(
                            self.trie@,
                            self.paths@,
                            self.parents@,
                            self.words@,
                            self.max_word_len,
                            node as int,
                            ch,
                        );
                        assert forall|j: int| i + off < j <= n implies #[trigger] dp@[j] == relax_post(
                            s@,
                            dict,
                            i as nat,
                            j as nat,
                        ) by {
                            let w = s@.subrange(i as int, j);
                            assert(w.take(off + 1) =~= path.push(ch));
                            assert(!dict.contains(w));
                            lemma_relax_step(s@, dict, i as nat, j as nat);
                        }
                    }
                    break;
                },
            }
            off = off + 1;
        }
    }

    /// The most characters of `s` that non-overlapping dictionary words cover.
    fn coverage(&self, s: &Vec<char>) -> (c: usize)
        ensures
            c == cover(s@, self.dictionary(), s@.len()),
    {
        let ghost dict = self.dictionary();
        let n = s.len();
        // dp[i] = max covered chars among the first i chars (0..i)
        let mut dp: Vec<usize> = Vec::new();
        dp.push(0);
        let mut k: usize = 0;
        while k < n
            invariant
                k <= n,
                dp@.len() == k + 1,
                forall|m: int| 0 <= m < dp@.len() ==> dp@[m] == 0,
            decreases n - k,
        {
            dp.push(0);
            k = k + 1;
        }
        let mut i: usize = 0;
        while i < n
            invariant
                n == s@.len(),
                dict == self.dictionary(),
                i <= n,
                dp@.len() == n + 1,
                forall|k: int| 0 <= k <= i ==> #[trigger] dp@[k] == cover(s@, dict, k as nat),
                forall|j: int| i < j <= n ==> #[trigger] dp@[j] == best_ending(s@, dict, j as nat, i as nat),
            decreases n - i,
        {
            // Option 1: skip this char
            if dp[i + 1] < dp[i] {
                let v = dp[i];
                dp.set(i + 1, v);
            }
            // Option 2: take any dictionary word starting at i
            self.relax_from(s, &mut dp, i);
            i = i + 1;
        }
        dp[n]
    }

    /// Construct from an existing list of words.
    pub fn new_with_wordlist(wordlist: Vec<String>) -> (r: Self)
        ensures
            r.dictionary() == dictionary_of(wordlist.deep_view()),
    {
        Self::from_words(wordlist)
    }
}

impl Scorer for EnglishScorer {
    open spec fn spec_name(&self) -> Seq<char> {
        "english"@
    }

    open spec fn spec_score(&self, input: Seq<char>) -> i32 {
        english_score(self.dictionary(), input)
    }

    fn name(&self) -> (r: &'static str) {
        "english"
    }

    fn score(&self, input: &str) -> (r: i32) {
        proof {
            use_type_invariant(self);
        }
        if self.max_word_len == 0 {
            return 0;
        }
        // Lowercase once for case-insensitive matching.
        let lower = to_lowercase(input);
        let chars = chars_of(lower.as_str());
        let spaces = count_whitespace(&chars);
        proof {
            lemma_count_ws_bound(chars@);
        }
        let non_ws = chars.len() - spaces;
        if non_ws == 0 {
            return 0;
        }
        let covered = self.coverage(&chars);
        let p: u128 = (covered as u128) * 100 / (non_ws as u128);
        if p > 100 {
            100
        } else {
            p as i32
        }
    }
}

} // verus!
