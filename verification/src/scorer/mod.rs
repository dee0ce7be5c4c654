//! Scorers that rate how plausible a candidate text is, and the engine that
//! runs them.
use vstd::prelude::*;
use vstd::string::StringSliceAdditionalSpecFns;
use vstd::utf8::encode_utf8;

pub mod base64;
pub mod binary;
pub mod english;
pub mod english_structure;
pub mod english_text;
pub mod morse_code;
pub mod url;
pub mod youtube_url;

pub use base64::Base64Scorer;
pub use binary::BinaryScorer;
pub use english::EnglishScorer;
pub use english_structure::EnglishStructureScorer;
pub use english_text::EnglishTextScorer;
pub use morse_code::MorseCodeScorer;
pub use url::UrlScorer;
pub use youtube_url::YoutubeURLScorer;
use english::dictionary_of;
use crate::sort::{desc_order, lemma_desc_order, precedes, stable_desc_order};

verus! {

/// Heuristic scoring of input strings. Higher is better; negative scores are
/// allowed for penalties.
pub trait Scorer {
    /// The name that `name` returns.
    spec fn spec_name(&self) -> Seq<char>;

    /// The score that `score` returns for `input`.
    spec fn spec_score(&self, input: Seq<char>) -> i32;

    /// Stable, human-readable scorer name/category.
    fn name(&self) -> (r: &'static str)
        ensures
            r@ == self.spec_name(),
    ;

    /// Return an integer score for the given input.
    fn score(&self, input: &str) -> (r: i32)
        ensures
            r == self.spec_score(input@),
    ;
}

/// The built-in scorers, as one type that the engine can hold.
pub enum BuiltinScorer {
    Url(UrlScorer),
    YoutubeUrl(YoutubeURLScorer),
    English(EnglishScorer),
    Binary(BinaryScorer),
    Base64(Base64Scorer),
    EnglishStructure(EnglishStructureScorer),
    EnglishText(EnglishTextScorer),
    MorseCode(MorseCodeScorer),
    /// A scorer of the library's user, boxed.
    Custom(Box<dyn Scorer>),
}

impl Scorer for BuiltinScorer {
    open spec fn spec_name(&self) -> Seq<char> {
        match self {
            BuiltinScorer::Url(s) => s.spec_name(),
            BuiltinScorer::YoutubeUrl(s) => s.spec_name(),
            BuiltinScorer::English(s) => s.spec_name(),
            BuiltinScorer::Binary(s) => s.spec_name(),
            BuiltinScorer::Base64(s) => s.spec_name(),
            BuiltinScorer::EnglishStructure(s) => s.spec_name(),
            BuiltinScorer::EnglishText(s) => s.spec_name(),
            BuiltinScorer::MorseCode(s) => s.spec_name(),
            BuiltinScorer::Custom(s) => s.spec_name(),
        }
    }

    open spec fn spec_score(&self, input: Seq<char>) -> i32 {
        match self {
            BuiltinScorer::Url(s) => s.spec_score(input),
            BuiltinScorer::YoutubeUrl(s) => s.spec_score(input),
            BuiltinScorer::English(s) => s.spec_score(input),
            BuiltinScorer::Binary(s) => s.spec_score(input),
            BuiltinScorer::Base64(s) => s.spec_score(input),
            BuiltinScorer::EnglishStructure(s) => s.spec_score(input),
            BuiltinScorer::EnglishText(s) => s.spec_score(input),
            BuiltinScorer::MorseCode(s) => s.spec_score(input),
            BuiltinScorer::Custom(s) => s.spec_score(input),
        }
    }

    fn name(&self) -> (r: &'static str) {
        match self {
            BuiltinScorer::Url(s) => s.name(),
            BuiltinScorer::YoutubeUrl(s) => s.name(),
            BuiltinScorer::English(s) => s.name(),
            BuiltinScorer::Binary(s) => s.name(),
            BuiltinScorer::Base64(s) => s.name(),
            BuiltinScorer::EnglishStructure(s) => s.name(),
            BuiltinScorer::EnglishText(s) => s.name(),
            BuiltinScorer::MorseCode(s) => s.name(),
            BuiltinScorer::Custom(s) => s.name(),
        }
    }

    fn score(&self, input: &str) -> (r: i32) {
        match self {
            BuiltinScorer::Url(s) => s.score(input),
            BuiltinScorer::YoutubeUrl(s) => s.score(input),
            BuiltinScorer::English(s) => s.score(input),
            BuiltinScorer::Binary(s) => s.score(input),
            BuiltinScorer::Base64(s) => s.score(input),
            BuiltinScorer::EnglishStructure(s) => s.score(input),
            BuiltinScorer::EnglishText(s) => s.score(input),
            BuiltinScorer::MorseCode(s) => s.score(input),
            BuiltinScorer::Custom(s) => s.score(input),
        }
    }
}

/// The abstract value of a (name, score) pair.
pub open spec fn named_score(p: (&'static str, i32)) -> (Seq<char>, i32) {
    (p.0@, p.1)
}

/// The abstract value of an optional (name, score) pair.
pub open spec fn named_score_opt(r: Option<(&'static str, i32)>) -> Option<(Seq<char>, i32)> {
    match r {
        Some(p) => Some(named_score(p)),
        None => None,
    }
}

/// The (name, score) of the highest-scoring of `scorers` on `input`; among
/// equal scores the last one wins; `None` when there is no scorer.
pub open spec fn last_best(scorers: Seq<BuiltinScorer>, input: Seq<char>) -> Option<(Seq<char>, i32)>
    decreases scorers.len(),
{
    if scorers.len() == 0 {
        None
    } else {
        let cur = (scorers.last().spec_name(), scorers.last().spec_score(input));
        match last_best(scorers.drop_last(), input) {
            None => Some(cur),
            Some(b) => if cur.1 >= b.1 {
                Some(cur)
            } else {
                Some(b)
            },
        }
    }
}

/// What `best` answers: ("Empty", 0) for empty text, ("Short", 10) for text of
/// fewer than five UTF-8 bytes, else the highest-scoring scorer.
pub open spec fn best_answer(scorers: Seq<BuiltinScorer>, input: Seq<char>) -> Option<(Seq<char>, i32)> {
    if input.len() == 0 {
        Some(("Empty"@, 0))
    } else if (encode_utf8(input).len() as usize) < 5 {
        Some(("Short"@, 10))
    } else {
        last_best(scorers, input)
    }
}

/// The (name, score) of each of `scorers` on `input`, in order of the scorers.
pub open spec fn all_scores(scorers: Seq<BuiltinScorer>, input: Seq<char>) -> Seq<(Seq<char>, i32)> {
    scorers.map_values(|s: BuiltinScorer| (s.spec_name(), s.spec_score(input)))
}

/// What `score_all` returns: every (name, score), highest score first, equal
/// scores in order of the scorers.
pub open spec fn ranked_scores(scorers: Seq<BuiltinScorer>, input: Seq<char>) -> Seq<(Seq<char>, i32)> {
    let all = all_scores(scorers, input);
    desc_order(all.map_values(|p: (Seq<char>, i32)| p.1), all.len()).map_values(|i: int| all[i])
}

/// Engine that runs all registered scorers and aggregates their results.
pub struct ScoringEngine {
    scorers: Vec<BuiltinScorer>,
}

impl ScoringEngine {
    /// The registered scorers, in order of registration.
    pub closed spec fn scorers(&self) -> Seq<BuiltinScorer> {
        self.scorers@
    }

    /// An engine with no scorers.
    pub fn new() -> (r: Self)
        ensures
            r.scorers() == Seq::<BuiltinScorer>::empty(),
    {
        ScoringEngine { scorers: Vec::new() }
    }

    /// Register a concrete scorer instance.
    pub fn register(&mut self, scorer: BuiltinScorer)
        ensures
            final(self).scorers() == old(self).scorers().push(scorer),
    {
        self.scorers.push(scorer);
    }

    /// Score with all categories, return (name, score) sorted by descending score.
    pub fn score_all(&self, input: &str) -> (r: Vec<(&'static str, i32)>)
        ensures
            r@.map_values(|p: (&'static str, i32)| named_score(p)) == ranked_scores(self.scorers(), input@),
    {
        let ghost all = all_scores(self.scorers@, input@);
        let mut pairs: Vec<(&'static str, i32)> = Vec::new();
        let mut keys: Vec<i32> = Vec::new();
        let mut i: usize = 0;
        while i < self.scorers.len()
            invariant
                i <= self.scorers@.len(),
                all == all_scores(self.scorers@, input@),
                pairs@.len() == i,
                keys@.len() == i,
                forall|k: int| 0 <= k < i ==> named_score(#[trigger] pairs@[k]) == all[k],
                forall|k: int| 0 <= k < i ==> #[trigger] keys@[k] == all[k].1,
            decreases self.scorers@.len() - i,
        {
            let s = &self.scorers[i];
            let p = (s.name(), s.score(input));
            pairs.push(p);
            keys.push(p.1);
            i = i + 1;
        }
        assert(keys@ =~= all.map_values(|p: (Seq<char>, i32)| p.1));
        let order = stable_desc_order(&keys);
        let ghost ord = desc_order(keys@, keys@.len());
        proof {
            lemma_desc_order(keys@, keys@.len());
            assert(order@.len() == ord.len());
        }
        let mut out: Vec<(&'static str, i32)> = Vec::new();
        let mut j: usize = 0;
        while j < order.len()
            invariant
                j <= order@.len(),
                order@.len() == all.len(),
                pairs@.len() == all.len(),
                forall|k: int| 0 <= k < all.len() ==> named_score(#[trigger] pairs@[k]) == all[k],
                keys@ == all.map_values(|p: (Seq<char>, i32)| p.1),
                ord == desc_order(keys@, keys@.len()),
                order@.map_values(|x: usize| x as int) == ord,
                forall|m: int| 0 <= m < ord.len() ==> 0 <= #[trigger] ord[m] < all.len(),
                out@.len() == j,
                forall|k: int| 0 <= k < j ==> named_score(#[trigger] out@[k]) == all[ord[k]],
            decreases order@.len() - j,
        {
            assert(ord[j as int] == order@[j as int] as int);
            out.push(pairs[order[j]]);
            j = j + 1;
        }
        assert(out@.map_values(|p: (&'static str, i32)| named_score(p)) =~= ranked_scores(
            self.scorers(),
            input@,
        ));
        out
    }

    /// The highest-scoring category (if any).
    pub fn best(&self, input: &str) -> (r: Option<(&'static str, i32)>)
        ensures
            named_score_opt(r) == best_answer(self.scorers(), input@),
    {
        // Keep the previous quick paths for empty/short strings.
        if input.is_empty() {
            return Some(("Empty", 0));
        }
        assert(input.spec_bytes() == encode_utf8(input@));
        if input.len() < 5 {
            return Some(("Short", 10));
        }
        let mut best: Option<(&'static str, i32)> = None;
        let mut i: usize = 0;
        while i < self.scorers.len()
            invariant
                i <= self.scorers@.len(),
                named_score_opt(best) == last_best(self.scorers@.take(i as int), input@),
            decreases self.scorers@.len() - i,
        {
            assert(self.scorers@.take(i + 1).drop_last() =~= self.scorers@.take(i as int));
            let s = &self.scorers[i];
            let cur = (s.name(), s.score(input));
            match best {
                None => {
                    best = Some(cur);
                },
                Some(b) => {
                    if cur.1 >= b.1 {
                        best = Some(cur);
                    }
                },
            }
            i = i + 1;
        }
        assert(self.scorers@.take(self.scorers@.len() as int) =~= self.scorers@);
        best
    }

    /// Score many inputs, and return the one with the highest score: the
    /// answer of `best` with the highest score over the inputs (the last such
    /// among equal scores), `None` when `best` answers for none.
    pub fn score_many(&self, inputs: &[&str]) -> (r: Option<(&'static str, i32)>)
        ensures
            named_score_opt(r) == highest_answer(self.scorers(), inputs@.map_values(|s: &str| s@)),
    {
        let mut max_score: Option<(&'static str, i32)> = None;
        let ghost texts = inputs@.map_values(|s: &str| s@);
        let mut i: usize = 0;
        while i < inputs.len()
            invariant
                i <= inputs@.len(),
                texts == inputs@.map_values(|s: &str| s@),
                named_score_opt(max_score) == highest_answer(self.scorers(), texts.take(i as int)),
            decreases inputs@.len() - i,
        {
            assert(texts.take(i + 1).drop_last() =~= texts.take(i as int));
            let score = self.best(inputs[i]);
            if let Some((name, score)) = score {
                match max_score {
                    None => {
                        max_score = Some((name, score));
                    },
                    Some((_, best)) => {
                        if score >= best {
                            max_score = Some((name, score));
                        }
                    },
                }
            }
            i = i + 1;
        }
        assert(texts.take(inputs@.len() as int) =~= texts);
        max_score
    }
}

/// The highest score wins: among scorers, `last_best` answers the (name,
/// score) of one of them, no scorer scores higher, and nothing when there is
/// no scorer.
pub proof fn lemma_last_best_is_highest(scorers: Seq<BuiltinScorer>, input: Seq<char>)
    ensures
        scorers.len() == 0 <==> last_best(scorers, input) is None,
        scorers.len() > 0 ==> ({
            let b = last_best(scorers, input)->0;
            let all = all_scores(scorers, input);
            &&& exists|i: int| 0 <= i < all.len() && #[trigger] all[i] == b
            &&& forall|i: int| 0 <= i < all.len() ==> (#[trigger] all[i]).1 <= b.1
        }),
    decreases scorers.len(),
{
    if scorers.len() > 0 {
        let rest = scorers.drop_last();
        lemma_last_best_is_highest(rest, input);
        let all = all_scores(scorers, input);
        let rall = all_scores(rest, input);
        assert forall|i: int| 0 <= i < rall.len() implies #[trigger] rall[i] == all[i] by {}
        let n = scorers.len() - 1;
        assert(all[n] == (scorers.last().spec_name(), scorers.last().spec_score(input)));
        let b = last_best(scorers, input)->0;
        if rest.len() > 0 {
            let pb = last_best(rest, input)->0;
            let i0 = choose|i: int| 0 <= i < rall.len() && #[trigger] rall[i] == pb;
            assert(all[i0] == rall[i0]);
            assert(b.1 >= pb.1);
            assert forall|i: int| 0 <= i < all.len() implies (#[trigger] all[i]).1 <= b.1 by {
                if i < n {
                    assert(all[i] == rall[i]);
                }
            }
        } else {
            assert forall|i: int| 0 <= i < all.len() implies (#[trigger] all[i]).1 <= b.1 by {
                assert(i == n);
            }
        }
    }
}

/// For text of at least five bytes, `best` answers the highest score of all
/// scorers, which is the score that `score_all` lists first.
#[verifier::rlimit(40)]
pub proof fn lemma_best_tops_score_all(scorers: Seq<BuiltinScorer>, input: Seq<char>)
    requires
        input.len() > 0,
        !((encode_utf8(input).len() as usize) < 5),
        scorers.len() > 0,
    ensures
        best_answer(scorers, input) is Some,
        (best_answer(scorers, input)->0).1 == ranked_scores(scorers, input)[0].1,
        forall|i: int|
            0 <= i < scorers.len() ==> (#[trigger] all_scores(scorers, input)[i]).1 <= (best_answer(
                scorers,
                input,
            )->0).1,
{
    lemma_last_best_is_highest(scorers, input);
    lemma_score_all_sorted(scorers, input);
    let all = all_scores(scorers, input);
    let r = ranked_scores(scorers, input);
    let b = last_best(scorers, input)->0;
    let i0 = choose|i: int| 0 <= i < all.len() && #[trigger] all[i] == b;
    let j0 = choose|j: int| 0 <= j < r.len() && #[trigger] r[j] == all[i0];
    assert(r[0].1 >= r[j0].1);
    let k0 = choose|k: int| 0 <= k < all.len() && #[trigger] all[k] == r[0];
    assert(all[k0].1 <= b.1);
}

/// `score_all` lists the score of every scorer once, highest first, equal
/// scores in order of registration.
pub proof fn lemma_score_all_sorted(scorers: Seq<BuiltinScorer>, input: Seq<char>)
    ensures
        ({
            let all = all_scores(scorers, input);
            let r = ranked_scores(scorers, input);
            &&& r.len() == all.len()
            &&& forall|a: int, b: int| 0 <= a < b < r.len() ==> (#[trigger] r[a]).1 >= (#[trigger] r[b]).1
            &&& forall|i: int| 0 <= i < all.len() ==> exists|j: int| 0 <= j < r.len() && #[trigger] r[j] == #[trigger] all[i]
            &&& forall|j: int| 0 <= j < r.len() ==> exists|i: int| 0 <= i < all.len() && #[trigger] r[j] == #[trigger] all[i]
        }),
{
    let all = all_scores(scorers, input);
    let keys = all.map_values(|p: (Seq<char>, i32)| p.1);
    let p = desc_order(keys, all.len());
    lemma_desc_order(keys, all.len());
    let r = ranked_scores(scorers, input);
    assert forall|a: int, b: int| 0 <= a < b < r.len() implies (#[trigger] r[a]).1 >= (#[trigger] r[b]).1 by {
        assert(precedes(keys, p[a], p[b]));
    }
    assert forall|i: int| 0 <= i < all.len() implies exists|j: int| 0 <= j < r.len() && #[trigger] r[j] == #[trigger] all[i] by {
        assert(p.contains(i));
        let j = choose|j: int| 0 <= j < p.len() && p[j] == i;
        assert(r[j] == all[i]);
    }
    assert forall|j: int| 0 <= j < r.len() implies exists|i: int| 0 <= i < all.len() && #[trigger] r[j] == #[trigger] all[i] by {
        assert(r[j] == all[p[j]]);
    }
}

/// The answer of `best` with the highest score over `inputs`, the last one
/// among equal scores; `None` when it answers for none of them.
pub open spec fn highest_answer(scorers: Seq<BuiltinScorer>, inputs: Seq<Seq<char>>) -> Option<(Seq<char>, i32)>
    decreases inputs.len(),
{
    if inputs.len() == 0 {
        None
    } else {
        let prev = highest_answer(scorers, inputs.drop_last());
        match best_answer(scorers, inputs.last()) {
            None => prev,
            Some(a) => match prev {
                None => Some(a),
                Some(p) => if a.1 >= p.1 {
                    Some(a)
                } else {
                    prev
                },
            },
        }
    }
}

/// `score_many` answers for the highest-scoring input: nothing exactly when
/// `best` answers for no input, and otherwise one of `best`'s answers that no
/// other answer beats.
pub proof fn lemma_score_many_is_highest(scorers: Seq<BuiltinScorer>, inputs: Seq<Seq<char>>)
    ensures
        highest_answer(scorers, inputs) is None <==> forall|i: int|
            0 <= i < inputs.len() ==> (#[trigger] best_answer(scorers, inputs[i])) is None,
        highest_answer(scorers, inputs) is Some ==> ({
            let b = highest_answer(scorers, inputs)->0;
            &&& exists|i: int| 0 <= i < inputs.len() && #[trigger] best_answer(scorers, inputs[i]) == Some(b)
            &&& forall|i: int|
                0 <= i < inputs.len() && (#[trigger] best_answer(scorers, inputs[i])) is Some
                    ==> (best_answer(scorers, inputs[i])->0).1 <= b.1
        }),
    decreases inputs.len(),
{
    if inputs.len() > 0 {
        let rest = inputs.drop_last();
        lemma_score_many_is_highest(scorers, rest);
        let n = inputs.len() - 1;
        assert forall|i: int| 0 <= i < rest.len() implies #[trigger] rest[i] == inputs[i] by {}
        if highest_answer(scorers, inputs) is Some {
            let b = highest_answer(scorers, inputs)->0;
            let prev = highest_answer(scorers, rest);
            if prev is Some {
                let i0 = choose|i: int| 0 <= i < rest.len() && #[trigger] best_answer(scorers, rest[i]) == prev;
                assert(best_answer(scorers, inputs[i0]) == prev);
            }
            if best_answer(scorers, inputs[n]) == Some(b) {
            }
            assert forall|i: int|
                0 <= i < inputs.len() && (#[trigger] best_answer(scorers, inputs[i])) is Some implies (
                best_answer(scorers, inputs[i])->0).1 <= b.1 by {
                if i < n {
                    assert(best_answer(scorers, rest[i]) == best_answer(scorers, inputs[i]));
                }
            }
        } else {
            assert forall|i: int| 0 <= i < inputs.len() implies (#[trigger] best_answer(
                scorers,
                inputs[i],
            )) is None by {
                if i < n {
                    assert(best_answer(scorers, rest[i]) == best_answer(scorers, inputs[i]));
                }
            }
        }
    }
}

/// The built-in scorers, in the order the default engine holds them, with
/// the dictionary scorer built from `wordlist`.
pub open spec fn default_scorers_ok(scorers: Seq<BuiltinScorer>, wordlist: Seq<Seq<char>>) -> bool {
    &&& scorers.len() == 7
    &&& scorers[0] is Url
    &&& scorers[1] is YoutubeUrl
    &&& scorers[2] matches BuiltinScorer::English(e) && e.dictionary() == dictionary_of(wordlist)
    &&& scorers[3] is Binary
    &&& scorers[4] is Base64
    &&& scorers[5] is EnglishStructure
    &&& scorers[6] is MorseCode
}

/// Construct a `ScoringEngine` with all built-in scorers registered, the
/// dictionary scorer built from `wordlist`.
pub fn default_scorer(wordlist: Vec<String>) -> (r: ScoringEngine)
    ensures
        default_scorers_ok(r.scorers(), wordlist.deep_view()),
{
    let mut engine = ScoringEngine::new();
    engine.register(BuiltinScorer::Url(UrlScorer));
    engine.register(BuiltinScorer::YoutubeUrl(YoutubeURLScorer));
    engine.register(BuiltinScorer::English(EnglishScorer::new_with_wordlist(wordlist)));
    engine.register(BuiltinScorer::Binary(BinaryScorer));
    engine.register(BuiltinScorer::Base64(Base64Scorer));
    engine.register(BuiltinScorer::EnglishStructure(EnglishStructureScorer));
    engine.register(BuiltinScorer::MorseCode(MorseCodeScorer));
    engine
}

} // verus!
