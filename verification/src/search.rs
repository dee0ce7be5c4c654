//! Layered search through decoder expansions with optional beam pruning.
use vstd::prelude::*;
use vstd::hash_set::StringHashSet;
use crate::engine::{expansion, DecoderEngine, Step, StepView, TransformView};
use crate::decoders::BuiltinDecoder;
use crate::scorer::{best_answer, BuiltinScorer, ScoringEngine};
use crate::sort::{desc_order, lemma_desc_order, stable_desc_order};

verus! {

/// A decoded candidate along a chain of transformation steps.
pub struct Chain {
    pub text: String,
    pub steps: Vec<Step>,
    pub score: i32,
    pub detected_as: String,
}

/// The abstract value of a chain.
pub struct ChainView {
    pub text: Seq<char>,
    pub steps: Seq<StepView>,
    pub score: i32,
    pub detected_as: Seq<char>,
}

impl View for Chain {
    type V = ChainView;

    open spec fn view(&self) -> ChainView {
        ChainView {
            text: self.text@,
            steps: self.steps.deep_view(),
            score: self.score,
            detected_as: self.detected_as@,
        }
    }
}

impl DeepView for Chain {
    type V = ChainView;

    open spec fn deep_view(&self) -> ChainView {
        self@
    }
}

/// Configuration for the search through decoder expansions.
#[derive(Clone, Copy)]
pub struct SearchConfig {
    /// Maximum number of transformation steps to apply.
    pub max_depth: usize,
    /// Keep at most this many best-scoring nodes per depth. `None` = no pruning.
    pub beam_width: Option<usize>,
    /// If true, do not revisit the exact same output text again.
    pub dedup_on_text: bool,
}

/// The category and score that the search gives a text: the scoring engine's
/// best answer, or ("unknown", 0) when it has none.
pub open spec fn rating(scorers: Seq<BuiltinScorer>, text: Seq<char>) -> (Seq<char>, i32) {
    match best_answer(scorers, text) {
        Some(a) => a,
        None => ("unknown"@, 0),
    }
}

/// The chain reaching `text` by `steps`, rated.
pub open spec fn rated(scorers: Seq<BuiltinScorer>, text: Seq<char>, steps: Seq<StepView>) -> ChainView {
    let r = rating(scorers, text);
    ChainView { text, steps, score: r.1, detected_as: r.0 }
}

/// The scores of a layer, in order.
pub open spec fn scores_of(layer: Seq<ChainView>) -> Seq<i32> {
    layer.map_values(|c: ChainView| c.score)
}

/// `layer` in stable descending order of score.
pub open spec fn sort_by_score(layer: Seq<ChainView>) -> Seq<ChainView> {
    desc_order(scores_of(layer), layer.len()).map_values(|i: int| layer[i])
}

/// A layer after beam pruning: unchanged without a beam width, else sorted
/// by score and cut to the width.
pub open spec fn prune(layer: Seq<ChainView>, beam_width: Option<usize>) -> Seq<ChainView> {
    match beam_width {
        None => layer,
        Some(k) => {
            let s = sort_by_score(layer);
            if s.len() > k {
                s.take(k as int)
            } else {
                s
            }
        },
    }
}

/// A layer being built, and the texts seen so far.
pub type Frontier = (Seq<ChainView>, Set<Seq<char>>);

/// One decoder output of `node` added to the frontier: skipped when texts are
/// deduplicated and its text was seen, else appended as a rated child.
pub open spec fn add_child(
    scorers: Seq<BuiltinScorer>,
    dedup: bool,
    node: ChainView,
    acc: Frontier,
    tr: TransformView,
) -> Frontier {
    if dedup && acc.1.contains(tr.0) {
        acc
    } else {
        (
            acc.0.push(rated(scorers, tr.0, node.steps.push(tr.1))),
            if dedup {
                acc.1.insert(tr.0)
            } else {
                acc.1
            },
        )
    }
}

/// The decoder outputs `trs` of `node` added to the frontier in order.
pub open spec fn add_children(
    scorers: Seq<BuiltinScorer>,
    dedup: bool,
    node: ChainView,
    trs: Seq<TransformView>,
    acc: Frontier,
) -> Frontier
    decreases trs.len(),
{
    if trs.len() == 0 {
        acc
    } else {
        add_child(scorers, dedup, node, add_children(scorers, dedup, node, trs.drop_last(), acc), trs.last())
    }
}

/// The children of every node of `layer`, node by node, added to the frontier.
pub open spec fn expand_layer(
    decoders: Seq<BuiltinDecoder>,
    scorers: Seq<BuiltinScorer>,
    dedup: bool,
    layer: Seq<ChainView>,
    acc: Frontier,
) -> Frontier
    decreases layer.len(),
{
    if layer.len() == 0 {
        acc
    } else {
        let node = layer.last();
        add_children(
            scorers,
            dedup,
            node,
            expansion(decoders, node.text, node.steps),
            expand_layer(decoders, scorers, dedup, layer.drop_last(), acc),
        )
    }
}

/// The rated input, the only node of depth 0.
pub open spec fn seed(scorers: Seq<BuiltinScorer>, input: Seq<char>) -> ChainView {
    rated(scorers, input, seq![])
}

/// The pruned layer of depth `d`, and the texts seen once it is built.
pub open spec fn layer_at(
    decoders: Seq<BuiltinDecoder>,
    scorers: Seq<BuiltinScorer>,
    input: Seq<char>,
    cfg: SearchConfig,
    d: nat,
) -> Frontier
    decreases d,
{
    if d == 0 {
        (
            prune(seq![seed(scorers, input)], cfg.beam_width),
            if cfg.dedup_on_text {
                set![input]
            } else {
                Set::empty()
            },
        )
    } else {
        let prev = layer_at(decoders, scorers, input, cfg, (d - 1) as nat);
        let next = expand_layer(decoders, scorers, cfg.dedup_on_text, prev.0, (seq![], prev.1));
        (prune(next.0, cfg.beam_width), next.1)
    }
}

/// The nodes of the layers of depth `0..=d`, layer after layer.
pub open spec fn recorded(
    decoders: Seq<BuiltinDecoder>,
    scorers: Seq<BuiltinScorer>,
    input: Seq<char>,
    cfg: SearchConfig,
    d: nat,
) -> Seq<ChainView>
    decreases d,
{
    if d == 0 {
        layer_at(decoders, scorers, input, cfg, 0).0
    } else {
        recorded(decoders, scorers, input, cfg, (d - 1) as nat) + layer_at(
            decoders,
            scorers,
            input,
            cfg,
            d,
        ).0
    }
}

/// What `explore` returns: every recorded node, highest score first.
pub open spec fn explored(
    decoders: Seq<BuiltinDecoder>,
    scorers: Seq<BuiltinScorer>,
    input: Seq<char>,
    cfg: SearchConfig,
) -> Seq<ChainView> {
    sort_by_score(recorded(decoders, scorers, input, cfg, cfg.max_depth as nat))
}

/// A copy of a list of steps.
fn clone_steps(v: &Vec<Step>) -> (r: Vec<Step>)
    ensures
        r.deep_view() == v.deep_view(),
{
    let mut r: Vec<Step> = Vec::new();
    let mut i: usize = 0;
    while i < v.len()
        invariant
            i <= v@.len(),
            r.deep_view() =~= v.deep_view().take(i as int),
        decreases v@.len() - i,
    {
        let ghost before = r.deep_view();
        r.push(v[i].duplicate());
        assert(r.deep_view() =~= before.push(v.deep_view()[i as int]));
        i = i + 1;
    }
    assert(v.deep_view().take(v@.len() as int) =~= v.deep_view());
    r
}

impl Chain {
    /// A chain equal to this one.
    pub fn duplicate(&self) -> (c: Chain)
        ensures
            c@ == self@,
    {
        Chain {
            text: self.text.clone(),
            steps: clone_steps(&self.steps),
            score: self.score,
            detected_as: self.detected_as.clone(),
        }
    }
}

/// The category and score of `text`.
fn rate(scorer: &ScoringEngine, text: &str) -> (r: (String, i32))
    ensures
        (r.0@, r.1) == rating(scorer.scorers(), text@),
{
    let (cat, score) = scorer.best(text).unwrap_or(("unknown", 0));
    (cat.to_string(), score)
}

/// Copies of the chains of `layer` in stable descending order of score.
pub fn sorted_by_score(layer: &Vec<Chain>) -> (r: Vec<Chain>)
    ensures
        r.deep_view() == sort_by_score(layer.deep_view()),
{
    let ghost lv = layer.deep_view();
    let mut keys: Vec<i32> = Vec::new();
    let mut i: usize = 0;
    while i < layer.len()
        invariant
            i <= layer@.len(),
            lv == layer.deep_view(),
            keys@ =~= scores_of(lv).take(i as int),
        decreases layer@.len() - i,
    {
        keys.push(layer[i].score);
        i = i + 1;
    }
    assert(scores_of(lv).take(layer@.len() as int) =~= scores_of(lv));
    let order = stable_desc_order(&keys);
    let ghost ord = desc_order(keys@, keys@.len());
    proof {
        lemma_desc_order(keys@, keys@.len());
        assert(order@.len() == ord.len());
    }
    let mut r: Vec<Chain> = Vec::new();
    let mut j: usize = 0;
    while j < order.len()
        invariant
            j <= order@.len(),
            order@.len() == lv.len(),
            lv == layer.deep_view(),
            keys@ == scores_of(lv),
            ord == desc_order(keys@, keys@.len()),
            order@.map_values(|x: usize| x as int) == ord,
            forall|m: int| 0 <= m < ord.len() ==> 0 <= #[trigger] ord[m] < lv.len(),
            r.deep_view() =~= sort_by_score(lv).take(j as int),
        decreases order@.len() - j,
    {
        assert(ord[j as int] == order@[j as int] as int);
        let ghost before = r.deep_view();
        r.push(layer[order[j]].duplicate());
        assert(r.deep_view() =~= before.push(sort_by_score(lv)[j as int]));
        j = j + 1;
    }
    assert(sort_by_score(lv).take(order@.len() as int) =~= sort_by_score(lv));
    r
}

/// The layer after beam pruning.
fn prune_layer(layer: Vec<Chain>, beam_width: Option<usize>) -> (r: Vec<Chain>)
    ensures
        r.deep_view() == prune(layer.deep_view(), beam_width),
{
    match beam_width {
        None => layer,
        Some(k) => {
            let mut s = sorted_by_score(&layer);
            let ghost sv = s.deep_view();
            if s.len() > k {
                s.truncate(k);
                assert(s.deep_view() =~= sv.take(k as int));
            }
            s
        },
    }
}

/// The children of `node` added to the layer being built.
fn add_node_children(
    engine: &DecoderEngine,
    scorer: &ScoringEngine,
    dedup: bool,
    node: &Chain,
    next: &mut Vec<Chain>,
    seen: &mut StringHashSet,
)
    ensures
        (final(next).deep_view(), final(seen)@) == add_children(
            scorer.scorers(),
            dedup,
            node@,
            expansion(engine.decoders(), node@.text, node@.steps),
            (old(next).deep_view(), old(seen)@),
        ),
{
    let history = node.steps.as_slice();
    assert(history.deep_view() =~= node.steps.deep_view());
    let expansions = engine.expand(node.text.as_str(), history);
    let ghost trs = expansions.deep_view();
    let ghost init: Frontier = (next.deep_view(), seen@);
    let mut j: usize = 0;
    while j < expansions.len()
        invariant
            j <= expansions@.len(),
            trs == expansions.deep_view(),
            trs == expansion(engine.decoders(), node@.text, node@.steps),
            (next.deep_view(), seen@) == add_children(
                scorer.scorers(),
                dedup,
                node@,
                trs.take(j as int),
                init,
            ),
        decreases expansions@.len() - j,
    {
        assert(trs.take(j + 1).drop_last() =~= trs.take(j as int));
        let tr = &expansions[j];
        let ghost acc: Frontier = (next.deep_view(), seen@);
        let fresh = if dedup {
            seen.insert(tr.output.clone())
        } else {
            true
        };
        if fresh {
            let (cat, score) = rate(scorer, tr.output.as_str());
            let mut steps = clone_steps(&node.steps);
            let ghost before = steps.deep_view();
            steps.push(tr.step.duplicate());
            assert(steps.deep_view() =~= before.push(tr.step@));
            let child = Chain { text: tr.output.clone(), steps, score, detected_as: cat };
            assert(child@ == rated(scorer.scorers(), tr.output@, node@.steps.push(tr.step@)));
            let ghost child_view = child@;
            next.push(child);
            assert(next.deep_view() =~= acc.0.push(child_view));
        } else {
            assert(seen@ =~= acc.1);
        }
        j = j + 1;
    }
    assert(trs.take(expansions@.len() as int) =~= trs);
}

/// Explore the search space of transformations using layered BFS with
/// optional beam pruning.
///
/// Strategy:
/// - Start from the input itself (depth 0) and score it.
/// - For each depth:
///   - Optionally beam-prune the current layer by score.
///   - Record the nodes in the results.
///   - If not at max depth, expand each node through the decoder engine.
///   - Compute scores of children, apply dedup if enabled, and form the next layer.
/// - Return all seen nodes, sorted by descending score.
pub fn explore(engine: &DecoderEngine, scorer: &ScoringEngine, input: &str, cfg: SearchConfig) -> (r: Vec<Chain>)
    ensures
        r.deep_view() == explored(engine.decoders(), scorer.scorers(), input@, cfg),
{
    let ghost ds = engine.decoders();
    let ghost sc = scorer.scorers();
    let mut results: Vec<Chain> = Vec::new();
    let mut seen = StringHashSet::new();

    // Seed layer (depth 0)
    let (cat, score) = rate(scorer, input);
    let first = Chain { text: input.to_string(), steps: Vec::new(), score, detected_as: cat };
    assert(first.steps.deep_view() =~= Seq::<StepView>::empty());
    assert(first@ == seed(sc, input@));
    let start = vec![first];
    assert(start.deep_view() =~= seq![seed(sc, input@)]);
    if cfg.dedup_on_text {
        seen.insert(input.to_string());
        assert(seen@ =~= set![input@]);
    }
    let mut current = prune_layer(start, cfg.beam_width);
    let mut depth: usize = 0;
    loop
        invariant_except_break
            depth == 0 ==> results.deep_view() == Seq::<ChainView>::empty(),
            depth > 0 ==> results.deep_view() == recorded(ds, sc, input@, cfg, (depth - 1) as nat),
        invariant
            depth <= cfg.max_depth,
            (current.deep_view(), seen@) == layer_at(ds, sc, input@, cfg, depth as nat),
            ds == engine.decoders(),
            sc == scorer.scorers(),
        ensures
            results.deep_view() == recorded(ds, sc, input@, cfg, cfg.max_depth as nat),
        decreases cfg.max_depth - depth,
    {
        // Record this layer's nodes as results
        let ghost before = results.deep_view();
        let mut i: usize = 0;
        while i < current.len()
            invariant
                i <= current@.len(),
                results.deep_view() =~= before + current.deep_view().take(i as int),
            decreases current@.len() - i,
        {
            let ghost pre = results.deep_view();
            results.push(current[i].duplicate());
            assert(results.deep_view() =~= pre.push(current.deep_view()[i as int]));
            i = i + 1;
        }
        assert(current.deep_view().take(current@.len() as int) =~= current.deep_view());
        assert(results.deep_view() == recorded(ds, sc, input@, cfg, depth as nat)) by {
            if depth == 0 {
                assert(before + current.deep_view() =~= current.deep_view());
            }
        }

        // Stop expanding at the maximum depth
        if depth == cfg.max_depth {
            break;
        }

        // Expand to next layer
        let mut next: Vec<Chain> = Vec::new();
        let ghost layer = current.deep_view();
        let ghost seen0 = seen@;
        let mut n: usize = 0;
        while n < current.len()
            invariant
                n <= current@.len(),
                layer == current.deep_view(),
                ds == engine.decoders(),
                sc == scorer.scorers(),
                (next.deep_view(), seen@) == expand_layer(
                    ds,
                    sc,
                    cfg.dedup_on_text,
                    layer.take(n as int),
                    (seq![], seen0),
                ),
            decreases current@.len() - n,
        {
            assert(layer.take(n + 1).drop_last() =~= layer.take(n as int));
            add_node_children(engine, scorer, cfg.dedup_on_text, &current[n], &mut next, &mut seen);
            n = n + 1;
        }
        assert(layer.take(current@.len() as int) =~= layer);
        current = prune_layer(next, cfg.beam_width);
        depth = depth + 1;
    }

    // Return all candidates, highest score first
    sorted_by_score(&results)
}

} // verus!
