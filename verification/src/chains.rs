//! What holds of the chains that the search returns: how they are ordered,
//! how they were reached, and how the beam and the deduplication shape them.
use vstd::prelude::*;
use crate::decoders::{names_its_steps, BuiltinDecoder};
use crate::engine::{expansion, lemma_expansion_source, may_follow, Decoder, StepView, TransformView};
use crate::scorer::BuiltinScorer;
use crate::search::{
    add_child, add_children, expand_layer, explored, layer_at, prune, rated, recorded, scores_of,
    seed, sort_by_score, ChainView, Frontier, SearchConfig,
};
use crate::sort::{desc_order, lemma_desc_order, precedes};

verus! {

/// Whether `texts` is a decoding path from `input` by `steps`: it starts at
/// the input, and each step, with the text after it, is one of the outputs
/// that the decoders give for the text before it, after the steps before it.
pub open spec fn is_path(
    decoders: Seq<BuiltinDecoder>,
    input: Seq<char>,
    steps: Seq<StepView>,
    texts: Seq<Seq<char>>,
) -> bool {
    &&& texts.len() == steps.len() + 1
    &&& texts[0] == input
    &&& forall|i: int|
        0 <= i < steps.len() ==> expansion(decoders, texts[i], steps.take(i)).contains(
            (texts[i + 1], #[trigger] steps[i]),
        )
}

/// Whether `text` is reached from `input` by applying `steps` in turn.
pub open spec fn reaches(
    decoders: Seq<BuiltinDecoder>,
    input: Seq<char>,
    steps: Seq<StepView>,
    text: Seq<char>,
) -> bool {
    exists|texts: Seq<Seq<char>>|
        #[trigger] is_path(decoders, input, steps, texts) && texts.last() == text
}

/// Whether some decoder with this identifier may be applied twice in a row.
pub open spec fn repeatable(decoders: Seq<BuiltinDecoder>, id: Seq<char>) -> bool {
    exists|j: int|
        0 <= j < decoders.len() && (#[trigger] decoders[j]).spec_id() == id
            && !decoders[j].spec_policy().no_consecutive_same_op
}

/// Whether a step repeats the one before it only for a decoder that allows it.
pub open spec fn respects_policies(decoders: Seq<BuiltinDecoder>, steps: Seq<StepView>) -> bool {
    forall|i: int|
        1 <= i < steps.len() && (#[trigger] steps[i]).0 == steps[i - 1].0 ==> repeatable(
            decoders,
            steps[i].0,
        )
}

/// Whether every decoder of the list records its outputs under its own
/// identifier, as every built-in decoder does.
pub open spec fn all_name_steps(decoders: Seq<BuiltinDecoder>) -> bool {
    forall|j: int| 0 <= j < decoders.len() ==> names_its_steps(#[trigger] decoders[j])
}

/// Whether a node of depth `d` is what the search builds: rated, `d` steps
/// long, reached from the input, and within the decoders' policies.
pub open spec fn node_ok(
    decoders: Seq<BuiltinDecoder>,
    scorers: Seq<BuiltinScorer>,
    input: Seq<char>,
    c: ChainView,
    d: nat,
) -> bool {
    &&& c == rated(scorers, c.text, c.steps)
    &&& c.steps.len() == d
    &&& reaches(decoders, input, c.steps, c.text)
    &&& respects_policies(decoders, c.steps)
}

/// Whether every node of `s` is a node of depth `d`.
pub open spec fn all_ok(
    decoders: Seq<BuiltinDecoder>,
    scorers: Seq<BuiltinScorer>,
    input: Seq<char>,
    s: Seq<ChainView>,
    d: nat,
) -> bool {
    forall|i: int| 0 <= i < s.len() ==> node_ok(decoders, scorers, input, #[trigger] s[i], d)
}

/// Whether `out` holds nodes of `src` at distinct positions: `out[j]` is
/// `src[q[j]]`.
pub open spec fn selects(out: Seq<ChainView>, src: Seq<ChainView>, q: Seq<int>) -> bool {
    &&& q.len() == out.len()
    &&& forall|j: int| 0 <= j < q.len() ==> 0 <= #[trigger] q[j] < src.len() && out[j] == src[q[j]]
    &&& forall|a: int, b: int| 0 <= a < q.len() && 0 <= b < q.len() && a != b ==> #[trigger] q[a] != #[trigger] q[b]
}

/// Whether no two nodes of `s` hold the same text.
pub open spec fn distinct_texts(s: Seq<ChainView>) -> bool {
    forall|a: int, b: int|
        0 <= a < s.len() && 0 <= b < s.len() && a != b ==> (#[trigger] s[a]).text != (#[trigger] s[b]).text
}

/// Sorting by score reorders a layer: it holds every node once, and the
/// scores do not increase along it.
pub proof fn lemma_sort_by_score(layer: Seq<ChainView>)
    ensures
        sort_by_score(layer).len() == layer.len(),
        selects(sort_by_score(layer), layer, desc_order(scores_of(layer), layer.len())),
        forall|i: int|
            0 <= i < layer.len() ==> exists|j: int|
                0 <= j < layer.len() && #[trigger] sort_by_score(layer)[j] == #[trigger] layer[i],
        forall|a: int, b: int|
            0 <= a < b < layer.len() ==> (#[trigger] sort_by_score(layer)[a]).score >= (
            #[trigger] sort_by_score(layer)[b]).score,
{
    let keys = scores_of(layer);
    let p = desc_order(keys, layer.len());
    lemma_desc_order(keys, layer.len());
    let s = sort_by_score(layer);
    assert forall|a: int, b: int| 0 <= a < p.len() && 0 <= b < p.len() && a != b implies #[trigger] p[a]
        != #[trigger] p[b] by {
        if a < b {
            assert(precedes(keys, p[a], p[b]));
        } else {
            assert(precedes(keys, p[b], p[a]));
        }
    }
    assert forall|i: int| 0 <= i < layer.len() implies exists|j: int|
        0 <= j < layer.len() && #[trigger] s[j] == #[trigger] layer[i] by {
        assert(p.contains(i));
        let j = choose|j: int| 0 <= j < p.len() && p[j] == i;
        assert(s[j] == layer[i]);
    }
    assert forall|a: int, b: int| 0 <= a < b < layer.len() implies (#[trigger] s[a]).score >= (
    #[trigger] s[b]).score by {
        assert(precedes(keys, p[a], p[b]));
    }
}

/// The beam keeps nodes of the layer, each at most once.
pub proof fn lemma_prune_selects(layer: Seq<ChainView>, beam_width: Option<usize>)
    ensures
        exists|q: Seq<int>| #[trigger] selects(prune(layer, beam_width), layer, q),
{
    match beam_width {
        None => {
            let q = Seq::new(layer.len(), |i: int| i);
            assert(selects(prune(layer, beam_width), layer, q));
        },
        Some(k) => {
            lemma_sort_by_score(layer);
            let p = desc_order(scores_of(layer), layer.len());
            let s = sort_by_score(layer);
            if s.len() > k {
                let q = p.take(k as int);
                assert(selects(prune(layer, beam_width), layer, q));
            } else {
                assert(selects(prune(layer, beam_width), layer, p));
            }
        },
    }
}

/// A child of a node reached from the input is reached from the input, and
/// keeps within the decoders' policies.
proof fn lemma_child_ok(
    decoders: Seq<BuiltinDecoder>,
    scorers: Seq<BuiltinScorer>,
    input: Seq<char>,
    node: ChainView,
    tr: TransformView,
    d: nat,
)
    requires
        all_name_steps(decoders),
        node_ok(decoders, scorers, input, node, d),
        expansion(decoders, node.text, node.steps).contains(tr),
    ensures
        node_ok(decoders, scorers, input, rated(scorers, tr.0, node.steps.push(tr.1)), d + 1),
{
    let steps = node.steps.push(tr.1);
    let texts = choose|texts: Seq<Seq<char>>|
        #[trigger] is_path(decoders, input, node.steps, texts) && texts.last() == node.text;
    let texts2 = texts.push(tr.0);
    assert forall|i: int| 0 <= i < steps.len() implies expansion(
        decoders,
        texts2[i],
        steps.take(i),
    ).contains((texts2[i + 1], #[trigger] steps[i])) by {
        if i < d {
            assert(steps[i] == node.steps[i]);
            assert(steps.take(i) =~= node.steps.take(i));
        } else {
            assert(steps.take(i) =~= node.steps);
            assert((tr.0, tr.1) == tr);
        }
    }
    assert(is_path(decoders, input, steps, texts2));
    assert forall|i: int|
        1 <= i < steps.len() && (#[trigger] steps[i]).0 == steps[i - 1].0 implies repeatable(
        decoders,
        steps[i].0,
    ) by {
        if i < d {
            assert(steps[i] == node.steps[i] && steps[i - 1] == node.steps[i - 1]);
        } else {
            lemma_expansion_source(decoders, node.text, node.steps, tr);
            let j = choose|j: int|
                0 <= j < decoders.len() && may_follow(
                    decoders[j].spec_policy(),
                    decoders[j].spec_id(),
                    node.steps,
                ) && (#[trigger] decoders[j].spec_apply(node.text)).contains(tr);
            let outs = decoders[j].spec_apply(node.text);
            let k = choose|k: int| 0 <= k < outs.len() && outs[k] == tr;
            assert(names_its_steps(decoders[j]));
            assert(outs[k].1.0 == decoders[j].spec_id());
            assert(steps[i - 1] == node.steps.last());
        }
    }
}

proof fn lemma_add_children_ok(
    decoders: Seq<BuiltinDecoder>,
    scorers: Seq<BuiltinScorer>,
    input: Seq<char>,
    dedup: bool,
    node: ChainView,
    trs: Seq<TransformView>,
    acc: Frontier,
    d: nat,
)
    requires
        all_name_steps(decoders),
        node_ok(decoders, scorers, input, node, d),
        forall|k: int| 0 <= k < trs.len() ==> expansion(decoders, node.text, node.steps).contains(#[trigger] trs[k]),
        all_ok(decoders, scorers, input, acc.0, d + 1),
    ensures
        all_ok(decoders, scorers, input, add_children(scorers, dedup, node, trs, acc).0, d + 1),
    decreases trs.len(),
{
    if trs.len() > 0 {
        let rest = trs.drop_last();
        assert forall|k: int| 0 <= k < rest.len() implies expansion(decoders, node.text, node.steps).contains(
            #[trigger] rest[k],
        ) by {
            assert(rest[k] == trs[k]);
        }
        lemma_add_children_ok(decoders, scorers, input, dedup, node, rest, acc, d);
        let mid = add_children(scorers, dedup, node, rest, acc);
        let tr = trs.last();
        assert(expansion(decoders, node.text, node.steps).contains(trs[trs.len() - 1]));
        lemma_child_ok(decoders, scorers, input, node, tr, d);
        let out = add_child(scorers, dedup, node, mid, tr);
        assert forall|i: int| 0 <= i < out.0.len() implies node_ok(
            decoders,
            scorers,
            input,
            #[trigger] out.0[i],
            d + 1,
        ) by {
            if i < mid.0.len() {
                assert(out.0[i] == mid.0[i]);
            }
        }
    }
}

proof fn lemma_expand_layer_ok(
    decoders: Seq<BuiltinDecoder>,
    scorers: Seq<BuiltinScorer>,
    input: Seq<char>,
    dedup: bool,
    layer: Seq<ChainView>,
    acc: Frontier,
    d: nat,
)
    requires
        all_name_steps(decoders),
        all_ok(decoders, scorers, input, layer, d),
        all_ok(decoders, scorers, input, acc.0, d + 1),
    ensures
        all_ok(decoders, scorers, input, expand_layer(decoders, scorers, dedup, layer, acc).0, d + 1),
    decreases layer.len(),
{
    if layer.len() > 0 {
        let rest = layer.drop_last();
        assert forall|i: int| 0 <= i < rest.len() implies node_ok(
            decoders,
            scorers,
            input,
            #[trigger] rest[i],
            d,
        ) by {
            assert(rest[i] == layer[i]);
        }
        lemma_expand_layer_ok(decoders, scorers, input, dedup, rest, acc, d);
        let node = layer.last();
        assert(node_ok(decoders, scorers, input, layer[layer.len() - 1], d));
        let trs = expansion(decoders, node.text, node.steps);
        assert forall|k: int| 0 <= k < trs.len() implies trs.contains(#[trigger] trs[k]) by {}
        lemma_add_children_ok(
            decoders,
            scorers,
            input,
            dedup,
            node,
            trs,
            expand_layer(decoders, scorers, dedup, rest, acc),
            d,
        );
    }
}

proof fn lemma_selects_ok(
    decoders: Seq<BuiltinDecoder>,
    scorers: Seq<BuiltinScorer>,
    input: Seq<char>,
    out: Seq<ChainView>,
    src: Seq<ChainView>,
    q: Seq<int>,
    d: nat,
)
    requires
        selects(out, src, q),
        all_ok(decoders, scorers, input, src, d),
    ensures
        all_ok(decoders, scorers, input, out, d),
{
    assert forall|j: int| 0 <= j < out.len() implies node_ok(decoders, scorers, input, #[trigger] out[j], d) by {
        assert(out[j] == src[q[j]]);
    }
}

proof fn lemma_layer_at_ok(
    decoders: Seq<BuiltinDecoder>,
    scorers: Seq<BuiltinScorer>,
    input: Seq<char>,
    cfg: SearchConfig,
    d: nat,
)
    requires
        all_name_steps(decoders),
    ensures
        all_ok(decoders, scorers, input, layer_at(decoders, scorers, input, cfg, d).0, d),
    decreases d,
{
    if d == 0 {
        let start = seq![seed(scorers, input)];
        assert(is_path(decoders, input, seq![], seq![input]));
        assert(reaches(decoders, input, seq![], input));
        assert(all_ok(decoders, scorers, input, start, 0));
        lemma_prune_selects(start, cfg.beam_width);
        let q = choose|q: Seq<int>| selects(prune(start, cfg.beam_width), start, q);
        lemma_selects_ok(decoders, scorers, input, prune(start, cfg.beam_width), start, q, 0);
    } else {
        let prev = layer_at(decoders, scorers, input, cfg, (d - 1) as nat);
        lemma_layer_at_ok(decoders, scorers, input, cfg, (d - 1) as nat);
        let next = expand_layer(decoders, scorers, cfg.dedup_on_text, prev.0, (seq![], prev.1));
        lemma_expand_layer_ok(
            decoders,
            scorers,
            input,
            cfg.dedup_on_text,
            prev.0,
            (seq![], prev.1),
            (d - 1) as nat,
        );
        lemma_prune_selects(next.0, cfg.beam_width);
        let q = choose|q: Seq<int>| selects(prune(next.0, cfg.beam_width), next.0, q);
        lemma_selects_ok(decoders, scorers, input, prune(next.0, cfg.beam_width), next.0, q, d);
    }
}

/// Whether a node is one the search builds at some depth up to `depth`.
pub open spec fn chain_ok(
    decoders: Seq<BuiltinDecoder>,
    scorers: Seq<BuiltinScorer>,
    input: Seq<char>,
    c: ChainView,
    depth: nat,
) -> bool {
    &&& c == rated(scorers, c.text, c.steps)
    &&& c.steps.len() <= depth
    &&& reaches(decoders, input, c.steps, c.text)
    &&& respects_policies(decoders, c.steps)
}

proof fn lemma_recorded_ok(
    decoders: Seq<BuiltinDecoder>,
    scorers: Seq<BuiltinScorer>,
    input: Seq<char>,
    cfg: SearchConfig,
    d: nat,
)
    requires
        all_name_steps(decoders),
    ensures
        forall|i: int|
            0 <= i < recorded(decoders, scorers, input, cfg, d).len() ==> chain_ok(
                decoders,
                scorers,
                input,
                #[trigger] recorded(decoders, scorers, input, cfg, d)[i],
                d,
            ),
    decreases d,
{
    lemma_layer_at_ok(decoders, scorers, input, cfg, d);
    let layer = layer_at(decoders, scorers, input, cfg, d).0;
    if d == 0 {
        assert forall|i: int| 0 <= i < layer.len() implies chain_ok(
            decoders,
            scorers,
            input,
            #[trigger] layer[i],
            d,
        ) by {
            assert(node_ok(decoders, scorers, input, layer[i], d));
        }
    } else {
        lemma_recorded_ok(decoders, scorers, input, cfg, (d - 1) as nat);
        let prev = recorded(decoders, scorers, input, cfg, (d - 1) as nat);
        let all = recorded(decoders, scorers, input, cfg, d);
        assert(all == prev + layer);
        assert forall|i: int| 0 <= i < all.len() implies chain_ok(
            decoders,
            scorers,
            input,
            #[trigger] all[i],
            d,
        ) by {
            if i < prev.len() {
                assert(all[i] == prev[i]);
                assert(chain_ok(decoders, scorers, input, prev[i], (d - 1) as nat));
            } else {
                assert(all[i] == layer[i - prev.len()]);
                assert(node_ok(decoders, scorers, input, layer[i - prev.len()], d));
            }
        }
    }
}

/// Every chain that the search returns is a genuine decoding of the input:
/// its text is reached from the input by its steps, its score and category
/// are those the scoring engine gives its text, it has at most `max_depth`
/// steps, and no decoder that forbids it follows itself (for decoders that
/// record their outputs under their own identifier, as every built-in
/// decoder does).
pub proof fn lemma_explored_chains_valid(
    decoders: Seq<BuiltinDecoder>,
    scorers: Seq<BuiltinScorer>,
    input: Seq<char>,
    cfg: SearchConfig,
)
    requires
        all_name_steps(decoders),
    ensures
        forall|j: int|
            0 <= j < explored(decoders, scorers, input, cfg).len() ==> chain_ok(
                decoders,
                scorers,
                input,
                #[trigger] explored(decoders, scorers, input, cfg)[j],
                cfg.max_depth as nat,
            ),
{
    let all = recorded(decoders, scorers, input, cfg, cfg.max_depth as nat);
    lemma_recorded_ok(decoders, scorers, input, cfg, cfg.max_depth as nat);
    lemma_sort_by_score(all);
    let p = desc_order(scores_of(all), all.len());
    let out = explored(decoders, scorers, input, cfg);
    assert forall|j: int| 0 <= j < out.len() implies chain_ok(
        decoders,
        scorers,
        input,
        #[trigger] out[j],
        cfg.max_depth as nat,
    ) by {
        assert(out[j] == all[p[j]]);
    }
}

/// The search returns every node it recorded, each once, highest score
/// first: the result is a reordering of the recorded nodes with scores that
/// do not increase.
pub proof fn lemma_explored_sorted(
    decoders: Seq<BuiltinDecoder>,
    scorers: Seq<BuiltinScorer>,
    input: Seq<char>,
    cfg: SearchConfig,
)
    ensures
        ({
            let out = explored(decoders, scorers, input, cfg);
            let all = recorded(decoders, scorers, input, cfg, cfg.max_depth as nat);
            &&& out.len() == all.len()
            &&& forall|a: int, b: int| 0 <= a < b < out.len() ==> (#[trigger] out[a]).score >= (#[trigger] out[b]).score
            &&& forall|i: int| 0 <= i < all.len() ==> exists|j: int| 0 <= j < out.len() && #[trigger] out[j] == #[trigger] all[i]
            &&& exists|q: Seq<int>| #[trigger] selects(out, all, q)
        }),
{
    let all = recorded(decoders, scorers, input, cfg, cfg.max_depth as nat);
    lemma_sort_by_score(all);
    let out = explored(decoders, scorers, input, cfg);
    assert(selects(out, all, desc_order(scores_of(all), all.len())));
    assert forall|i: int| 0 <= i < all.len() implies exists|j: int|
        0 <= j < out.len() && #[trigger] out[j] == #[trigger] all[i] by {
        let j = choose|j: int| 0 <= j < all.len() && #[trigger] sort_by_score(all)[j] == all[i];
        assert(out[j] == all[i]);
    }
}

/// Among results with equal scores, the one recorded first comes first: the
/// `j`-th result is the recorded node at position `p[j]`, and equal scores
/// keep the positions in increasing order.
pub proof fn lemma_explored_ties_keep_order(
    decoders: Seq<BuiltinDecoder>,
    scorers: Seq<BuiltinScorer>,
    input: Seq<char>,
    cfg: SearchConfig,
)
    ensures
        ({
            let out = explored(decoders, scorers, input, cfg);
            let all = recorded(decoders, scorers, input, cfg, cfg.max_depth as nat);
            let p = desc_order(scores_of(all), all.len());
            &&& forall|j: int| 0 <= j < out.len() ==> #[trigger] out[j] == all[p[j]]
            &&& forall|a: int, b: int|
                0 <= a < b < out.len() && (#[trigger] out[a]).score == (#[trigger] out[b]).score
                    ==> p[a] < p[b]
        }),
{
    let all = recorded(decoders, scorers, input, cfg, cfg.max_depth as nat);
    let keys = scores_of(all);
    let p = desc_order(keys, all.len());
    lemma_desc_order(keys, all.len());
    let out = explored(decoders, scorers, input, cfg);
    assert forall|a: int, b: int|
        0 <= a < b < out.len() && (#[trigger] out[a]).score == (#[trigger] out[b]).score implies p[a]
        < p[b] by {
        assert(precedes(keys, p[a], p[b]));
    }
}

/// Whether every node of `s` has `d` steps.
pub open spec fn all_depth(s: Seq<ChainView>, d: nat) -> bool {
    forall|i: int| 0 <= i < s.len() ==> (#[trigger] s[i]).steps.len() == d
}

proof fn lemma_add_children_depth(
    scorers: Seq<BuiltinScorer>,
    dedup: bool,
    node: ChainView,
    trs: Seq<TransformView>,
    acc: Frontier,
    d: nat,
)
    requires
        node.steps.len() == d,
        all_depth(acc.0, d + 1),
    ensures
        all_depth(add_children(scorers, dedup, node, trs, acc).0, d + 1),
    decreases trs.len(),
{
    if trs.len() > 0 {
        lemma_add_children_depth(scorers, dedup, node, trs.drop_last(), acc, d);
        let mid = add_children(scorers, dedup, node, trs.drop_last(), acc);
        let out = add_child(scorers, dedup, node, mid, trs.last());
        assert forall|i: int| 0 <= i < out.0.len() implies (#[trigger] out.0[i]).steps.len() == d + 1 by {
            if i < mid.0.len() {
                assert(out.0[i] == mid.0[i]);
            }
        }
    }
}

proof fn lemma_expand_layer_depth(
    decoders: Seq<BuiltinDecoder>,
    scorers: Seq<BuiltinScorer>,
    dedup: bool,
    layer: Seq<ChainView>,
    acc: Frontier,
    d: nat,
)
    requires
        all_depth(layer, d),
        all_depth(acc.0, d + 1),
    ensures
        all_depth(expand_layer(decoders, scorers, dedup, layer, acc).0, d + 1),
    decreases layer.len(),
{
    if layer.len() > 0 {
        let rest = layer.drop_last();
        assert forall|i: int| 0 <= i < rest.len() implies (#[trigger] rest[i]).steps.len() == d by {
            assert(rest[i] == layer[i]);
        }
        lemma_expand_layer_depth(decoders, scorers, dedup, rest, acc, d);
        let node = layer.last();
        assert(layer[layer.len() - 1].steps.len() == d);
        lemma_add_children_depth(
            scorers,
            dedup,
            node,
            expansion(decoders, node.text, node.steps),
            expand_layer(decoders, scorers, dedup, rest, acc),
            d,
        );
    }
}

proof fn lemma_layer_depth(
    decoders: Seq<BuiltinDecoder>,
    scorers: Seq<BuiltinScorer>,
    input: Seq<char>,
    cfg: SearchConfig,
    d: nat,
)
    ensures
        all_depth(layer_at(decoders, scorers, input, cfg, d).0, d),
        d == 0 ==> layer_at(decoders, scorers, input, cfg, d).0.len() <= 1,
        d == 0 ==> forall|i: int|
            0 <= i < layer_at(decoders, scorers, input, cfg, d).0.len() ==> #[trigger] layer_at(
                decoders,
                scorers,
                input,
                cfg,
                d,
            ).0[i] == seed(scorers, input),
    decreases d,
{
    let src = if d == 0 {
        seq![seed(scorers, input)]
    } else {
        let prev = layer_at(decoders, scorers, input, cfg, (d - 1) as nat);
        expand_layer(decoders, scorers, cfg.dedup_on_text, prev.0, (seq![], prev.1)).0
    };
    if d == 0 {
        assert(all_depth(src, 0));
    } else {
        lemma_layer_depth(decoders, scorers, input, cfg, (d - 1) as nat);
        let prev = layer_at(decoders, scorers, input, cfg, (d - 1) as nat);
        assert(all_depth(seq![], d));
        lemma_expand_layer_depth(decoders, scorers, cfg.dedup_on_text, prev.0, (seq![], prev.1), (d - 1) as nat);
    }
    let layer = prune(src, cfg.beam_width);
    assert(layer_at(decoders, scorers, input, cfg, d).0 == layer);
    lemma_prune_selects(src, cfg.beam_width);
    let q = choose|q: Seq<int>| #[trigger] selects(layer, src, q);
    assert forall|i: int| 0 <= i < layer.len() implies (#[trigger] layer[i]).steps.len() == d by {
        assert(layer[i] == src[q[i]]);
    }
    if d == 0 {
        assert forall|i: int| 0 <= i < layer.len() implies #[trigger] layer[i] == seed(scorers, input) by {
            assert(layer[i] == src[q[i]]);
        }
        if layer.len() > 1 {
            assert(q[0] == 0 && q[1] == 0);
        }
    }
}

proof fn lemma_recorded_roots(
    decoders: Seq<BuiltinDecoder>,
    scorers: Seq<BuiltinScorer>,
    input: Seq<char>,
    cfg: SearchConfig,
    d: nat,
)
    ensures
        ({
            let first = layer_at(decoders, scorers, input, cfg, 0).0;
            let all = recorded(decoders, scorers, input, cfg, d);
            &&& first.len() <= 1
            &&& all.len() >= first.len()
            &&& forall|i: int| 0 <= i < first.len() ==> #[trigger] all[i] == seed(scorers, input)
            &&& forall|i: int| first.len() <= i < all.len() ==> (#[trigger] all[i]).steps.len() >= 1
        }),
    decreases d,
{
    lemma_layer_depth(decoders, scorers, input, cfg, 0);
    let first = layer_at(decoders, scorers, input, cfg, 0).0;
    if d > 0 {
        lemma_recorded_roots(decoders, scorers, input, cfg, (d - 1) as nat);
        lemma_layer_depth(decoders, scorers, input, cfg, d);
        let prev = recorded(decoders, scorers, input, cfg, (d - 1) as nat);
        let layer = layer_at(decoders, scorers, input, cfg, d).0;
        let all = recorded(decoders, scorers, input, cfg, d);
        assert(all == prev + layer);
        assert forall|i: int| 0 <= i < first.len() implies #[trigger] all[i] == seed(scorers, input) by {
            assert(all[i] == prev[i]);
        }
        assert forall|i: int| first.len() <= i < all.len() implies (#[trigger] all[i]).steps.len() >= 1 by {
            if i < prev.len() {
                assert(all[i] == prev[i]);
            } else {
                assert(all[i] == layer[i - prev.len()]);
            }
        }
    }
}

/// The search has one root: at most one result has no steps, and such a
/// result is the rated input.
pub proof fn lemma_explored_one_root(
    decoders: Seq<BuiltinDecoder>,
    scorers: Seq<BuiltinScorer>,
    input: Seq<char>,
    cfg: SearchConfig,
)
    ensures
        ({
            let out = explored(decoders, scorers, input, cfg);
            &&& forall|j: int| 0 <= j < out.len() && (#[trigger] out[j]).steps.len() == 0 ==> out[j] == seed(scorers, input)
            &&& forall|a: int, b: int|
                0 <= a < out.len() && 0 <= b < out.len() && a != b && (#[trigger] out[a]).steps.len() == 0
                    ==> (#[trigger] out[b]).steps.len() > 0
        }),
{
    let all = recorded(decoders, scorers, input, cfg, cfg.max_depth as nat);
    lemma_recorded_roots(decoders, scorers, input, cfg, cfg.max_depth as nat);
    lemma_sort_by_score(all);
    let p = desc_order(scores_of(all), all.len());
    let out = explored(decoders, scorers, input, cfg);
    let first = layer_at(decoders, scorers, input, cfg, 0).0;
    assert forall|j: int| 0 <= j < out.len() && (#[trigger] out[j]).steps.len() == 0 implies out[j] == seed(scorers, input) by {
        assert(out[j] == all[p[j]]);
    }
    assert forall|a: int, b: int|
        0 <= a < out.len() && 0 <= b < out.len() && a != b && (#[trigger] out[a]).steps.len() == 0
        implies (#[trigger] out[b]).steps.len() > 0 by {
        assert(out[a] == all[p[a]] && out[b] == all[p[b]]);
        assert(p[a] != p[b]);
    }
}

/// The input itself, rated and with no steps, is among the results unless
/// the beam width is zero.
pub proof fn lemma_explored_has_input(
    decoders: Seq<BuiltinDecoder>,
    scorers: Seq<BuiltinScorer>,
    input: Seq<char>,
    cfg: SearchConfig,
)
    requires
        cfg.beam_width != Some(0usize),
    ensures
        explored(decoders, scorers, input, cfg).contains(seed(scorers, input)),
{
    let start = seq![seed(scorers, input)];
    lemma_sort_by_score(start);
    assert(sort_by_score(start)[0] == seed(scorers, input));
    let first = layer_at(decoders, scorers, input, cfg, 0).0;
    assert(first.len() == 1 && first[0] == seed(scorers, input));
    lemma_recorded_prefix(decoders, scorers, input, cfg, cfg.max_depth as nat);
    let all = recorded(decoders, scorers, input, cfg, cfg.max_depth as nat);
    assert(all[0] == seed(scorers, input));
    lemma_sort_by_score(all);
    let j = choose|j: int| 0 <= j < all.len() && #[trigger] sort_by_score(all)[j] == all[0];
    assert(explored(decoders, scorers, input, cfg)[j] == seed(scorers, input));
}

proof fn lemma_recorded_prefix(
    decoders: Seq<BuiltinDecoder>,
    scorers: Seq<BuiltinScorer>,
    input: Seq<char>,
    cfg: SearchConfig,
    d: nat,
)
    ensures
        ({
            let first = layer_at(decoders, scorers, input, cfg, 0).0;
            let all = recorded(decoders, scorers, input, cfg, d);
            &&& all.len() >= first.len()
            &&& forall|i: int| 0 <= i < first.len() ==> #[trigger] all[i] == first[i]
        }),
    decreases d,
{
    if d > 0 {
        lemma_recorded_prefix(decoders, scorers, input, cfg, (d - 1) as nat);
        let prev = recorded(decoders, scorers, input, cfg, (d - 1) as nat);
        let all = recorded(decoders, scorers, input, cfg, d);
        let first = layer_at(decoders, scorers, input, cfg, 0).0;
        assert forall|i: int| 0 <= i < first.len() implies #[trigger] all[i] == first[i] by {
            assert(all[i] == prev[i]);
        }
    }
}

/// With a beam width `k`, every layer holds at most `k` nodes, so the search
/// returns at most `(max_depth + 1) * k` chains.
pub proof fn lemma_beam_bounds_results(
    decoders: Seq<BuiltinDecoder>,
    scorers: Seq<BuiltinScorer>,
    input: Seq<char>,
    cfg: SearchConfig,
    k: usize,
)
    requires
        cfg.beam_width == Some(k),
    ensures
        forall|d: nat| #[trigger] layer_at(decoders, scorers, input, cfg, d).0.len() <= k,
        explored(decoders, scorers, input, cfg).len() <= (cfg.max_depth + 1) * k,
{
    assert forall|d: nat| #[trigger] layer_at(decoders, scorers, input, cfg, d).0.len() <= k by {
        lemma_layer_bounded(decoders, scorers, input, cfg, k, d);
    }
    lemma_recorded_bounded(decoders, scorers, input, cfg, k, cfg.max_depth as nat);
    let all = recorded(decoders, scorers, input, cfg, cfg.max_depth as nat);
    lemma_sort_by_score(all);
}

proof fn lemma_layer_bounded(
    decoders: Seq<BuiltinDecoder>,
    scorers: Seq<BuiltinScorer>,
    input: Seq<char>,
    cfg: SearchConfig,
    k: usize,
    d: nat,
)
    requires
        cfg.beam_width == Some(k),
    ensures
        layer_at(decoders, scorers, input, cfg, d).0.len() <= k,
{
    let src = if d == 0 {
        seq![seed(scorers, input)]
    } else {
        let prev = layer_at(decoders, scorers, input, cfg, (d - 1) as nat);
        expand_layer(decoders, scorers, cfg.dedup_on_text, prev.0, (seq![], prev.1)).0
    };
    assert(layer_at(decoders, scorers, input, cfg, d).0 == prune(src, cfg.beam_width));
    lemma_sort_by_score(src);
}

proof fn lemma_recorded_bounded(
    decoders: Seq<BuiltinDecoder>,
    scorers: Seq<BuiltinScorer>,
    input: Seq<char>,
    cfg: SearchConfig,
    k: usize,
    d: nat,
)
    requires
        cfg.beam_width == Some(k),
    ensures
        recorded(decoders, scorers, input, cfg, d).len() <= (d + 1) * k,
    decreases d,
{
    lemma_layer_bounded(decoders, scorers, input, cfg, k, d);
    if d > 0 {
        let m = (d - 1) as nat;
        lemma_recorded_bounded(decoders, scorers, input, cfg, k, m);
        assert(m + 1 == d);
        assert(recorded(decoders, scorers, input, cfg, m).len() <= (m + 1) * k);
        assert(recorded(decoders, scorers, input, cfg, d).len() == recorded(
            decoders,
            scorers,
            input,
            cfg,
            m,
        ).len() + layer_at(decoders, scorers, input, cfg, d).0.len());
        assert((d + 1) * k == d * k + k) by (nonlinear_arith);
    } else {
        assert((d + 1) * k == k) by (nonlinear_arith)
            requires
                d == 0,
        ;
    }
}

/// The beam keeps the best nodes: every node it keeps scores at least as
/// high as every node of the sorted layer past the beam width.
pub proof fn lemma_beam_keeps_best(layer: Seq<ChainView>, k: usize)
    ensures
        ({
            let kept = prune(layer, Some(k));
            let s = sort_by_score(layer);
            &&& kept.len() == if layer.len() > k {
                k as int
            } else {
                layer.len() as int
            }
            &&& forall|a: int, b: int|
                0 <= a < kept.len() && kept.len() <= b < s.len() ==> (#[trigger] kept[a]).score
                    >= (#[trigger] s[b]).score
            &&& exists|q: Seq<int>| #[trigger] selects(kept, layer, q)
        }),
{
    lemma_sort_by_score(layer);
    lemma_prune_selects(layer, Some(k));
    let kept = prune(layer, Some(k));
    let s = sort_by_score(layer);
    assert forall|a: int, b: int|
        0 <= a < kept.len() && kept.len() <= b < s.len() implies (#[trigger] kept[a]).score
        >= (#[trigger] s[b]).score by {
        assert(kept[a] == s[a]);
    }
}

/// Whether the frontier holds only new texts: distinct, each recorded in its
/// seen set, none seen before, and nothing seen before forgotten.
pub open spec fn fresh(acc: Frontier, seen0: Set<Seq<char>>) -> bool {
    &&& distinct_texts(acc.0)
    &&& forall|i: int| 0 <= i < acc.0.len() ==> acc.1.contains((#[trigger] acc.0[i]).text) && !seen0.contains(
        acc.0[i].text,
    )
    &&& forall|t: Seq<char>| seen0.contains(t) ==> #[trigger] acc.1.contains(t)
}

proof fn lemma_add_children_fresh(
    scorers: Seq<BuiltinScorer>,
    node: ChainView,
    trs: Seq<TransformView>,
    acc: Frontier,
    seen0: Set<Seq<char>>,
)
    requires
        fresh(acc, seen0),
    ensures
        fresh(add_children(scorers, true, node, trs, acc), seen0),
    decreases trs.len(),
{
    if trs.len() > 0 {
        lemma_add_children_fresh(scorers, node, trs.drop_last(), acc, seen0);
        let mid = add_children(scorers, true, node, trs.drop_last(), acc);
        let tr = trs.last();
        let out = add_child(scorers, true, node, mid, tr);
        if !mid.1.contains(tr.0) {
            let n = mid.0.len() as int;
            assert forall|a: int, b: int|
                0 <= a < out.0.len() && 0 <= b < out.0.len() && a != b implies (#[trigger] out.0[a]).text
                != (#[trigger] out.0[b]).text by {
                if a < n && b < n {
                    assert(out.0[a] == mid.0[a] && out.0[b] == mid.0[b]);
                } else if a < n {
                    assert(out.0[a] == mid.0[a]);
                    assert(mid.1.contains(mid.0[a].text));
                } else if b < n {
                    assert(out.0[b] == mid.0[b]);
                    assert(mid.1.contains(mid.0[b].text));
                }
            }
            assert forall|i: int| 0 <= i < out.0.len() implies out.1.contains(
                (#[trigger] out.0[i]).text,
            ) && !seen0.contains(out.0[i].text) by {
                if i < n {
                    assert(out.0[i] == mid.0[i]);
                } else {
                    assert(out.0[i].text == tr.0);
                }
            }
        }
    }
}

proof fn lemma_expand_layer_fresh(
    decoders: Seq<BuiltinDecoder>,
    scorers: Seq<BuiltinScorer>,
    layer: Seq<ChainView>,
    acc: Frontier,
    seen0: Set<Seq<char>>,
)
    requires
        fresh(acc, seen0),
    ensures
        fresh(expand_layer(decoders, scorers, true, layer, acc), seen0),
    decreases layer.len(),
{
    if layer.len() > 0 {
        lemma_expand_layer_fresh(decoders, scorers, layer.drop_last(), acc, seen0);
        let node = layer.last();
        lemma_add_children_fresh(
            scorers,
            node,
            expansion(decoders, node.text, node.steps),
            expand_layer(decoders, scorers, true, layer.drop_last(), acc),
            seen0,
        );
    }
}

proof fn lemma_recorded_distinct(
    decoders: Seq<BuiltinDecoder>,
    scorers: Seq<BuiltinScorer>,
    input: Seq<char>,
    cfg: SearchConfig,
    d: nat,
)
    requires
        cfg.dedup_on_text,
    ensures
        distinct_texts(recorded(decoders, scorers, input, cfg, d)),
        forall|i: int|
            0 <= i < recorded(decoders, scorers, input, cfg, d).len() ==> layer_at(
                decoders,
                scorers,
                input,
                cfg,
                d,
            ).1.contains((#[trigger] recorded(decoders, scorers, input, cfg, d)[i]).text),
    decreases d,
{
    if d == 0 {
        let start = seq![seed(scorers, input)];
        lemma_prune_selects(start, cfg.beam_width);
        let first = prune(start, cfg.beam_width);
        let q = choose|q: Seq<int>| selects(first, start, q);
        assert forall|i: int| 0 <= i < first.len() implies #[trigger] first[i] == seed(scorers, input) by {
            assert(first[i] == start[q[i]]);
        }
        if first.len() > 1 {
            assert(q[0] == 0 && q[1] == 0);
        }
    } else {
        lemma_recorded_distinct(decoders, scorers, input, cfg, (d - 1) as nat);
        let prev_layer = layer_at(decoders, scorers, input, cfg, (d - 1) as nat);
        let seen0 = prev_layer.1;
        let prev = recorded(decoders, scorers, input, cfg, (d - 1) as nat);
        let next = expand_layer(decoders, scorers, true, prev_layer.0, (seq![], seen0));
        assert(fresh((seq![], seen0), seen0));
        lemma_expand_layer_fresh(decoders, scorers, prev_layer.0, (seq![], seen0), seen0);
        lemma_prune_selects(next.0, cfg.beam_width);
        let layer = prune(next.0, cfg.beam_width);
        let q = choose|q: Seq<int>| selects(layer, next.0, q);
        let all = recorded(decoders, scorers, input, cfg, d);
        assert(all == prev + layer);
        assert(layer_at(decoders, scorers, input, cfg, d).1 == next.1);
        assert forall|i: int| 0 <= i < layer.len() implies next.1.contains((#[trigger] layer[i]).text)
            && !seen0.contains(layer[i].text) by {
            assert(layer[i] == next.0[q[i]]);
        }
        assert forall|a: int, b: int|
            0 <= a < all.len() && 0 <= b < all.len() && a != b implies (#[trigger] all[a]).text
            != (#[trigger] all[b]).text by {
            let n = prev.len() as int;
            if a < n && b < n {
                assert(all[a] == prev[a] && all[b] == prev[b]);
            } else if a >= n && b >= n {
                assert(all[a] == layer[a - n] && all[b] == layer[b - n]);
                assert(layer[a - n] == next.0[q[a - n]] && layer[b - n] == next.0[q[b - n]]);
            } else if a < n {
                assert(all[a] == prev[a] && all[b] == layer[b - n]);
                assert(seen0.contains(prev[a].text));
            } else {
                assert(all[b] == prev[b] && all[a] == layer[a - n]);
                assert(seen0.contains(prev[b].text));
            }
        }
        assert forall|i: int| 0 <= i < all.len() implies next.1.contains((#[trigger] all[i]).text) by {
            let n = prev.len() as int;
            if i < n {
                assert(all[i] == prev[i]);
                assert(seen0.contains(prev[i].text));
            } else {
                assert(all[i] == layer[i - n]);
            }
        }
    }
}

/// With deduplication on text, no text is visited twice: no two chains that
/// the search returns hold the same text.
pub proof fn lemma_dedup_distinct_texts(
    decoders: Seq<BuiltinDecoder>,
    scorers: Seq<BuiltinScorer>,
    input: Seq<char>,
    cfg: SearchConfig,
)
    requires
        cfg.dedup_on_text,
    ensures
        distinct_texts(explored(decoders, scorers, input, cfg)),
{
    let all = recorded(decoders, scorers, input, cfg, cfg.max_depth as nat);
    lemma_recorded_distinct(decoders, scorers, input, cfg, cfg.max_depth as nat);
    lemma_sort_by_score(all);
    let p = desc_order(scores_of(all), all.len());
    let out = explored(decoders, scorers, input, cfg);
    assert forall|a: int, b: int|
        0 <= a < out.len() && 0 <= b < out.len() && a != b implies (#[trigger] out[a]).text
        != (#[trigger] out[b]).text by {
        assert(out[a] == all[p[a]] && out[b] == all[p[b]]);
    }
}

} // verus!
