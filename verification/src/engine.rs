//! Core decoding types: steps, results, policies, the `Decoder` trait and the
//! engine that applies a set of decoders.
use vstd::prelude::*;
use crate::decoders::BuiltinDecoder;

verus! {

/// A stable identifier for a decoder implementation.
pub type DecoderId = String;

/// A single transformation step that produced an output.
pub struct Step {
    /// Identifier of the decoder/operation, e.g., "caesar", "base64".
    pub op_id: DecoderId,
    /// Human-readable description, e.g., "Caesar shift 13".
    pub desc: String,
}

/// The abstract value of a step: its identifier and its description.
pub type StepView = (Seq<char>, Seq<char>);

/// The abstract value of a result: its output and the step.
pub type TransformView = (Seq<char>, StepView);

impl View for Step {
    type V = StepView;

    open spec fn view(&self) -> StepView {
        (self.op_id@, self.desc@)
    }
}

impl DeepView for Step {
    type V = StepView;

    open spec fn deep_view(&self) -> StepView {
        self@
    }
}

impl Step {
    /// A step of the decoder `op_id` described by `desc`.
    pub fn new(op_id: &str, desc: &Vec<char>) -> (s: Step)
        ensures
            s@ == (op_id@, desc@),
    {
        Step { op_id: op_id.to_string(), desc: crate::outside::string_from_chars(desc) }
    }

    /// A step of the decoder `op_id` described by `desc`.
    pub fn from_strs(op_id: &str, desc: &str) -> (s: Step)
        ensures
            s@ == (op_id@, desc@),
    {
        Step { op_id: op_id.to_string(), desc: desc.to_string() }
    }

    /// A step equal to this one.
    pub fn duplicate(&self) -> (s: Step)
        ensures
            s@ == self@,
    {
        Step { op_id: self.op_id.clone(), desc: self.desc.clone() }
    }

    /// The step as text, `"<op_id>: <desc>"`.
    pub fn to_text(&self) -> (s: String)
        ensures
            s@ == self.op_id@ + ": "@ + self.desc@,
    {
        let mut s = self.op_id.clone();
        s.append(": ");
        s.append(self.desc.as_str());
        s
    }
}

/// A decoder output paired with the step that produced it.
pub struct TransformResult {
    pub output: String,
    pub step: Step,
}

impl TransformResult {
    /// The result with the given output characters and step.
    pub fn from_chars(output: &Vec<char>, step: Step) -> (r: TransformResult)
        ensures
            r@ == (output@, step@),
    {
        TransformResult { output: crate::outside::string_from_chars(output), step }
    }
}

impl View for TransformResult {
    type V = TransformView;

    open spec fn view(&self) -> TransformView {
        (self.output@, self.step@)
    }
}

impl DeepView for TransformResult {
    type V = TransformView;

    open spec fn deep_view(&self) -> TransformView {
        self@
    }
}

/// Policy that controls whether a decoder may follow a prior sequence of steps.
#[derive(Clone, Copy, Debug)]
pub struct Policy {
    /// Forbid applying the exact same decoder right after itself.
    pub no_consecutive_same_op: bool,
}

impl Default for Policy {
    fn default() -> (p: Self)
        ensures
            p.no_consecutive_same_op,
    {
        Policy { no_consecutive_same_op: true }
    }
}

/// Whether a decoder with this policy and identifier may follow `history`:
/// only a policy that forbids consecutive use, together with a last step of
/// the same decoder, forbids it.
pub open spec fn may_follow(policy: Policy, id: Seq<char>, history: Seq<StepView>) -> bool {
    !(policy.no_consecutive_same_op && history.len() > 0 && history.last().0 == id)
}

/// A single transformation primitive that can produce zero or more outputs
/// from an input.
pub trait Decoder {
    /// The identifier that `id` returns.
    spec fn spec_id(&self) -> Seq<char>;

    /// The policy that `policy` returns.
    spec fn spec_policy(&self) -> Policy;

    /// The outputs, with their steps, that `apply` returns for `input`.
    spec fn spec_apply(&self, input: Seq<char>) -> Seq<TransformView>;

    /// Stable identifier for this decoder/operation (e.g., "caesar", "base64").
    fn id(&self) -> (r: DecoderId)
        ensures
            r@ == self.spec_id(),
    ;

    /// Constraint policy that controls when this decoder may follow a history of steps.
    fn policy(&self) -> (p: Policy)
        ensures
            p == self.spec_policy(),
    ;

    /// Apply this decoder to an input string, returning zero or more possible outputs.
    fn apply(&self, input: &str) -> (r: Vec<TransformResult>)
        ensures
            r.deep_view() == self.spec_apply(input@),
    ;

    /// Whether this decoder may follow the given history of steps.
    fn can_follow(&self, history: &[Step]) -> (b: bool)
        ensures
            b == may_follow(self.spec_policy(), self.spec_id(), history.deep_view()),
    {
        let policy = self.policy();
        if history.len() > 0 {
            let last = &history[history.len() - 1];
            if policy.no_consecutive_same_op && last.op_id == self.id() {
                return false;
            }
        }
        true
    }
}

/// The outputs that `decoders` give for `input` after `history`: those of
/// each decoder that may follow the history, in order of the decoders.
pub open spec fn expansion(
    decoders: Seq<BuiltinDecoder>,
    input: Seq<char>,
    history: Seq<StepView>,
) -> Seq<TransformView>
    decreases decoders.len(),
{
    if decoders.len() == 0 {
        seq![]
    } else {
        let d = decoders.last();
        expansion(decoders.drop_last(), input, history) + if may_follow(
            d.spec_policy(),
            d.spec_id(),
            history,
        ) {
            d.spec_apply(input)
        } else {
            seq![]
        }
    }
}

/// A decoder that forbids following itself adds nothing to the expansion
/// right after a step of its own.
pub proof fn lemma_no_consecutive_repeat(
    decoders: Seq<BuiltinDecoder>,
    d: BuiltinDecoder,
    input: Seq<char>,
    history: Seq<StepView>,
)
    requires
        d.spec_policy().no_consecutive_same_op,
        history.len() > 0,
        history.last().0 == d.spec_id(),
    ensures
        expansion(decoders.push(d), input, history) == expansion(decoders, input, history),
{
    assert(decoders.push(d).drop_last() =~= decoders);
    assert(expansion(decoders, input, history) + Seq::<TransformView>::empty() =~= expansion(
        decoders,
        input,
        history,
    ));
}

/// The expansion of two lists of decoders one after the other is the
/// expansion of the first followed by that of the second.
pub proof fn lemma_expansion_append(
    first: Seq<BuiltinDecoder>,
    second: Seq<BuiltinDecoder>,
    input: Seq<char>,
    history: Seq<StepView>,
)
    ensures
        expansion(first + second, input, history) == expansion(first, input, history) + expansion(
            second,
            input,
            history,
        ),
    decreases second.len(),
{
    if second.len() == 0 {
        assert(first + second =~= first);
        assert(expansion(first, input, history) + Seq::<TransformView>::empty() =~= expansion(
            first,
            input,
            history,
        ));
    } else {
        let rest = second.drop_last();
        lemma_expansion_append(first, rest, input, history);
        assert((first + second).drop_last() =~= first + rest);
        assert((first + second).last() == second.last());
        let d = second.last();
        let own = if may_follow(d.spec_policy(), d.spec_id(), history) {
            d.spec_apply(input)
        } else {
            seq![]
        };
        assert(expansion(first, input, history) + expansion(rest, input, history) + own
            =~= expansion(first, input, history) + (expansion(rest, input, history) + own));
    }
}

/// Every output of the expansion comes from a decoder of the list that may
/// follow the history.
pub proof fn lemma_expansion_source(
    decoders: Seq<BuiltinDecoder>,
    input: Seq<char>,
    history: Seq<StepView>,
    t: TransformView,
)
    requires
        expansion(decoders, input, history).contains(t),
    ensures
        exists|j: int|
            0 <= j < decoders.len() && may_follow(
                decoders[j].spec_policy(),
                decoders[j].spec_id(),
                history,
            ) && (#[trigger] decoders[j].spec_apply(input)).contains(t),
    decreases decoders.len(),
{
    let rest = decoders.drop_last();
    let d = decoders.last();
    let prev = expansion(rest, input, history);
    let own = if may_follow(d.spec_policy(), d.spec_id(), history) {
        d.spec_apply(input)
    } else {
        seq![]
    };
    assert(expansion(decoders, input, history) == prev + own);
    let k = choose|k: int| 0 <= k < (prev + own).len() && (prev + own)[k] == t;
    if k < prev.len() {
        assert(prev[k] == t);
        lemma_expansion_source(rest, input, history, t);
        let j = choose|j: int|
            0 <= j < rest.len() && may_follow(rest[j].spec_policy(), rest[j].spec_id(), history)
                && (#[trigger] rest[j].spec_apply(input)).contains(t);
        assert(decoders[j] == rest[j]);
    } else {
        assert(own[k - prev.len()] == t);
        assert(decoders[decoders.len() - 1] == d);
        assert(d.spec_apply(input).contains(t));
    }
}

/// Engine that manages and applies a set of decoders.
pub struct DecoderEngine {
    decoders: Vec<BuiltinDecoder>,
}

impl DecoderEngine {
    /// The registered decoders, in order of registration.
    pub closed spec fn decoders(&self) -> Seq<BuiltinDecoder> {
        self.decoders@
    }

    /// Create a new, empty decoder engine.
    pub fn new() -> (e: Self)
        ensures
            e.decoders() == Seq::<BuiltinDecoder>::empty(),
    {
        DecoderEngine { decoders: Vec::new() }
    }

    /// Register a decoder.
    pub fn register(&mut self, decoder: BuiltinDecoder)
        ensures
            final(self).decoders() == old(self).decoders().push(decoder),
    {
        self.decoders.push(decoder);
    }

    /// Apply all decoders that pass `can_follow(history)` to `input`.
    pub fn expand(&self, input: &str, history: &[Step]) -> (r: Vec<TransformResult>)
        ensures
            r.deep_view() == expansion(self.decoders(), input@, history.deep_view()),
    {
        let mut out: Vec<TransformResult> = Vec::new();
        let mut i: usize = 0;
        while i < self.decoders.len()
            invariant
                i <= self.decoders@.len(),
                out.deep_view() == expansion(self.decoders@.take(i as int), input@, history.deep_view()),
            decreases self.decoders@.len() - i,
        {
            assert(self.decoders@.take(i + 1).drop_last() =~= self.decoders@.take(i as int));
            let d = &self.decoders[i];
            let ghost before = out.deep_view();
            if d.can_follow(history) {
                let mut res = d.apply(input);
                let ghost added = res.deep_view();
                out.append(&mut res);
                assert(out.deep_view() =~= before + added);
            } else {
                assert(before + Seq::<TransformView>::empty() =~= before);
            }
            i = i + 1;
        }
        assert(self.decoders@.take(self.decoders@.len() as int) =~= self.decoders@);
        out
    }
}

} // verus!
