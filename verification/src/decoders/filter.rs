//! The decoder that keeps only one class of characters.
use vstd::prelude::*;
use crate::engine::{Decoder, DecoderId, Policy, Step, TransformResult, TransformView};
use crate::outside::{is_alphabetic, is_numeric, unicode_alphabetic, unicode_numeric};
use crate::text::{chars_of, is_whitespace, is_ws};

verus! {

/// Decoder that keeps one class of characters of its input at a time.
pub struct Filter;

/// The classes of characters that the filter keeps.
#[derive(Clone, Copy)]
pub enum FilterKind {
    Alphabetic,
    Alphanumeric,
    Numeric,
    NonWhitespace,
}

/// Whether the class keeps `c` (Unicode alphabetic, alphabetic or numeric,
/// numeric, anything but white space).
pub open spec fn keeps(kind: FilterKind, c: char) -> bool {
    match kind {
        FilterKind::Alphabetic => unicode_alphabetic(c),
        FilterKind::Alphanumeric => unicode_alphabetic(c) || unicode_numeric(c),
        FilterKind::Numeric => unicode_numeric(c),
        FilterKind::NonWhitespace => !is_ws(c),
    }
}

/// The characters of `s` that the class keeps, in order.
pub open spec fn kept(kind: FilterKind, s: Seq<char>) -> Seq<char>
    decreases s.len(),
{
    if s.len() == 0 {
        seq![]
    } else if keeps(kind, s.last()) {
        kept(kind, s.drop_last()).push(s.last())
    } else {
        kept(kind, s.drop_last())
    }
}

/// The output of one class.
pub open spec fn filter_result(kind: FilterKind, desc: Seq<char>, input: Seq<char>) -> TransformView {
    (kept(kind, input), ("filter"@, desc))
}

fn keeps_char(kind: FilterKind, c: char) -> (b: bool)
    ensures
        b == keeps(kind, c),
{
    match kind {
        FilterKind::Alphabetic => is_alphabetic(c),
        FilterKind::Alphanumeric => is_alphabetic(c) || is_numeric(c),
        FilterKind::Numeric => is_numeric(c),
        FilterKind::NonWhitespace => !is_whitespace(c),
    }
}

/// The characters of `s` that the class keeps.
fn keep(kind: FilterKind, s: &Vec<char>) -> (r: Vec<char>)
    ensures
        r@ == kept(kind, s@),
{
    let mut r: Vec<char> = Vec::new();
    let mut k: usize = 0;
    while k < s.len()
        invariant
            k <= s@.len(),
            r@ == kept(kind, s@.take(k as int)),
        decreases s@.len() - k,
    {
        assert(s@.take(k + 1).drop_last() =~= s@.take(k as int));
        if keeps_char(kind, s[k]) {
            r.push(s[k]);
        }
        k = k + 1;
    }
    assert(s@.take(s@.len() as int) =~= s@);
    r
}

impl Decoder for Filter {
    open spec fn spec_id(&self) -> Seq<char> {
        "filter"@
    }

    open spec fn spec_policy(&self) -> Policy {
        Policy { no_consecutive_same_op: true }
    }

    /// Four outputs: the alphabetic, the alphanumeric and the numeric
    /// characters of the input, and the input without its white space.
    open spec fn spec_apply(&self, input: Seq<char>) -> Seq<TransformView> {
        seq![
            filter_result(FilterKind::Alphabetic, "Remove non-alphabetic"@, input),
            filter_result(FilterKind::Alphanumeric, "Remove non-alphanumeric"@, input),
            filter_result(FilterKind::Numeric, "Remove non-numeric"@, input),
            filter_result(FilterKind::NonWhitespace, "Remove whitespace"@, input),
        ]
    }

    fn id(&self) -> (r: DecoderId) {
        "filter".to_string()
    }

    fn policy(&self) -> (p: Policy) {
        Policy { no_consecutive_same_op: true }
    }

    fn apply(&self, input: &str) -> (r: Vec<TransformResult>) {
        let cs = chars_of(input);
        let r = vec![
            TransformResult::from_chars(
                &keep(FilterKind::Alphabetic, &cs),
                Step::from_strs("filter", "Remove non-alphabetic"),
            ),
            TransformResult::from_chars(
                &keep(FilterKind::Alphanumeric, &cs),
                Step::from_strs("filter", "Remove non-alphanumeric"),
            ),
            TransformResult::from_chars(
                &keep(FilterKind::Numeric, &cs),
                Step::from_strs("filter", "Remove non-numeric"),
            ),
            TransformResult::from_chars(
                &keep(FilterKind::NonWhitespace, &cs),
                Step::from_strs("filter", "Remove whitespace"),
            ),
        ];
        assert(r.deep_view() =~= self.spec_apply(input@));
        r
    }
}

} // verus!
