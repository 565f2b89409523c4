//! Causal states.

use crate::estimator::{lemma_deep_view, Distribution, History};
use vstd::prelude::*;
use vstd::std_specs::cmp::PartialEqSpecImpl;

verus! {

/// A causal state: histories that count as equivalent for prediction, and the
/// distribution of the symbol that follows them.
///
/// Two states are equal when they hold the same set of histories, in whatever
/// order and however often each is written down.
#[derive(Debug, Clone)]
pub struct CausalState {
    /// The histories that belong to this state.
    pub histories: Vec<History>,
    /// The distribution of the next symbol, over the alphabet in its order.
    pub next_symbol_dist: Distribution,
}

/// Whether the two histories hold the same symbols in the same order.
fn same_history(first: &History, second: &History) -> (same: bool)
    ensures
        same == (first@ == second@),
{
    if first.len() != second.len() {
        return false;
    }
    let mut at: usize = 0;
    while at < first.len()
        invariant
            first.len() == second.len(),
            at <= first.len(),
            forall|i: int| 0 <= i < at ==> first@[i] == second@[i],
        decreases first.len() - at,
    {
        if first[at] != second[at] {
            return false;
        }
        at += 1;
    }
    assert(first@ =~= second@);
    true
}

/// Whether `history` is one of `histories`.
fn holds_history(histories: &Vec<History>, history: &History) -> (found: bool)
    ensures
        found == histories.deep_view().contains(history@),
{
    let mut at: usize = 0;
    while at < histories.len()
        invariant
            at <= histories.len(),
            forall|i: int| 0 <= i < at ==> histories.deep_view()[i] != history@,
        decreases histories.len() - at,
    {
        proof {
            lemma_deep_view(*histories);
        }
        if same_history(&histories[at], history) {
            assert(histories.deep_view()[at as int] == history@);
            return true;
        }
        at += 1;
    }
    false
}

/// Whether every history of `inner` is one of `outer`.
fn holds_all(outer: &Vec<History>, inner: &Vec<History>) -> (all: bool)
    ensures
        all == inner.deep_view().to_set().subset_of(outer.deep_view().to_set()),
{
    let mut at: usize = 0;
    while at < inner.len()
        invariant
            at <= inner.len(),
            forall|i: int| 0 <= i < at ==> outer.deep_view().contains(#[trigger] inner.deep_view()[i]),
        decreases inner.len() - at,
    {
        proof {
            lemma_deep_view(*inner);
        }
        if !holds_history(outer, &inner[at]) {
            assert(inner.deep_view().contains(inner.deep_view()[at as int]));
            assert(inner.deep_view().to_set().contains(inner.deep_view()[at as int]));
            return false;
        }
        at += 1;
    }
    assert forall|history: Seq<u32>|
        inner.deep_view().to_set().contains(history) implies outer.deep_view().to_set().contains(
        history,
    ) by {
        let i = choose|i: int| 0 <= i < inner.deep_view().len() && inner.deep_view()[i] == history;
        assert(outer.deep_view().contains(inner.deep_view()[i]));
    }
    true
}

impl CausalState {
    /// A state without histories, with an empty distribution.
    pub fn new() -> (state: Self)
        ensures
            state.histories@.len() == 0,
            state.next_symbol_dist.counts@.len() == 0,
            state.next_symbol_dist.total == 0,
    {
        CausalState {
            histories: Vec::new(),
            next_symbol_dist: Distribution { counts: Vec::new(), total: 0 },
        }
    }
}

impl PartialEq for CausalState {
    fn eq(&self, other: &Self) -> (equal: bool) {
        let equal = holds_all(&self.histories, &other.histories) && holds_all(
            &other.histories,
            &self.histories,
        );
        assert(equal == (self.histories.deep_view().to_set() =~= other.histories.deep_view().to_set()));
        equal
    }
}

impl PartialEqSpecImpl for CausalState {
    open spec fn obeys_eq_spec() -> bool {
        true
    }

    open spec fn eq_spec(&self, other: &Self) -> bool {
        self.histories.deep_view().to_set() == other.histories.deep_view().to_set()
    }
}

impl Eq for CausalState {

}

} // verus!
