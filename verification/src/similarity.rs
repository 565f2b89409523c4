//! The part of the equivalence test that needs no arithmetic on probabilities:
//! which symbols two aligned distributions give a probability above zero.

use vstd::prelude::*;

verus! {

/// What the supports of two aligned distributions say of their similarity.
#[derive(Debug, Clone, Copy, PartialEq, Eq)]
pub enum Comparison {
    /// The first distribution gives a probability above zero to a symbol that the
    /// reference never shows: they are not similar.
    Dissimilar,
    /// Nothing tells them apart, and the reference shows at most one symbol:
    /// there is no room for a chi-square test, and they count as similar.
    Similar,
    /// A chi-square test decides, with this many degrees of freedom: one less
    /// than the number of symbols that the reference shows.
    Undecided { degrees_of_freedom: usize },
}

/// At some position `a` is set where `reference` is not.
pub open spec fn clashes(a: Seq<bool>, reference: Seq<bool>) -> bool {
    exists|i: int| 0 <= i < a.len() && i < reference.len() && a[i] && !reference[i]
}

/// Number of positions that are set.
pub open spec fn categories(support: Seq<bool>) -> nat {
    support.filter(|shown: bool| shown).len()
}

/// The verdict on two supports, the second being the reference.
pub open spec fn compare(a: Seq<bool>, reference: Seq<bool>) -> Comparison {
    if clashes(a, reference) {
        Comparison::Dissimilar
    } else if categories(reference) <= 1 {
        Comparison::Similar
    } else {
        Comparison::Undecided { degrees_of_freedom: (categories(reference) - 1) as usize }
    }
}

/// Compares the supports of two distributions aligned over one ordering of the
/// alphabet: `a[i]` and `reference[i]` say whether the `i`-th symbol has a
/// probability above zero. The second distribution is the reference.
pub fn compare_supports(a: &[bool], reference: &[bool]) -> (verdict: Comparison)
    requires
        a.len() == reference.len(),
    ensures
        verdict == compare(a@, reference@),
{
    let ghost shown = |shown: bool| shown;
    let mut count: usize = 0;
    let mut i: usize = 0;
    while i < reference.len()
        invariant
            a.len() == reference.len(),
            i <= reference.len(),
            shown == |shown: bool| shown,
            count == reference@.take(i as int).filter(shown).len(),
            count <= i,
            forall|j: int| 0 <= j < i ==> !(a@[j] && !reference@[j]),
        decreases reference.len() - i,
    {
        proof {
            reference@.lemma_take_succ_push(i as int);
            reference@.take(i as int).lemma_filter_push(reference@[i as int], shown);
        }
        if reference[i] {
            count += 1;
        } else if a[i] {
            return Comparison::Dissimilar;
        }
        i += 1;
    }
    assert(reference@.take(i as int) =~= reference@);
    if count <= 1 {
        Comparison::Similar
    } else {
        Comparison::Undecided { degrees_of_freedom: count - 1 }
    }
}

/// No support clashes with itself: a distribution compared with itself is
/// never told apart by its support.
pub proof fn lemma_compare_reflexive(a: Seq<bool>)
    ensures
        compare(a, a) != Comparison::Dissimilar,
{
}

} // verus!
