//! The alphabet in its one fixed order: ascending, each symbol once.

use std::collections::HashSet;
use vstd::prelude::*;

verus! {

/// Each symbol is below the one after it.
pub open spec fn ascending(symbols: Seq<u32>) -> bool {
    forall|i: int, j: int| 0 <= i < j < symbols.len() ==> symbols[i] < symbols[j]
}

/// An ascending sequence names no symbol twice.
pub proof fn lemma_ascending_distinct(symbols: Seq<u32>)
    requires
        ascending(symbols),
    ensures
        symbols.no_duplicates(),
{
    assert forall|i: int, j: int|
        0 <= i < symbols.len() && 0 <= j < symbols.len() && i != j implies symbols[i]
        != symbols[j] by {
        if i < j {
            assert(symbols[i] < symbols[j]);
        } else {
            assert(symbols[j] < symbols[i]);
        }
    }
}

/// A set of symbols has one ascending order: two ascending sequences that hold
/// the same symbols are the same sequence.
pub proof fn lemma_ascending_unique(a: Seq<u32>, b: Seq<u32>)
    requires
        ascending(a),
        ascending(b),
        a.to_set() == b.to_set(),
    ensures
        a == b,
    decreases a.len(),
{
    if a.len() == 0 {
        if b.len() > 0 {
            assert(b.to_set().contains(b[0]));
            assert(a.contains(b[0]));
        }
        assert(a =~= b);
    } else {
        assert(a.to_set().contains(a.last()));
        assert(b.contains(a.last()));
        let at = choose|at: int| 0 <= at < b.len() && b[at] == a.last();
        assert(b.to_set().contains(b.last()));
        assert(a.contains(b.last()));
        let back = choose|back: int| 0 <= back < a.len() && a[back] == b.last();
        assert(a.last() == b.last()) by {
            if at < b.len() - 1 {
                assert(b[at] < b[b.len() - 1]);
            }
            if back < a.len() - 1 {
                assert(a[back] < a[a.len() - 1]);
            }
        }
        let shorter_a = a.drop_last();
        let shorter_b = b.drop_last();
        assert forall|x: u32| shorter_a.to_set().contains(x) == shorter_b.to_set().contains(x) by {
            if shorter_a.contains(x) {
                let i = choose|i: int| 0 <= i < shorter_a.len() && shorter_a[i] == x;
                assert(a[i] == x && a[i] < a[a.len() - 1]);
                assert(a.to_set().contains(x));
                assert(b.contains(x));
                let j = choose|j: int| 0 <= j < b.len() && b[j] == x;
                assert(shorter_b[j] == x);
            }
            if shorter_b.contains(x) {
                let i = choose|i: int| 0 <= i < shorter_b.len() && shorter_b[i] == x;
                assert(b[i] == x && b[i] < b[b.len() - 1]);
                assert(b.to_set().contains(x));
                assert(a.contains(x));
                let j = choose|j: int| 0 <= j < a.len() && a[j] == x;
                assert(shorter_a[j] == x);
            }
        }
        assert(shorter_a.to_set() =~= shorter_b.to_set());
        lemma_ascending_unique(shorter_a, shorter_b);
        assert(a =~= shorter_a.push(a.last()));
        assert(b =~= shorter_b.push(b.last()));
    }
}

/// Puts `symbol` at its place in an ascending vector, unless it is there already.
pub fn insert_symbol(symbols: &mut Vec<u32>, symbol: u32)
    requires
        ascending(old(symbols)@),
    ensures
        ascending(final(symbols)@),
        forall|x: u32| final(symbols)@.contains(x) <==> (old(symbols)@.contains(x) || x == symbol),
{
    let mut at: usize = 0;
    while at < symbols.len() && symbols[at] < symbol
        invariant
            at <= symbols.len(),
            symbols@ == old(symbols)@,
            forall|i: int| 0 <= i < at ==> symbols@[i] < symbol,
        decreases symbols.len() - at,
    {
        at += 1;
    }
    if at < symbols.len() && symbols[at] == symbol {
        assert(symbols@.contains(symbol));
        return ;
    }
    let ghost before = symbols@;
    symbols.insert(at, symbol);
    assert(symbols@ =~= before.insert(at as int, symbol));
    let ghost after = symbols@;
    assert forall|x: u32| after.contains(x) <==> (before.contains(x) || x == symbol) by {
        if after.contains(x) {
            let i = choose|i: int| 0 <= i < after.len() && after[i] == x;
            if i < at {
                assert(before[i] == x);
            } else if i > at {
                assert(before[i - 1] == x);
            }
        }
        if before.contains(x) {
            let i = choose|i: int| 0 <= i < before.len() && before[i] == x;
            if i < at {
                assert(after[i] == x);
            } else {
                assert(after[i + 1] == x);
            }
        }
        if x == symbol {
            assert(after[at as int] == x);
        }
    }
    assert forall|i: int, j: int| 0 <= i < j < symbols@.len() implies symbols@[i] < symbols@[j] by {
        if j < at {
            assert(symbols@[i] == before[i] && symbols@[j] == before[j]);
        } else if j == at {
            assert(symbols@[i] == before[i]);
        } else if i < at {
            assert(symbols@[i] == before[i] && symbols@[j] == before[j - 1]);
            assert(before[at as int] > symbol);
        } else if i == at {
            assert(symbols@[j] == before[j - 1]);
            assert(before[at as int] > symbol);
        } else {
            assert(symbols@[i] == before[i - 1] && symbols@[j] == before[j - 1]);
        }
    }
}

/// The symbols of a set in ascending order.
pub fn ordered_alphabet(symbols: &HashSet<u32>) -> (alphabet: Vec<u32>)
    ensures
        ascending(alphabet@),
        alphabet@.to_set() == symbols@,
{
    broadcast use vstd::std_specs::hash::group_hash_axioms;

    let mut alphabet: Vec<u32> = Vec::new();
    for symbol in iter: symbols.iter()
        invariant
            ascending(alphabet@),
            iter.seq().unref().to_set() == symbols@,
            forall|x: u32| alphabet@.contains(x) ==> symbols@.contains(x),
            forall|i: int|
                0 <= i < iter.index() ==> alphabet@.contains(*(#[trigger] iter.seq()[i])),
    {
        assert(iter.seq().unref()[iter.index()] == *symbol);
        assert(iter.seq().unref().contains(*symbol));
        insert_symbol(&mut alphabet, *symbol);
    }
    assert(alphabet@.to_set() =~= symbols@);
    alphabet
}

} // verus!
