//! The distribution estimator: how often each symbol follows a set of histories.

use vstd::prelude::*;

verus! {

/// A history of symbols: the symbols right before a prediction point, oldest first.
pub type History = Vec<u32>;

/// `history` is what the data holds right before position `point`.
pub open spec fn precedes(history: Seq<u32>, data: Seq<u32>, point: int) -> bool {
    &&& history.len() <= point <= data.len()
    &&& data.subrange(point - history.len(), point) == history
}

/// Some history of the set is what the data holds right before position `point`.
pub open spec fn context_matches(histories: Seq<Seq<u32>>, data: Seq<u32>, point: int) -> bool {
    exists|j: int| 0 <= j < histories.len() && precedes(#[trigger] histories[j], data, point)
}

/// Number of positions below `end` that hold `symbol` right after one of the histories.
pub open spec fn tally(histories: Seq<Seq<u32>>, data: Seq<u32>, symbol: u32, end: nat) -> nat
    decreases end,
{
    if end == 0 {
        0
    } else {
        let point = (end - 1) as nat;
        let hit: nat = if context_matches(histories, data, point as int) && data[point as int]
            == symbol {
            1
        } else {
            0
        };
        tally(histories, data, symbol, point) + hit
    }
}

/// Number of positions below `end` that come right after one of the histories.
pub open spec fn occurrences(histories: Seq<Seq<u32>>, data: Seq<u32>, end: nat) -> nat
    decreases end,
{
    if end == 0 {
        0
    } else {
        let point = (end - 1) as nat;
        let hit: nat = if context_matches(histories, data, point as int) {
            1
        } else {
            0
        };
        occurrences(histories, data, point) + hit
    }
}

/// The alphabet holds every symbol of the data.
pub open spec fn spelled(data: Seq<u32>, alphabet: Seq<u32>) -> bool {
    forall|point: int| 0 <= point < data.len() ==> alphabet.contains(#[trigger] data[point])
}

/// A next-symbol distribution, kept exactly: `counts[k]` occurrences of the `k`-th
/// symbol of the alphabet out of `total` observed successors. The probability of the
/// `k`-th symbol is `counts[k] / total`, and zero for every symbol when `total` is zero.
#[derive(Debug, Clone)]
pub struct Distribution {
    pub counts: Vec<u64>,
    pub total: u64,
}

impl Distribution {
    /// The distribution gives the `k`-th symbol a probability above zero.
    pub open spec fn positive(&self, k: int) -> bool {
        self.total > 0 && self.counts[k] > 0
    }

    /// The distribution is what the data says of `histories`: one tally for each
    /// symbol of the alphabet, over the number of places where a history occurs
    /// with a symbol after it.
    pub open spec fn estimates(
        &self,
        histories: Seq<Seq<u32>>,
        data: Seq<u32>,
        alphabet: Seq<u32>,
    ) -> bool {
        &&& self.counts.len() == alphabet.len()
        &&& forall|k: int|
            0 <= k < alphabet.len() ==> #[trigger] self.counts[k] == tally(
                histories,
                data,
                alphabet[k],
                data.len(),
            )
        &&& self.total == occurrences(histories, data, data.len())
    }

    /// Sum of the first `upto` counts.
    pub open spec fn partial_sum(&self, upto: nat) -> nat
        decreases upto,
    {
        if upto == 0 {
            0
        } else {
            self.partial_sum((upto - 1) as nat) + self.counts[upto - 1] as nat
        }
    }

    /// Sum of all the counts.
    pub open spec fn sum(&self) -> nat {
        self.partial_sum(self.counts.len() as nat)
    }

    /// For each symbol of the alphabet, whether its probability is above zero.
    pub open spec fn support(&self) -> Seq<bool> {
        Seq::new(self.counts.len() as nat, |k: int| self.positive(k))
    }

    /// No symbol has a probability above zero: nothing in the data supports the
    /// histories that the distribution was estimated for.
    pub open spec fn is_zero(&self) -> bool {
        forall|k: int| 0 <= k < self.counts.len() ==> !self.positive(k)
    }

    /// For each symbol of the alphabet, in order, whether the distribution gives
    /// it a probability above zero.
    pub fn support_flags(&self) -> (flags: Vec<bool>)
        ensures
            flags@ == self.support(),
    {
        let mut flags: Vec<bool> = Vec::new();
        let mut k: usize = 0;
        while k < self.counts.len()
            invariant
                k <= self.counts.len(),
                flags.len() == k,
                forall|i: int| 0 <= i < k ==> flags[i] == self.positive(i),
            decreases self.counts.len() - k,
        {
            flags.push(self.total > 0 && self.counts[k] > 0);
            k += 1;
        }
        assert(flags@ =~= self.support());
        flags
    }

    /// Whether no symbol has a probability above zero.
    pub fn has_no_support(&self) -> (zero: bool)
        ensures
            zero == self.is_zero(),
    {
        if self.total == 0 {
            return true;
        }
        let mut k: usize = 0;
        while k < self.counts.len()
            invariant
                self.total > 0,
                k <= self.counts.len(),
                forall|i: int| 0 <= i < k ==> !self.positive(i),
            decreases self.counts.len() - k,
        {
            if self.counts[k] > 0 {
                assert(self.positive(k as int));
                return false;
            }
            k += 1;
        }
        true
    }

    /// A copy of the distribution.
    pub fn duplicate(&self) -> (copy: Distribution)
        ensures
            copy.counts@ == self.counts@,
            copy.total == self.total,
    {
        let mut counts: Vec<u64> = Vec::new();
        let mut k: usize = 0;
        while k < self.counts.len()
            invariant
                k <= self.counts.len(),
                counts@ == self.counts@.take(k as int),
            decreases self.counts.len() - k,
        {
            counts.push(self.counts[k]);
            proof {
                self.counts@.lemma_take_succ_push(k as int);
            }
            k += 1;
        }
        assert(self.counts@.take(k as int) =~= self.counts@);
        Distribution { counts, total: self.total }
    }
}

/// The deep view of a vector of histories holds the view of each, in order.
pub proof fn lemma_deep_view(histories: Vec<History>)
    ensures
        histories.deep_view().len() == histories@.len(),
        forall|i: int|
            0 <= i < histories@.len() ==> #[trigger] histories.deep_view()[i] == histories@[i]@,
{
    assert forall|i: int| 0 <= i < histories@.len() implies #[trigger] histories.deep_view()[i]
        == histories@[i]@ by {
        assert(histories@[i].deep_view() =~= histories@[i]@);
    }
}

/// Whether `history` is what `data` holds right before `point`.
fn history_precedes(history: &History, data: &[u32], point: usize) -> (found: bool)
    requires
        point <= data.len(),
    ensures
        found == precedes(history@, data@, point as int),
{
    let length = history.len();
    if length > point {
        return false;
    }
    let start = point - length;
    let mut offset: usize = 0;
    while offset < length
        invariant
            length == history.len(),
            length <= point <= data.len(),
            start == point - length,
            offset <= length,
            forall|t: int| 0 <= t < offset ==> history@[t] == data@[start + t],
        decreases length - offset,
    {
        if history[offset] != data[start + offset] {
            assert(data@.subrange(start as int, point as int)[offset as int] != history@[offset as int]);
            return false;
        }
        offset += 1;
    }
    assert(data@.subrange(start as int, point as int) =~= history@);
    true
}

/// Whether one of `histories` is what `data` holds right before `point`.
fn context_found(histories: &Vec<History>, data: &[u32], point: usize) -> (found: bool)
    requires
        point <= data.len(),
    ensures
        found == context_matches(histories.deep_view(), data@, point as int),
{
    let mut j: usize = 0;
    while j < histories.len()
        invariant
            point <= data.len(),
            j <= histories.len(),
            forall|i: int| 0 <= i < j ==> !precedes(#[trigger] histories.deep_view()[i], data@, point as int),
        decreases histories.len() - j,
    {
        if history_precedes(&histories[j], data, point) {
            assert(histories.deep_view()[j as int] == histories[j as int]@);
            return true;
        }
        assert(histories.deep_view()[j as int] == histories[j as int]@);
        j += 1;
    }
    false
}

/// Estimates the next-symbol distribution of a set of histories from the data.
///
/// Every position of `data` that comes right after an occurrence of one of the
/// histories counts once towards the total, and once for its symbol if the
/// alphabet holds it. With no history, or none that occurs, all is zero.
pub fn compute_next_symbol_dist(
    histories: &Vec<History>,
    data: &[u32],
    alphabet: &Vec<u32>,
) -> (dist: Distribution)
    ensures
        dist.estimates(histories.deep_view(), data@, alphabet@),
{
    let ghost hs = histories.deep_view();
    let mut counts: Vec<u64> = Vec::new();
    let mut k: usize = 0;
    while k < alphabet.len()
        invariant
            k <= alphabet.len(),
            counts.len() == k,
            forall|i: int| 0 <= i < k ==> counts[i] == 0,
        decreases alphabet.len() - k,
    {
        counts.push(0);
        k += 1;
    }
    let mut total: u64 = 0;
    let mut point: usize = 0;
    while point < data.len()
        invariant
            hs == histories.deep_view(),
            point <= data.len(),
            counts.len() == alphabet.len(),
            forall|i: int|
                0 <= i < alphabet.len() ==> #[trigger] counts[i] == tally(
                    hs,
                    data@,
                    alphabet[i],
                    point as nat,
                ),
            total == occurrences(hs, data@, point as nat),
        decreases data.len() - point,
    {
        let symbol = data[point];
        if context_found(histories, data, point) {
            proof {
                lemma_tally_bounds(hs, data@, symbol, point as nat);
            }
            total += 1;
            let mut k: usize = 0;
            while k < alphabet.len()
                invariant
                    hs == histories.deep_view(),
                    point < data.len(),
                    symbol == data@[point as int],
                    context_matches(hs, data@, point as int),
                    k <= alphabet.len(),
                    counts.len() == alphabet.len(),
                    forall|i: int|
                        0 <= i < k ==> #[trigger] counts[i] == tally(
                            hs,
                            data@,
                            alphabet[i],
                            (point + 1) as nat,
                        ),
                    forall|i: int|
                        k <= i < alphabet.len() ==> #[trigger] counts[i] == tally(
                            hs,
                            data@,
                            alphabet[i],
                            point as nat,
                        ),
                decreases alphabet.len() - k,
            {
                if alphabet[k] == symbol {
                    proof {
                        lemma_tally_bounds(hs, data@, symbol, point as nat);
                    }
                    let count = counts[k];
                    counts.set(k, count + 1);
                }
                k += 1;
            }
        }
        point += 1;
    }
    Distribution { counts, total }
}

/// A tally never exceeds the number of occurrences, which never exceeds the
/// number of positions looked at.
pub proof fn lemma_tally_bounds(histories: Seq<Seq<u32>>, data: Seq<u32>, symbol: u32, end: nat)
    ensures
        tally(histories, data, symbol, end) <= occurrences(histories, data, end) <= end,
    decreases end,
{
    if end > 0 {
        lemma_tally_bounds(histories, data, symbol, (end - 1) as nat);
    }
}

/// The estimate goes by the set of histories, not by their order or number: two
/// sequences that hold the same histories have the same tallies and occurrences.
pub proof fn lemma_estimate_of_set(
    first: Seq<Seq<u32>>,
    second: Seq<Seq<u32>>,
    data: Seq<u32>,
    symbol: u32,
    end: nat,
)
    requires
        first.to_set() == second.to_set(),
    ensures
        tally(first, data, symbol, end) == tally(second, data, symbol, end),
        occurrences(first, data, end) == occurrences(second, data, end),
    decreases end,
{
    if end > 0 {
        lemma_estimate_of_set(first, second, data, symbol, (end - 1) as nat);
        let point = end - 1;
        if context_matches(first, data, point) {
            let j = choose|j: int| 0 <= j < first.len() && precedes(#[trigger] first[j], data, point);
            assert(first.to_set().contains(first[j]));
            assert(second.contains(first[j]));
            let k = choose|k: int| 0 <= k < second.len() && second[k] == first[j];
            assert(precedes(second[k], data, point));
        }
        if context_matches(second, data, point) {
            let j = choose|j: int|
                0 <= j < second.len() && precedes(#[trigger] second[j], data, point);
            assert(second.to_set().contains(second[j]));
            assert(first.contains(second[j]));
            let k = choose|k: int| 0 <= k < first.len() && first[k] == second[j];
            assert(precedes(first[k], data, point));
        }
    }
}

/// The data leaves one estimate to a set of histories: two distributions that
/// estimate the same histories hold the same counts and total.
pub proof fn lemma_estimate_unique(
    first: Distribution,
    second: Distribution,
    histories: Seq<Seq<u32>>,
    data: Seq<u32>,
    alphabet: Seq<u32>,
)
    requires
        first.estimates(histories, data, alphabet),
        second.estimates(histories, data, alphabet),
    ensures
        first.counts@ == second.counts@,
        first.total == second.total,
{
    assert(first.counts@ =~= second.counts@);
}

/// Number of positions below `upto` at which `alphabet` holds `symbol`.
pub open spec fn places(alphabet: Seq<u32>, symbol: u32, upto: nat) -> nat
    decreases upto,
{
    if upto == 0 {
        0
    } else {
        let here: nat = if alphabet[upto - 1] == symbol {
            1
        } else {
            0
        };
        places(alphabet, symbol, (upto - 1) as nat) + here
    }
}

/// Sum, over the first `upto` symbols of the alphabet, of their tallies.
pub open spec fn tallies(
    histories: Seq<Seq<u32>>,
    data: Seq<u32>,
    alphabet: Seq<u32>,
    upto: nat,
    end: nat,
) -> nat
    decreases upto,
{
    if upto == 0 {
        0
    } else {
        tallies(histories, data, alphabet, (upto - 1) as nat, end) + tally(
            histories,
            data,
            alphabet[upto - 1],
            end,
        )
    }
}

/// A symbol has one place in an alphabet that names each symbol once, or none.
proof fn lemma_places_unique(alphabet: Seq<u32>, symbol: u32, upto: nat)
    requires
        alphabet.no_duplicates(),
        upto <= alphabet.len(),
    ensures
        places(alphabet, symbol, upto) == if exists|k: int|
            0 <= k < upto && alphabet[k] == symbol {
            1nat
        } else {
            0nat
        },
    decreases upto,
{
    if upto > 0 {
        lemma_places_unique(alphabet, symbol, (upto - 1) as nat);
        if alphabet[upto - 1] == symbol {
            assert(forall|k: int| 0 <= k < upto - 1 ==> #[trigger] alphabet[k] != alphabet[upto - 1]);
        }
    }
}

/// One more position adds to the tallies the places of its symbol, if it comes
/// after one of the histories.
proof fn lemma_tallies_step(
    histories: Seq<Seq<u32>>,
    data: Seq<u32>,
    alphabet: Seq<u32>,
    upto: nat,
    end: nat,
)
    requires
        end > 0,
    ensures
        tallies(histories, data, alphabet, upto, end) == tallies(
            histories,
            data,
            alphabet,
            upto,
            (end - 1) as nat,
        ) + if context_matches(histories, data, end - 1) {
            places(alphabet, data[end - 1], upto)
        } else {
            0
        },
    decreases upto,
{
    if upto > 0 {
        lemma_tallies_step(histories, data, alphabet, (upto - 1) as nat, end);
    }
}

/// Where the alphabet names each symbol once and holds every symbol of the data,
/// the tallies of its symbols add up to the number of occurrences.
pub proof fn lemma_tallies_add_up(
    histories: Seq<Seq<u32>>,
    data: Seq<u32>,
    alphabet: Seq<u32>,
    end: nat,
)
    requires
        alphabet.no_duplicates(),
        end <= data.len(),
        spelled(data, alphabet),
    ensures
        tallies(histories, data, alphabet, alphabet.len(), end) == occurrences(
            histories,
            data,
            end,
        ),
    decreases end,
{
    if end == 0 {
        lemma_tallies_none(histories, data, alphabet, alphabet.len());
    } else {
        lemma_tallies_add_up(histories, data, alphabet, (end - 1) as nat);
        lemma_tallies_step(histories, data, alphabet, alphabet.len(), end);
        lemma_places_unique(alphabet, data[end - 1], alphabet.len());
        assert(alphabet.contains(data[end - 1]));
    }
}

/// Over no position at all every tally is zero.
proof fn lemma_tallies_none(
    histories: Seq<Seq<u32>>,
    data: Seq<u32>,
    alphabet: Seq<u32>,
    upto: nat,
)
    ensures
        tallies(histories, data, alphabet, upto, 0) == 0,
    decreases upto,
{
    if upto > 0 {
        lemma_tallies_none(histories, data, alphabet, (upto - 1) as nat);
    }
}

/// The counts of an estimate add up as the tallies do.
proof fn lemma_partial_sum(
    dist: Distribution,
    histories: Seq<Seq<u32>>,
    data: Seq<u32>,
    alphabet: Seq<u32>,
    upto: nat,
)
    requires
        dist.estimates(histories, data, alphabet),
        upto <= alphabet.len(),
    ensures
        dist.partial_sum(upto) == tallies(histories, data, alphabet, upto, data.len()),
    decreases upto,
{
    if upto > 0 {
        lemma_partial_sum(dist, histories, data, alphabet, (upto - 1) as nat);
    }
}

/// Every estimated distribution is a distribution or all zero: over an alphabet
/// that names each symbol once and holds every symbol of the data, the counts add
/// up to the total, so the probabilities add up to one unless the total is zero,
/// and then every count is zero.
pub proof fn lemma_estimate_sums(
    dist: Distribution,
    histories: Seq<Seq<u32>>,
    data: Seq<u32>,
    alphabet: Seq<u32>,
)
    requires
        dist.estimates(histories, data, alphabet),
        alphabet.no_duplicates(),
        spelled(data, alphabet),
    ensures
        dist.sum() == dist.total,
        dist.total == 0 ==> forall|k: int| 0 <= k < dist.counts.len() ==> dist.counts[k] == 0,
{
    lemma_partial_sum(dist, histories, data, alphabet, alphabet.len());
    lemma_tallies_add_up(histories, data, alphabet, data.len());
    assert forall|k: int| 0 <= k < dist.counts.len() implies dist.counts[k] <= dist.total by {
        lemma_tally_bounds(histories, data, alphabet[k], data.len());
    }
}

} // verus!
