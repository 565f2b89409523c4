//! The state builder: the reconstruction machine on real data.

use crate::alphabet::{ascending, lemma_ascending_distinct, ordered_alphabet};
use crate::estimator::{
    compute_next_symbol_dist, lemma_deep_view, lemma_estimate_sums, lemma_tally_bounds, spelled,
    tally, Distribution, History,
};
use crate::model::{
    estimated_support, extend, followed_by, of_length, successors, supported, Group, Machine,
    Phase,
};
use crate::partition::{
    consistent, lemma_absorb, lemma_advance_consistent, lemma_start_consistent, partitioned,
};
use crate::similarity::{compare_supports, Comparison};
use crate::state::CausalState;
use std::collections::HashSet;
use vstd::prelude::*;
use vstd::slice::slice_to_vec;

verus! {

/// What the caller of the machine has to do next.
#[derive(Debug, Clone)]
pub enum Step {
    /// Nothing: all generations are made, and the states are the result.
    Finished,
    /// Decide by a chi-square test, with the given degrees of freedom, whether
    /// `candidate` is similar to `reference`, and resume the machine with the
    /// answer. Both give a probability above zero to the same symbols, or the
    /// reference to more, and the reference does so to at least two.
    Compare { candidate: Distribution, reference: Distribution, degrees_of_freedom: usize },
}

/// The histories of each state, in order.
pub open spec fn histories_of(states: Seq<CausalState>) -> Seq<Group> {
    Seq::new(states.len(), |i: int| states[i].histories.deep_view())
}

/// The distribution of each state is the estimate for its histories.
pub open spec fn estimated(states: Seq<CausalState>, data: Seq<u32>, alphabet: Seq<u32>) -> bool {
    forall|i: int|
        0 <= i < states.len() ==> (#[trigger] states[i]).next_symbol_dist.estimates(
            states[i].histories.deep_view(),
            data,
            alphabet,
        )
}

/// `step` is what a machine in this state asks of its caller.
pub open spec fn asks(machine: Machine, step: Step) -> bool {
    match step {
        Step::Finished => machine.phase == Phase::Done,
        Step::Compare { candidate, reference, degrees_of_freedom } => {
            &&& machine.phase == Phase::Awaiting
            &&& candidate.estimates(machine.candidates[0], machine.data, machine.alphabet)
            &&& reference.estimates(
                machine.groups[machine.group as int],
                machine.data,
                machine.alphabet,
            )
            &&& machine.verdict() == Comparison::Undecided { degrees_of_freedom }
        },
    }
}

/// An estimated distribution has the support that the data gives its histories.
pub proof fn lemma_support_of_estimate(
    dist: Distribution,
    group: Group,
    data: Seq<u32>,
    alphabet: Seq<u32>,
)
    requires
        dist.estimates(group, data, alphabet),
    ensures
        dist.support() == estimated_support(group, data, alphabet),
        dist.is_zero() == !supported(group, data, alphabet),
{
    assert(dist.support() =~= estimated_support(group, data, alphabet));
    assert forall|k: int| 0 <= k < alphabet.len() implies tally(
        group,
        data,
        alphabet[k],
        data.len(),
    ) <= dist.total by {
        lemma_tally_bounds(group, data, alphabet[k], data.len());
    }
    if supported(group, data, alphabet) {
        let k = choose|k: int|
            0 <= k < alphabet.len() && tally(group, data, #[trigger] alphabet[k], data.len()) > 0;
        assert(dist.positive(k));
    }
    if !dist.is_zero() {
        let k = choose|k: int| 0 <= k < dist.counts.len() && dist.positive(k);
        assert(tally(group, data, alphabet[k], data.len()) > 0);
    }
}

/// The distribution of every state is a distribution or all zero: where the
/// alphabet ascends and holds every symbol of the data, the counts of each state
/// add up to its total, so its probabilities add up to one unless the total is
/// zero, and then every count is zero.
pub proof fn lemma_states_sum(
    states: Seq<CausalState>,
    data: Seq<u32>,
    alphabet: Seq<u32>,
    i: int,
)
    requires
        estimated(states, data, alphabet),
        ascending(alphabet),
        spelled(data, alphabet),
        0 <= i < states.len(),
    ensures
        states[i].next_symbol_dist.sum() == states[i].next_symbol_dist.total,
        states[i].next_symbol_dist.total == 0 ==> forall|k: int|
            0 <= k < states[i].next_symbol_dist.counts.len()
                ==> states[i].next_symbol_dist.counts[k] == 0,
{
    lemma_ascending_distinct(alphabet);
    lemma_estimate_sums(
        states[i].next_symbol_dist,
        states[i].histories.deep_view(),
        data,
        alphabet,
    );
}

/// A copy of a state.
fn copy_state(state: &CausalState) -> (copy: CausalState)
    ensures
        copy.histories.deep_view() == state.histories.deep_view(),
        copy.next_symbol_dist.counts@ == state.next_symbol_dist.counts@,
        copy.next_symbol_dist.total == state.next_symbol_dist.total,
{
    let mut histories: Vec<History> = Vec::new();
    let mut i: usize = 0;
    while i < state.histories.len()
        invariant
            i <= state.histories.len(),
            histories.len() == i,
            forall|j: int| 0 <= j < i ==> histories[j]@ == state.histories[j]@,
        decreases state.histories.len() - i,
    {
        histories.push(slice_to_vec(state.histories[i].as_slice()));
        i += 1;
    }
    assert(histories.deep_view() =~= state.histories.deep_view());
    CausalState { histories, next_symbol_dist: state.next_symbol_dist.duplicate() }
}

/// The histories of the given length, each with `symbol` appended.
fn extend_histories(histories: &Vec<History>, symbol: u32, length: usize) -> (extended: Vec<
    History,
>)
    ensures
        extended.deep_view() == extend(histories.deep_view(), symbol, length as nat),
{
    let ghost all = histories.deep_view();
    let ghost keep = of_length(length as nat);
    let ghost grow = followed_by(symbol);
    let mut extended: Vec<History> = Vec::new();
    let mut i: usize = 0;
    assert(all.take(0).filter(keep) =~= Seq::<Seq<u32>>::empty()) by {
        reveal(Seq::filter);
    }
    assert(extended.deep_view() =~= all.take(0).filter(keep).map_values(grow));
    while i < histories.len()
        invariant
            all == histories.deep_view(),
            keep == of_length(length as nat),
            grow == followed_by(symbol),
            i <= histories.len(),
            extended.deep_view() == all.take(i as int).filter(keep).map_values(grow),
        decreases histories.len() - i,
    {
        let ghost before = extended;
        proof {
            all.lemma_take_succ_push(i as int);
            all.take(i as int).lemma_filter_push(all[i as int], keep);
            lemma_deep_view(*histories);
        }
        if histories[i].len() == length {
            let mut longer = slice_to_vec(histories[i].as_slice());
            longer.push(symbol);
            extended.push(longer);
            proof {
                all.take(i as int).filter(keep).lemma_push_map_commute(grow, all[i as int]);
                lemma_deep_view(before);
                lemma_deep_view(extended);
                assert(extended.deep_view() =~= before.deep_view().push(
                    all[i as int].push(symbol),
                ));
            }
        }
        i += 1;
    }
    assert(all.take(i as int) =~= all);
    extended
}

/// The candidates that a state gives rise to in the given generation, each with
/// its distribution.
fn successors_of(state: &CausalState, alphabet: &Vec<u32>, data: &[u32], generation: usize) -> (found:
    Vec<CausalState>)
    ensures
        histories_of(found@) == successors(
            state.histories.deep_view(),
            alphabet@,
            data@,
            generation as nat,
            alphabet.len() as nat,
        ),
        estimated(found@, data@, alphabet@),
{
    let ghost parent = state.histories.deep_view();
    let mut found: Vec<CausalState> = Vec::new();
    let mut k: usize = 0;
    assert(histories_of(found@) =~= Seq::<Group>::empty());
    while k < alphabet.len()
        invariant
            parent == state.histories.deep_view(),
            k <= alphabet.len(),
            histories_of(found@) == successors(
                parent,
                alphabet@,
                data@,
                generation as nat,
                k as nat,
            ),
            estimated(found@, data@, alphabet@),
        decreases alphabet.len() - k,
    {
        let ghost before = found@;
        let extended = extend_histories(&state.histories, alphabet[k], generation);
        if extended.len() > 0 {
            let dist = compute_next_symbol_dist(&extended, data, alphabet);
            proof {
                lemma_support_of_estimate(dist, extended.deep_view(), data@, alphabet@);
            }
            if !dist.has_no_support() {
                found.push(CausalState { histories: extended, next_symbol_dist: dist });
                assert(histories_of(found@) =~= histories_of(before).push(extended.deep_view()));
            }
        }
        k += 1;
    }
    found
}

/// The reconstruction of causal states from one observed sequence.
///
/// `run` starts it and `resume` carries it on. Each of them works until all
/// generations are made or until a chi-square test has to decide whether two
/// distributions are similar; the test is the caller's to make.
pub struct CSSR {
    states: Vec<CausalState>,
    alphabet: Vec<u32>,
    data: Vec<u32>,
    max_history: usize,
    generation: usize,
    upcoming: Vec<CausalState>,
    parent: usize,
    candidates: Vec<CausalState>,
    groups: Vec<CausalState>,
    group: usize,
    phase: Phase,
    freedom: usize,
}

impl View for CSSR {
    type V = Machine;

    closed spec fn view(&self) -> Machine {
        Machine {
            alphabet: self.alphabet@,
            data: self.data@,
            max_history: self.max_history as nat,
            generation: self.generation as nat,
            states: histories_of(self.states@),
            next: histories_of(self.upcoming@),
            parent: self.parent as nat,
            candidates: histories_of(self.candidates@),
            groups: histories_of(self.groups@),
            group: self.group as nat,
            phase: self.phase,
        }
    }
}

impl CSSR {
    /// The machine is in order: it is consistent, every state has the
    /// distribution estimated for its histories, and a machine that waits has a
    /// candidate and a group that only a chi-square test can tell apart.
    pub closed spec fn wf(&self) -> bool {
        &&& consistent(self@)
        &&& estimated(self.states@, self.data@, self.alphabet@)
        &&& estimated(self.upcoming@, self.data@, self.alphabet@)
        &&& estimated(self.candidates@, self.data@, self.alphabet@)
        &&& estimated(self.groups@, self.data@, self.alphabet@)
        &&& self.phase == Phase::Awaiting ==> {
            &&& self.candidates.len() > 0
            &&& self.group < self.groups.len()
            &&& self@.verdict() == Comparison::Undecided { degrees_of_freedom: self.freedom }
        }
    }

    /// A reconstruction over the given alphabet, with no data yet and no states.
    pub fn new(alphabet: HashSet<u32>) -> (cssr: Self)
        ensures
            cssr.wf(),
            ascending(cssr@.alphabet),
            cssr@.alphabet.to_set() == alphabet@,
            cssr@ == Machine::idle(cssr@.alphabet),
    {
        let cssr = CSSR {
            states: Vec::new(),
            alphabet: ordered_alphabet(&alphabet),
            data: Vec::new(),
            max_history: 0,
            generation: 0,
            upcoming: Vec::new(),
            parent: 0,
            candidates: Vec::new(),
            groups: Vec::new(),
            group: 0,
            phase: Phase::Done,
            freedom: 0,
        };
        assert(cssr@.states =~= Seq::<Group>::empty());
        assert(cssr@.next =~= Seq::<Group>::empty());
        assert(cssr@.candidates =~= Seq::<Group>::empty());
        assert(cssr@.groups =~= Seq::<Group>::empty());
        assert(cssr@.groups + cssr@.candidates =~= Seq::<Group>::empty());
        cssr
    }

    /// A machine in order is consistent: its alphabet ascends, its states and
    /// those in the making part their histories, and a history has at most as
    /// many symbols as there are generations made.
    pub proof fn lemma_consistent(&self)
        requires
            self.wf(),
        ensures
            consistent(self@),
    {
    }

    /// The alphabet, in ascending order.
    pub fn alphabet(&self) -> (alphabet: &Vec<u32>)
        ensures
            alphabet@ == self@.alphabet,
    {
        &self.alphabet
    }

    /// Where the machine stands: waiting for an answer, or done.
    pub fn phase(&self) -> (phase: Phase)
        ensures
            phase == self@.phase,
    {
        self.phase
    }

    /// The causal states of the last generation made. Once the machine has
    /// finished they are the result.
    pub fn states(&self) -> (states: &Vec<CausalState>)
        requires
            self.wf(),
        ensures
            histories_of(states@) == self@.states,
            estimated(states@, self@.data, self@.alphabet),
            partitioned(histories_of(states@)),
    {
        &self.states
    }

    /// Starts a reconstruction on `data`, with `max_history` generations to make,
    /// from the one state that holds the empty history, and carries it on until
    /// it is finished or has a question.
    pub fn run(&mut self, data: &[u32], max_history: usize) -> (step: Step)
        requires
            old(self).wf(),
        ensures
            final(self).wf(),
            final(self)@ == Machine::start(old(self)@.alphabet, data@, max_history as nat).settle(),
            consistent(final(self)@),
            asks(final(self)@, step),
    {
        let mut histories: Vec<History> = Vec::new();
        histories.push(Vec::new());
        let next_symbol_dist = compute_next_symbol_dist(&histories, data, &self.alphabet);
        let mut states: Vec<CausalState> = Vec::new();
        states.push(CausalState { histories, next_symbol_dist });
        self.states = states;
        self.data = slice_to_vec(data);
        self.max_history = max_history;
        self.generation = 0;
        self.upcoming = Vec::new();
        self.parent = 0;
        self.candidates = Vec::new();
        self.groups = Vec::new();
        self.group = 0;
        self.phase = if max_history == 0 {
            Phase::Done
        } else {
            Phase::Extending
        };
        proof {
            let start = Machine::start(old(self)@.alphabet, data@, max_history as nat);
            lemma_start_consistent(old(self)@.alphabet, data@, max_history as nat);
            lemma_deep_view(self.states@[0].histories);
            assert(self.states@[0].histories.deep_view() =~= seq![Seq::<u32>::empty()]);
            assert(self@.states =~= start.states);
            assert(self@.next =~= start.next);
            assert(self@.candidates =~= start.candidates);
            assert(self@.groups =~= start.groups);
        }
        self.settle();
        self.question()
    }

    /// Carries the reconstruction on after the chi-square test that it asked
    /// for: `similar` says whether the candidate is similar to the reference. A
    /// machine that had no question stays as it is.
    pub fn resume(&mut self, similar: bool) -> (step: Step)
        requires
            old(self).wf(),
        ensures
            final(self).wf(),
            final(self)@ == old(self)@.answer(similar).settle(),
            consistent(final(self)@),
            asks(final(self)@, step),
    {
        match self.phase {
            Phase::Awaiting => {
                if similar {
                    self.absorb();
                } else {
                    self.reject();
                }
            },
            _ => {},
        }
        self.settle();
        self.question()
    }

    /// What the machine asks of its caller.
    fn question(&self) -> (step: Step)
        requires
            self.wf(),
            !self@.moving(),
        ensures
            asks(self@, step),
    {
        match self.phase {
            Phase::Awaiting => Step::Compare {
                candidate: self.candidates[0].next_symbol_dist.duplicate(),
                reference: self.groups[self.group].next_symbol_dist.duplicate(),
                degrees_of_freedom: self.freedom,
            },
            _ => Step::Finished,
        }
    }

    /// The machine moves on until it waits or is done.
    fn settle(&mut self)
        requires
            old(self).wf(),
        ensures
            final(self).wf(),
            final(self)@ == old(self)@.settle(),
            !final(self)@.moving(),
    {
        loop
            invariant
                self.wf(),
                self@.settle() == old(self)@.settle(),
            ensures
                self.wf(),
                self@ == old(self)@.settle(),
                !self@.moving(),
            decreases
                    if self@.moving() { 1nat } else { 0nat },
                    self@.generations_left(),
                    self@.parents_left(),
                    if self@.phase == Phase::Merging { 1nat } else { 0nat },
                    self@.candidates.len(),
                    self@.groups_left(),
        {
            match self.phase {
                Phase::Awaiting => {
                    break ;
                },
                Phase::Done => {
                    break ;
                },
                _ => {},
            }
            self.advance();
        }
    }

    /// The first candidate is not similar to the group at hand.
    fn reject(&mut self)
        requires
            old(self).wf(),
            old(self).candidates.len() > 0,
            old(self).group < old(self).groups.len(),
        ensures
            final(self).wf(),
            final(self)@ == old(self)@.reject(),
    {
        self.group = self.group + 1;
        self.phase = Phase::Merging;
    }

    /// The group at hand takes the histories of the first candidate, and the
    /// distribution estimated for all of them.
    fn absorb(&mut self)
        requires
            old(self).wf(),
            old(self).candidates.len() > 0,
            old(self).group < old(self).groups.len(),
        ensures
            final(self).wf(),
            final(self)@ == old(self)@.absorb(),
    {
        let ghost before = *self;
        let mut candidate = self.candidates.remove(0);
        let mut merged = self.groups.remove(self.group);
        let ghost own = merged.histories.deep_view();
        let ghost more = candidate.histories.deep_view();
        merged.histories.append(&mut candidate.histories);
        assert(merged.histories.deep_view() =~= own + more);
        merged.next_symbol_dist = compute_next_symbol_dist(
            &merged.histories,
            self.data.as_slice(),
            &self.alphabet,
        );
        self.groups.insert(self.group, merged);
        self.group = 0;
        self.phase = Phase::Merging;
        proof {
            lemma_absorb(before@);
            assert(self@.candidates =~= before@.candidates.drop_first());
            assert(self@.groups =~= before@.groups.update(
                before@.group as int,
                before@.groups[before@.group as int] + before@.candidates[0],
            ));
        }
    }

    /// One move of the machine.
    fn advance(&mut self)
        requires
            old(self).wf(),
            old(self)@.moving(),
        ensures
            final(self).wf(),
            final(self)@ == old(self)@.advance(),
    {
        let ghost before = *self;
        proof {
            lemma_advance_consistent(before@);
        }
        match self.phase {
            Phase::Extending => {
                if self.generation >= self.max_history {
                    self.phase = Phase::Done;
                } else if self.parent >= self.states.len() {
                    let mut made: Vec<CausalState> = Vec::new();
                    std::mem::swap(&mut self.upcoming, &mut made);
                    self.states = made;
                    self.generation = self.generation + 1;
                    self.parent = 0;
                    self.phase = if self.generation >= self.max_history {
                        Phase::Done
                    } else {
                        Phase::Extending
                    };
                    assert(self@.next =~= Seq::<Group>::empty());
                } else {
                    let found = successors_of(
                        &self.states[self.parent],
                        &self.alphabet,
                        self.data.as_slice(),
                        self.generation,
                    );
                    if found.len() == 0 {
                        let carried = copy_state(&self.states[self.parent]);
                        self.upcoming.push(carried);
                        assert(self@.next =~= before@.next.push(
                            before@.states[before@.parent as int],
                        ));
                    } else {
                        self.candidates = found;
                        self.groups = Vec::new();
                        self.group = 0;
                        self.phase = Phase::Merging;
                        assert(self@.groups =~= Seq::<Group>::empty());
                    }
                    self.parent = self.parent + 1;
                }
            },
            Phase::Merging => {
                if self.candidates.len() == 0 {
                    self.upcoming.append(&mut self.groups);
                    self.group = 0;
                    self.phase = Phase::Extending;
                    assert(self@.next =~= before@.next + before@.groups);
                    assert(self@.groups =~= Seq::<Group>::empty());
                } else if self.group >= self.groups.len() {
                    let candidate = self.candidates.remove(0);
                    self.groups.push(candidate);
                    self.group = 0;
                    assert(self@.candidates =~= before@.candidates.drop_first());
                    assert(self@.groups =~= before@.groups.push(before@.candidates[0]));
                } else {
                    let a = self.candidates[0].next_symbol_dist.support_flags();
                    let b = self.groups[self.group].next_symbol_dist.support_flags();
                    proof {
                        lemma_support_of_estimate(
                            self.candidates[0].next_symbol_dist,
                            self@.candidates[0],
                            self@.data,
                            self@.alphabet,
                        );
                        lemma_support_of_estimate(
                            self.groups[self.group as int].next_symbol_dist,
                            self@.groups[self@.group as int],
                            self@.data,
                            self@.alphabet,
                        );
                    }
                    match compare_supports(a.as_slice(), b.as_slice()) {
                        Comparison::Dissimilar => {
                            self.reject();
                        },
                        Comparison::Similar => {
                            self.absorb();
                        },
                        Comparison::Undecided { degrees_of_freedom } => {
                            self.freedom = degrees_of_freedom;
                            self.phase = Phase::Awaiting;
                        },
                    }
                }
            },
            _ => {},
        }
    }
}

} // verus!
