//! What the machine computes, generation by generation.
//!
//! Given a relation that says of any two groups of histories whether a chi-square
//! test finds their distributions similar, the causal states of each generation are
//! a plain function of the data. The machine arrives at them whenever the answers
//! that it hears are those of the relation.

use crate::alphabet::ascending;
use crate::model::{
    estimated_support, lemma_replay_data, lemma_settle_data, successors, Group, Machine, Phase,
};
use crate::partition::{
    consistent, lemma_advance_consistent, lemma_answer_consistent, lemma_settle_consistent,
    lemma_start_consistent,
};
use crate::similarity::{compare, Comparison};
use vstd::prelude::*;

verus! {

/// An observed process, and what a chi-square test says of any two groups of
/// histories, the second being the reference.
pub struct Process {
    pub alphabet: Seq<u32>,
    pub data: Seq<u32>,
    pub test: spec_fn(Group, Group) -> bool,
}

impl Process {
    /// The equivalence test: whether `candidate` is similar to `reference`. The
    /// supports decide where they can, the chi-square test where they cannot.
    pub open spec fn similar(self, candidate: Group, reference: Group) -> bool {
        match compare(
            estimated_support(candidate, self.data, self.alphabet),
            estimated_support(reference, self.data, self.alphabet),
        ) {
            Comparison::Dissimilar => false,
            Comparison::Similar => true,
            Comparison::Undecided { .. } => (self.test)(candidate, reference),
        }
    }

    /// The groups after `candidate` has joined the first group, from `from` on,
    /// that it is similar to, or has become a group of its own after them.
    pub open spec fn place(self, groups: Seq<Group>, candidate: Group, from: nat) -> Seq<Group>
        decreases groups.len() - from,
    {
        if from >= groups.len() {
            groups.push(candidate)
        } else if self.similar(candidate, groups[from as int]) {
            groups.update(from as int, groups[from as int] + candidate)
        } else {
            self.place(groups, candidate, from + 1)
        }
    }

    /// The groups after all candidates have been placed, one after the other; the
    /// first of them is held against the groups from `from` on only.
    pub open spec fn merge(self, groups: Seq<Group>, candidates: Seq<Group>, from: nat) -> Seq<
        Group,
    >
        decreases candidates.len(),
    {
        if candidates.len() == 0 {
            groups
        } else {
            self.merge(self.place(groups, candidates[0], from), candidates.drop_first(), 0)
        }
    }

    /// What becomes of a state whose histories have up to `length` symbols: itself
    /// if it has no candidates, else the groups that its candidates merge into.
    pub open spec fn offspring(self, state: Group, length: nat) -> Seq<Group> {
        let found = successors(state, self.alphabet, self.data, length, self.alphabet.len());
        if found.len() == 0 {
            seq![state]
        } else {
            self.merge(Seq::empty(), found, 0)
        }
    }

    /// What becomes of the first `upto` states, in their order.
    pub open spec fn grow(self, states: Seq<Group>, upto: nat, length: nat) -> Seq<Group>
        decreases upto,
    {
        if upto == 0 {
            Seq::empty()
        } else {
            self.grow(states, (upto - 1) as nat, length) + self.offspring(
                states[upto - 1],
                length,
            )
        }
    }

    /// The causal states after `generations` generations.
    pub open spec fn states(self, generations: nat) -> Seq<Group>
        decreases generations,
    {
        if generations == 0 {
            seq![seq![Seq::<u32>::empty()]]
        } else {
            let before = self.states((generations - 1) as nat);
            self.grow(before, before.len(), (generations - 1) as nat)
        }
    }

    /// The machine is on its way to the states of this process: it has the
    /// states of its generation, those of the next as far as it has turned to
    /// their parents, and its groups and candidates merge into what becomes of
    /// the state at hand.
    pub open spec fn leads(self, machine: Machine) -> bool {
        &&& machine.alphabet == self.alphabet
        &&& machine.data == self.data
        &&& machine.states == self.states(machine.generation)
        &&& machine.next == self.grow(machine.states, machine.turned(), machine.generation)
        &&& machine.phase == Phase::Merging || machine.phase == Phase::Awaiting ==> self.merge(
            machine.groups,
            machine.candidates,
            machine.group,
        ) == self.offspring(machine.states[machine.parent - 1], machine.generation)
        &&& machine.phase == Phase::Awaiting ==> machine.verdict() is Undecided
    }

    /// Each of the answers is what the test says of the question that the
    /// machine had at that moment.
    pub open spec fn gives(self, machine: Machine, answers: Seq<bool>) -> bool
        decreases answers.len(),
    {
        if answers.len() == 0 {
            true
        } else {
            let before = machine.replay(answers.drop_last());
            &&& self.gives(machine, answers.drop_last())
            &&& before.phase == Phase::Awaiting ==> answers.last() == (self.test)(
                before.candidates[0],
                before.groups[before.group as int],
            )
        }
    }

    /// The machine before the first generation leads to the states of the process.
    pub proof fn lemma_start_leads(self, max_history: nat)
        ensures
            self.leads(Machine::start(self.alphabet, self.data, max_history)),
    {
    }

    /// One move keeps the machine on its way.
    pub proof fn lemma_advance_leads(self, machine: Machine)
        requires
            consistent(machine),
            self.leads(machine),
        ensures
            self.leads(machine.advance()),
    {
        let after = machine.advance();
        match machine.phase {
            Phase::Extending => {
                if machine.generation >= machine.max_history {
                } else if machine.parent >= machine.states.len() {
                } else {
                    let state = machine.states[machine.parent as int];
                    let found = successors(
                        state,
                        machine.alphabet,
                        machine.data,
                        machine.generation,
                        machine.alphabet.len(),
                    );
                    if found.len() == 0 {
                        assert(machine.next.push(state) =~= machine.next + seq![state]);
                    }
                }
            },
            Phase::Merging => {
                if machine.candidates.len() == 0 {
                } else if machine.group >= machine.groups.len() {
                } else {
                }
            },
            Phase::Awaiting => {},
            Phase::Done => {},
        }
    }

    /// The answer of the test keeps the machine on its way.
    pub proof fn lemma_answer_leads(self, machine: Machine, similar: bool)
        requires
            consistent(machine),
            self.leads(machine),
            machine.phase == Phase::Awaiting ==> similar == (self.test)(
                machine.candidates[0],
                machine.groups[machine.group as int],
            ),
        ensures
            self.leads(machine.answer(similar)),
    {
    }

    /// The machine stays on its way while it moves on.
    pub proof fn lemma_settle_leads(self, machine: Machine)
        requires
            consistent(machine),
            self.leads(machine),
        ensures
            self.leads(machine.settle()),
        decreases
                if machine.moving() { 1nat } else { 0nat },
                machine.generations_left(),
                machine.parents_left(),
                if machine.phase == Phase::Merging { 1nat } else { 0nat },
                machine.candidates.len(),
                machine.groups_left(),
    {
        if machine.moving() {
            lemma_advance_consistent(machine);
            self.lemma_advance_leads(machine);
            self.lemma_settle_leads(machine.advance());
        }
    }

    /// The machine stays on its way through the answers of the test.
    pub proof fn lemma_replay_leads(self, machine: Machine, answers: Seq<bool>)
        requires
            consistent(machine),
            self.leads(machine),
            self.gives(machine, answers),
        ensures
            consistent(machine.replay(answers)),
            self.leads(machine.replay(answers)),
        decreases answers.len(),
    {
        if answers.len() > 0 {
            let before = machine.replay(answers.drop_last());
            self.lemma_replay_leads(machine, answers.drop_last());
            lemma_answer_consistent(before, answers.last());
            self.lemma_answer_leads(before, answers.last());
            lemma_settle_consistent(before.answer(answers.last()));
            self.lemma_settle_leads(before.answer(answers.last()));
        }
    }

    /// A reconstruction that has heard the answers of the test, and is done, has
    /// the causal states of the last generation.
    pub proof fn lemma_outcome(self, max_history: nat, answers: Seq<bool>)
        requires
            ascending(self.alphabet),
            self.gives(Machine::start(self.alphabet, self.data, max_history).settle(), answers),
            Machine::start(self.alphabet, self.data, max_history).settle().replay(answers).phase
                == Phase::Done,
        ensures
            Machine::start(self.alphabet, self.data, max_history).settle().replay(answers).states
                == self.states(max_history),
    {
        let start = Machine::start(self.alphabet, self.data, max_history);
        lemma_start_consistent(self.alphabet, self.data, max_history);
        self.lemma_start_leads(max_history);
        lemma_settle_consistent(start);
        self.lemma_settle_leads(start);
        self.lemma_replay_leads(start.settle(), answers);
        lemma_settle_data(start);
        lemma_replay_data(start.settle(), answers);
    }
}

} // verus!
