//! The reconstruction as a machine on sets of histories.
//!
//! A generation turns every state into its successors: each state is extended by
//! every symbol of the alphabet, the extensions that the data supports are the
//! candidates, and the candidates of one state are merged into groups, each
//! candidate joining the first group that it is similar to. Whether two groups are
//! similar is settled by their supports where that is enough; otherwise the machine
//! waits for the answer of a chi-square test that it does not make itself.

use crate::alphabet::{ascending, lemma_ascending_unique};
use crate::estimator::{occurrences, tally};
use crate::similarity::{compare, Comparison};
use vstd::prelude::*;

verus! {

/// The histories of one causal state.
pub type Group = Seq<Seq<u32>>;

/// Where the machine stands.
#[derive(Debug, Clone, Copy, PartialEq, Eq)]
pub enum Phase {
    /// About to turn to the next state of the generation.
    Extending,
    /// Placing the candidates of one state into groups.
    Merging,
    /// Waiting to hear whether the first candidate is similar to the group at hand.
    Awaiting,
    /// All generations are made.
    Done,
}

/// The predicate that holds of the histories of one length.
pub open spec fn of_length(length: nat) -> spec_fn(Seq<u32>) -> bool {
    |history: Seq<u32>| history.len() == length
}

/// The function that appends one symbol to a history.
pub open spec fn followed_by(symbol: u32) -> spec_fn(Seq<u32>) -> Seq<u32> {
    |history: Seq<u32>| history.push(symbol)
}

/// The histories of `group` that have the given length, each with `symbol` appended.
pub open spec fn extend(group: Group, symbol: u32, length: nat) -> Group {
    group.filter(of_length(length)).map_values(followed_by(symbol))
}

/// The data shows some symbol of the alphabet right after one of the histories.
pub open spec fn supported(group: Group, data: Seq<u32>, alphabet: Seq<u32>) -> bool {
    exists|k: int|
        0 <= k < alphabet.len() && tally(group, data, #[trigger] alphabet[k], data.len()) > 0
}

/// For each symbol of the alphabet, whether the data shows it right after one of
/// the histories: the support of the distribution estimated for them.
pub open spec fn estimated_support(group: Group, data: Seq<u32>, alphabet: Seq<u32>) -> Seq<bool> {
    Seq::new(
        alphabet.len(),
        |k: int|
            occurrences(group, data, data.len()) > 0 && tally(
                group,
                data,
                alphabet[k],
                data.len(),
            ) > 0,
    )
}

/// The candidates that a state gives rise to, from the first `upto` symbols of the
/// alphabet and in their order: its extension by each symbol, where that is not
/// empty and the data supports it.
pub open spec fn successors(
    group: Group,
    alphabet: Seq<u32>,
    data: Seq<u32>,
    length: nat,
    upto: nat,
) -> Seq<Group>
    decreases upto,
{
    if upto == 0 {
        Seq::empty()
    } else {
        let earlier = successors(group, alphabet, data, length, (upto - 1) as nat);
        let candidate = extend(group, alphabet[upto - 1], length);
        if candidate.len() > 0 && supported(candidate, data, alphabet) {
            earlier.push(candidate)
        } else {
            earlier
        }
    }
}

/// The state of a reconstruction.
pub struct Machine {
    /// The alphabet, in its fixed order.
    pub alphabet: Seq<u32>,
    /// The observed sequence.
    pub data: Seq<u32>,
    /// The number of generations to make.
    pub max_history: nat,
    /// The number of generations made.
    pub generation: nat,
    /// The causal states of the last generation made.
    pub states: Seq<Group>,
    /// The states of the generation in the making, as far as they are known.
    pub next: Seq<Group>,
    /// How many states of the last generation have been turned to.
    pub parent: nat,
    /// The candidates of the state at hand that are not placed yet.
    pub candidates: Seq<Group>,
    /// The groups that the placed candidates of the state at hand have formed.
    pub groups: Seq<Group>,
    /// The group that the first candidate is held against.
    pub group: nat,
    /// Where the machine stands.
    pub phase: Phase,
}

impl Machine {
    /// A machine that has nothing to do: no data, no generation to make, no state.
    pub open spec fn idle(alphabet: Seq<u32>) -> Machine {
        Machine {
            alphabet,
            data: Seq::empty(),
            max_history: 0,
            generation: 0,
            states: Seq::empty(),
            next: Seq::empty(),
            parent: 0,
            candidates: Seq::empty(),
            groups: Seq::empty(),
            group: 0,
            phase: Phase::Done,
        }
    }

    /// The machine before the first generation: one state, which holds the empty
    /// history.
    pub open spec fn start(alphabet: Seq<u32>, data: Seq<u32>, max_history: nat) -> Machine {
        Machine {
            alphabet,
            data,
            max_history,
            generation: 0,
            states: seq![seq![Seq::<u32>::empty()]],
            next: Seq::empty(),
            parent: 0,
            candidates: Seq::empty(),
            groups: Seq::empty(),
            group: 0,
            phase: if max_history == 0 {
                Phase::Done
            } else {
                Phase::Extending
            },
        }
    }

    /// What the supports say of the first candidate against the group at hand,
    /// the group being the reference.
    pub open spec fn verdict(self) -> Comparison {
        compare(
            estimated_support(self.candidates[0], self.data, self.alphabet),
            estimated_support(self.groups[self.group as int], self.data, self.alphabet),
        )
    }

    /// The first candidate is not similar to the group at hand: on to the next group.
    pub open spec fn reject(self) -> Machine {
        Machine { group: self.group + 1, phase: Phase::Merging, ..self }
    }

    /// The first candidate is similar to the group at hand: the group takes its
    /// histories, after its own.
    pub open spec fn absorb(self) -> Machine {
        Machine {
            groups: self.groups.update(
                self.group as int,
                self.groups[self.group as int] + self.candidates[0],
            ),
            candidates: self.candidates.drop_first(),
            group: 0,
            phase: Phase::Merging,
            ..self
        }
    }

    /// One move of the machine. It stays where it is while it waits and when it
    /// is done.
    pub open spec fn advance(self) -> Machine {
        match self.phase {
            Phase::Extending => {
                if self.generation >= self.max_history {
                    Machine { phase: Phase::Done, ..self }
                } else if self.parent >= self.states.len() {
                    Machine {
                        generation: self.generation + 1,
                        states: self.next,
                        next: Seq::empty(),
                        parent: 0,
                        phase: if self.generation + 1 >= self.max_history {
                            Phase::Done
                        } else {
                            Phase::Extending
                        },
                        ..self
                    }
                } else {
                    let state = self.states[self.parent as int];
                    let found = successors(
                        state,
                        self.alphabet,
                        self.data,
                        self.generation,
                        self.alphabet.len(),
                    );
                    if found.len() == 0 {
                        Machine { next: self.next.push(state), parent: self.parent + 1, ..self }
                    } else {
                        Machine {
                            parent: self.parent + 1,
                            candidates: found,
                            groups: Seq::empty(),
                            group: 0,
                            phase: Phase::Merging,
                            ..self
                        }
                    }
                }
            },
            Phase::Merging => {
                if self.candidates.len() == 0 {
                    Machine {
                        next: self.next + self.groups,
                        groups: Seq::empty(),
                        group: 0,
                        phase: Phase::Extending,
                        ..self
                    }
                } else if self.group >= self.groups.len() {
                    Machine {
                        groups: self.groups.push(self.candidates[0]),
                        candidates: self.candidates.drop_first(),
                        group: 0,
                        ..self
                    }
                } else {
                    match self.verdict() {
                        Comparison::Dissimilar => self.reject(),
                        Comparison::Similar => self.absorb(),
                        Comparison::Undecided { .. } => Machine { phase: Phase::Awaiting, ..self },
                    }
                }
            },
            Phase::Awaiting => self,
            Phase::Done => self,
        }
    }

    /// The machine after it has heard whether the first candidate is similar to
    /// the group at hand. A machine that is not waiting stays as it is.
    pub open spec fn answer(self, similar: bool) -> Machine {
        if self.phase != Phase::Awaiting {
            self
        } else if similar {
            self.absorb()
        } else {
            self.reject()
        }
    }

    /// The machine after it has heard the given answers, one after the other,
    /// moving on after each until it waits again or is done.
    pub open spec fn replay(self, answers: Seq<bool>) -> Machine
        decreases answers.len(),
    {
        if answers.len() == 0 {
            self
        } else {
            self.replay(answers.drop_last()).answer(answers.last()).settle()
        }
    }

    /// How many states of the last generation have their successors among the
    /// states of the next.
    pub open spec fn turned(self) -> nat {
        if self.phase == Phase::Merging || self.phase == Phase::Awaiting {
            (self.parent - 1) as nat
        } else {
            self.parent
        }
    }

    /// The machine neither waits nor is done.
    pub open spec fn moving(self) -> bool {
        self.phase == Phase::Extending || self.phase == Phase::Merging
    }

    /// How many generations are still to make.
    pub open spec fn generations_left(self) -> nat {
        if self.generation <= self.max_history {
            (self.max_history - self.generation) as nat
        } else {
            0
        }
    }

    /// How many states of the last generation have not been turned to.
    pub open spec fn parents_left(self) -> nat {
        if self.parent <= self.states.len() {
            (self.states.len() - self.parent) as nat
        } else {
            0
        }
    }

    /// How many groups the first candidate has not been held against.
    pub open spec fn groups_left(self) -> nat {
        if self.group <= self.groups.len() {
            (self.groups.len() - self.group) as nat
        } else {
            0
        }
    }

    /// The machine moved on until it waits or is done. It gets there: each move
    /// makes a generation, turns to a state, places a candidate or passes a group.
    pub open spec fn settle(self) -> Machine
        decreases
            if self.moving() { 1nat } else { 0nat },
            self.generations_left(),
            self.parents_left(),
            if self.phase == Phase::Merging { 1nat } else { 0nat },
            self.candidates.len(),
            self.groups_left(),
    {
        if self.moving() {
            self.advance().settle()
        } else {
            self
        }
    }
}

/// Moving on changes neither the data nor the alphabet.
pub proof fn lemma_settle_data(machine: Machine)
    ensures
        machine.settle().data == machine.data,
        machine.settle().alphabet == machine.alphabet,
        machine.settle().max_history == machine.max_history,
    decreases
            if machine.moving() { 1nat } else { 0nat },
            machine.generations_left(),
            machine.parents_left(),
            if machine.phase == Phase::Merging { 1nat } else { 0nat },
            machine.candidates.len(),
            machine.groups_left(),
{
    if machine.moving() {
        lemma_settle_data(machine.advance());
    }
}

/// Answers change neither the data nor the alphabet.
pub proof fn lemma_replay_data(machine: Machine, answers: Seq<bool>)
    ensures
        machine.replay(answers).data == machine.data,
        machine.replay(answers).alphabet == machine.alphabet,
        machine.replay(answers).max_history == machine.max_history,
    decreases answers.len(),
{
    if answers.len() > 0 {
        let before = machine.replay(answers.drop_last());
        lemma_replay_data(machine, answers.drop_last());
        lemma_settle_data(before.answer(answers.last()));
    }
}

/// A reconstruction is reproducible: the symbols of the alphabet, the data, the
/// number of generations and the answers heard leave one outcome, in whatever
/// order the symbols were given.
pub proof fn lemma_reproducible(
    first: Seq<u32>,
    second: Seq<u32>,
    data: Seq<u32>,
    max_history: nat,
    answers: Seq<bool>,
)
    requires
        ascending(first),
        ascending(second),
        first.to_set() == second.to_set(),
    ensures
        Machine::start(first, data, max_history).settle().replay(answers) == Machine::start(
            second,
            data,
            max_history,
        ).settle().replay(answers),
{
    lemma_ascending_unique(first, second);
}

} // verus!
