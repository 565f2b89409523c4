//! Every history that the data shows is in a state: where the alphabet holds every
//! symbol of the data, each run of symbols that has a symbol after it, and is as
//! long as the generation, belongs to one of the states.

use crate::alphabet::ascending;
use crate::estimator::{context_matches, precedes, spelled, tally};
use crate::model::{
    extend, lemma_replay_data, lemma_settle_data, of_length, successors, supported, Group,
    Machine, Phase,
};
use crate::partition::{
    consistent, lemma_advance_consistent, lemma_answer_consistent, lemma_settle_consistent,
    lemma_start_consistent, partitioned,
};
use vstd::prelude::*;

verus! {

/// The `length` symbols right before `point`.
pub open spec fn window(data: Seq<u32>, point: int, length: nat) -> Seq<u32> {
    data.subrange(point - length, point)
}

/// The `length + 1` symbols right before `point`.
pub open spec fn grown(data: Seq<u32>, point: int, length: nat) -> Seq<u32> {
    data.subrange(point - length - 1, point)
}

/// The first `length` of the `length + 1` symbols right before `point`.
pub open spec fn stem(data: Seq<u32>, point: int, length: nat) -> Seq<u32> {
    data.subrange(point - length - 1, point - 1)
}

/// Some state holds the history.
pub open spec fn held(states: Seq<Group>, history: Seq<u32>) -> bool {
    exists|s: int, i: int|
        0 <= s < states.len() && 0 <= i < states[s].len() && #[trigger] states[s][i] == history
}

/// Every run of `length` symbols that the data shows before a symbol is held by a state.
pub open spec fn covers(states: Seq<Group>, data: Seq<u32>, length: nat) -> bool {
    forall|point: int|
        length <= point < data.len() ==> held(states, #[trigger] window(data, point, length))
}

/// What holds of a machine whose alphabet holds every symbol of its data: the
/// states hold every history that the data shows, and so do the states in the
/// making, as far as they go.
pub open spec fn covering(machine: Machine) -> bool {
    &&& spelled(machine.data, machine.alphabet)
    &&& covers(machine.states, machine.data, machine.generation)
    &&& forall|point: int|
        machine.generation < point < machine.data.len() && held(
            machine.states.take(machine.turned() as int),
            stem(machine.data, point, machine.generation),
        ) ==> held(machine.next, #[trigger] grown(machine.data, point, machine.generation))
    &&& machine.phase == Phase::Merging || machine.phase == Phase::Awaiting ==> forall|point: int|
        machine.generation < point < machine.data.len() && machine.states[machine.parent
            - 1].contains(stem(machine.data, point, machine.generation)) ==> held(
            machine.groups + machine.candidates,
            #[trigger] grown(machine.data, point, machine.generation),
        )
}

/// A symbol that follows one of the histories at some position is tallied.
proof fn lemma_tally_hit(histories: Group, data: Seq<u32>, point: int, end: nat)
    requires
        0 <= point < end,
        context_matches(histories, data, point),
    ensures
        tally(histories, data, data[point], end) > 0,
    decreases end,
{
    if point < end - 1 {
        lemma_tally_hit(histories, data, point, (end - 1) as nat);
    }
}

/// A candidate that is not empty and has support is among the successors once
/// its symbol has had its turn.
proof fn lemma_successors_hold(
    state: Group,
    alphabet: Seq<u32>,
    data: Seq<u32>,
    length: nat,
    k: int,
    upto: nat,
)
    requires
        0 <= k < upto <= alphabet.len(),
        extend(state, alphabet[k], length).len() > 0,
        supported(extend(state, alphabet[k], length), data, alphabet),
    ensures
        successors(state, alphabet, data, length, upto).contains(
            extend(state, alphabet[k], length),
        ),
    decreases upto,
{
    let found = successors(state, alphabet, data, length, upto);
    let earlier = successors(state, alphabet, data, length, (upto - 1) as nat);
    let candidate = extend(state, alphabet[k], length);
    if k == upto - 1 {
        assert(found == earlier.push(candidate));
        assert(found[earlier.len() as int] == candidate);
    } else {
        lemma_successors_hold(state, alphabet, data, length, k, (upto - 1) as nat);
        let at = choose|at: int| 0 <= at < earlier.len() && earlier[at] == candidate;
        assert(found[at] == candidate);
    }
}

/// A history of the state that the data shows before two more symbols is, with
/// the first of them, held by a successor of the state.
proof fn lemma_successors_cover(
    state: Group,
    alphabet: Seq<u32>,
    data: Seq<u32>,
    length: nat,
    point: int,
)
    requires
        spelled(data, alphabet),
        length < point < data.len(),
        state.contains(stem(data, point, length)),
    ensures
        held(
            successors(state, alphabet, data, length, alphabet.len()),
            grown(data, point, length),
        ),
{
    let short = stem(data, point, length);
    let long = grown(data, point, length);
    let symbol = data[point - 1];
    assert(alphabet.contains(data[point - 1]));
    let k = choose|k: int| 0 <= k < alphabet.len() && alphabet[k] == symbol;
    let candidate = extend(state, alphabet[k], length);
    let kept = state.filter(of_length(length));
    let at = choose|at: int| 0 <= at < state.len() && state[at] == short;
    state.lemma_filter_contains(of_length(length), at);
    let i = choose|i: int| 0 <= i < kept.len() && kept[i] == short;
    assert(candidate[i] == short.push(symbol));
    assert(short.push(symbol) =~= long);
    assert(precedes(candidate[i], data, point));
    assert(context_matches(candidate, data, point));
    lemma_tally_hit(candidate, data, point, data.len());
    assert(alphabet.contains(data[point]));
    let next = choose|next: int| 0 <= next < alphabet.len() && alphabet[next] == data[point];
    assert(tally(candidate, data, alphabet[next], data.len()) > 0);
    lemma_successors_hold(state, alphabet, data, length, k, alphabet.len());
    let found = successors(state, alphabet, data, length, alphabet.len());
    let c = choose|c: int| 0 <= c < found.len() && found[c] == candidate;
    assert(found[c][i] == long);
}

/// The machine before the first generation holds the empty history, which comes
/// before every symbol.
pub proof fn lemma_start_covering(alphabet: Seq<u32>, data: Seq<u32>, max_history: nat)
    requires
        spelled(data, alphabet),
    ensures
        covering(Machine::start(alphabet, data, max_history)),
{
    let machine = Machine::start(alphabet, data, max_history);
    assert forall|point: int| 0 <= point < data.len() implies held(
        machine.states,
        #[trigger] window(data, point, 0),
    ) by {
        assert(machine.states[0][0] =~= window(data, point, 0));
    }
    assert(machine.states.take(0) =~= Seq::<Group>::empty());
}

/// A history held by some of the states is held by all of them together.
proof fn lemma_held_among(some: Seq<Group>, all: Seq<Group>, offset: int, history: Seq<u32>)
    requires
        held(some, history),
        0 <= offset,
        offset + some.len() <= all.len(),
        forall|s: int| 0 <= s < some.len() ==> #[trigger] some[s] == all[offset + s],
    ensures
        held(all, history),
{
    let (s, i) = choose|s: int, i: int|
        0 <= s < some.len() && 0 <= i < some[s].len() && #[trigger] some[s][i] == history;
    assert(some[s] == all[offset + s]);
    assert(all[offset + s][i] == history);
}

/// What the pool held before a group took the first candidate, it holds after.
proof fn lemma_absorb_holds(machine: Machine, history: Seq<u32>)
    requires
        machine.candidates.len() > 0,
        machine.group < machine.groups.len(),
        held(machine.groups + machine.candidates, history),
    ensures
        held(machine.absorb().groups + machine.absorb().candidates, history),
{
    let after = machine.absorb();
    let pool = machine.groups + machine.candidates;
    let fresh = after.groups + after.candidates;
    let groups = machine.groups.len() as int;
    let at = machine.group as int;
    let (c, i) = choose|c: int, i: int|
        0 <= c < pool.len() && 0 <= i < pool[c].len() && #[trigger] pool[c][i] == history;
    if c == at {
        assert(fresh[at] == machine.groups[at] + machine.candidates[0]);
        assert(fresh[at][i] == history);
    } else if c < groups {
        assert(fresh[c] == pool[c]);
        assert(fresh[c][i] == history);
    } else if c == groups {
        assert(pool[c] == machine.candidates[0]);
        assert(fresh[at] == machine.groups[at] + machine.candidates[0]);
        assert(fresh[at][machine.groups[at].len() + i] == history);
    } else {
        assert(fresh[c - 1] == after.candidates[c - 1 - groups]);
        assert(after.candidates[c - 1 - groups] == machine.candidates[c - groups]);
        assert(fresh[c - 1][i] == history);
    }
}

/// A group that takes the first candidate leaves the machine covering.
proof fn lemma_absorb_covering(machine: Machine)
    requires
        consistent(machine),
        covering(machine),
        machine.phase == Phase::Merging || machine.phase == Phase::Awaiting,
        machine.candidates.len() > 0,
        machine.group < machine.groups.len(),
    ensures
        covering(machine.absorb()),
{
    let after = machine.absorb();
    assert forall|point: int|
        after.generation < point < after.data.len() && after.states[after.parent - 1].contains(
            stem(after.data, point, after.generation),
        ) implies held(
        after.groups + after.candidates,
        #[trigger] grown(after.data, point, after.generation),
    ) by {
        lemma_absorb_holds(machine, grown(machine.data, point, machine.generation));
    }
}

/// One move of the machine keeps it covering.
pub proof fn lemma_advance_covering(machine: Machine)
    requires
        consistent(machine),
        covering(machine),
    ensures
        covering(machine.advance()),
{
    let after = machine.advance();
    let data = machine.data;
    let length = machine.generation;
    match machine.phase {
        Phase::Extending => {
            if machine.generation >= machine.max_history {
            } else if machine.parent >= machine.states.len() {
                assert(machine.states.take(machine.parent as int) =~= machine.states);
                assert forall|point: int| length + 1 <= point < data.len() implies held(
                    after.states,
                    #[trigger] window(data, point, length + 1),
                ) by {
                    assert(window(data, point, length + 1) == grown(data, point, length));
                    assert(stem(data, point, length) == window(data, point - 1, length));
                    assert(held(machine.states, window(data, point - 1, length)));
                }
                assert(after.states.take(0) =~= Seq::<Group>::empty());
            } else {
                let state = machine.states[machine.parent as int];
                let found = successors(
                    state,
                    machine.alphabet,
                    data,
                    length,
                    machine.alphabet.len(),
                );
                if found.len() == 0 {
                    assert forall|point: int|
                        length < point < data.len() && held(
                            after.states.take(after.turned() as int),
                            stem(data, point, length),
                        ) implies held(after.next, #[trigger] grown(data, point, length)) by {
                        let short = stem(data, point, length);
                        let wider = machine.states.take(machine.parent as int + 1);
                        let (s, i) = choose|s: int, i: int|
                            0 <= s < wider.len() && 0 <= i < wider[s].len()
                                && #[trigger] wider[s][i] == short;
                        if s < machine.parent {
                            let narrow = machine.states.take(machine.parent as int);
                            assert(narrow[s][i] == short);
                            assert(held(machine.next, grown(data, point, length)));
                            lemma_held_among(
                                machine.next,
                                after.next,
                                0,
                                grown(data, point, length),
                            );
                        } else {
                            assert(state[i] == short);
                            lemma_successors_cover(state, machine.alphabet, data, length, point);
                        }
                    }
                } else {
                    assert(after.groups + after.candidates =~= found);
                    assert forall|point: int|
                        length < point < data.len() && after.states[after.parent - 1].contains(
                            stem(data, point, length),
                        ) implies held(
                        after.groups + after.candidates,
                        #[trigger] grown(data, point, length),
                    ) by {
                        lemma_successors_cover(state, machine.alphabet, data, length, point);
                    }
                }
            }
        },
        Phase::Merging => {
            if machine.candidates.len() == 0 {
                assert(machine.groups + machine.candidates =~= machine.groups);
                assert forall|point: int|
                    length < point < data.len() && held(
                        after.states.take(after.turned() as int),
                        stem(data, point, length),
                    ) implies held(after.next, #[trigger] grown(data, point, length)) by {
                    let short = stem(data, point, length);
                    let wider = machine.states.take(machine.parent as int);
                    let (s, i) = choose|s: int, i: int|
                        0 <= s < wider.len() && 0 <= i < wider[s].len()
                            && #[trigger] wider[s][i] == short;
                    if s < machine.parent - 1 {
                        let narrow = machine.states.take(machine.parent - 1);
                        assert(narrow[s][i] == short);
                        assert(held(machine.next, grown(data, point, length)));
                        lemma_held_among(machine.next, after.next, 0, grown(data, point, length));
                    } else {
                        assert(machine.states[machine.parent - 1][i] == short);
                        assert(held(machine.groups, grown(data, point, length)));
                        lemma_held_among(
                            machine.groups,
                            after.next,
                            machine.next.len() as int,
                            grown(data, point, length),
                        );
                    }
                }
            } else if machine.group >= machine.groups.len() {
                assert(after.groups + after.candidates =~= machine.groups + machine.candidates);
            } else {
                lemma_absorb_covering(machine);
            }
        },
        Phase::Awaiting => {},
        Phase::Done => {},
    }
}

/// An answer keeps the machine covering.
pub proof fn lemma_answer_covering(machine: Machine, similar: bool)
    requires
        consistent(machine),
        covering(machine),
    ensures
        covering(machine.answer(similar)),
{
    if machine.phase == Phase::Awaiting {
        lemma_absorb_covering(machine);
    }
}

/// A covering machine stays so while it moves on.
pub proof fn lemma_settle_covering(machine: Machine)
    requires
        consistent(machine),
        covering(machine),
    ensures
        covering(machine.settle()),
    decreases
            if machine.moving() { 1nat } else { 0nat },
            machine.generations_left(),
            machine.parents_left(),
            if machine.phase == Phase::Merging { 1nat } else { 0nat },
            machine.candidates.len(),
            machine.groups_left(),
{
    if machine.moving() {
        lemma_advance_consistent(machine);
        lemma_advance_covering(machine);
        lemma_settle_covering(machine.advance());
    }
}

/// A covering machine stays so through any answers.
pub proof fn lemma_replay_covering(machine: Machine, answers: Seq<bool>)
    requires
        consistent(machine),
        covering(machine),
    ensures
        consistent(machine.replay(answers)),
        covering(machine.replay(answers)),
    decreases answers.len(),
{
    if answers.len() > 0 {
        let before = machine.replay(answers.drop_last());
        lemma_replay_covering(machine, answers.drop_last());
        lemma_answer_consistent(before, answers.last());
        lemma_answer_covering(before, answers.last());
        lemma_settle_consistent(before.answer(answers.last()));
        lemma_settle_covering(before.answer(answers.last()));
    }
}

/// Every history belongs to exactly one state. Whatever the answers, the states
/// of a reconstruction share no history, and where the alphabet holds every
/// symbol of the data, each run of symbols that the data shows before a symbol,
/// as long as the generation, is held by one of them.
pub proof fn lemma_each_history_in_one_state(
    alphabet: Seq<u32>,
    data: Seq<u32>,
    max_history: nat,
    answers: Seq<bool>,
)
    requires
        ascending(alphabet),
        spelled(data, alphabet),
    ensures
        partitioned(Machine::start(alphabet, data, max_history).settle().replay(answers).states),
        covers(
            Machine::start(alphabet, data, max_history).settle().replay(answers).states,
            data,
            Machine::start(alphabet, data, max_history).settle().replay(answers).generation,
        ),
{
    let start = Machine::start(alphabet, data, max_history);
    lemma_start_consistent(alphabet, data, max_history);
    lemma_start_covering(alphabet, data, max_history);
    lemma_settle_consistent(start);
    lemma_settle_covering(start);
    lemma_replay_covering(start.settle(), answers);
    lemma_replay_data(start.settle(), answers);
    lemma_settle_data(start);
}

} // verus!
