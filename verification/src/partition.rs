//! What holds of the machine at every moment: the states of a generation share
//! no history, and the histories of one state have one length.

use crate::alphabet::ascending;
use crate::model::{extend, of_length, successors, Group, Machine, Phase};
use vstd::prelude::*;

verus! {

/// All histories of the group have the same length.
pub open spec fn uniform(group: Group) -> bool {
    forall|i: int, j: int|
        0 <= i < group.len() && 0 <= j < group.len() ==> (#[trigger] group[i]).len() == (
        #[trigger] group[j]).len()
}

/// The two groups share no history.
pub open spec fn disjoint(a: Group, b: Group) -> bool {
    forall|i: int, j: int| 0 <= i < a.len() && 0 <= j < b.len() ==> #[trigger] a[i] != #[trigger] b[j]
}

/// The states part their histories: no state holds a history twice, no two states
/// share one, and the histories of each state have one length.
pub open spec fn partitioned(states: Seq<Group>) -> bool {
    &&& forall|s: int|
        0 <= s < states.len() ==> (#[trigger] states[s]).no_duplicates() && uniform(states[s])
    &&& forall|s: int, t: int|
        0 <= s < t < states.len() ==> disjoint(#[trigger] states[s], #[trigger] states[t])
}

/// Every state holds a history.
pub open spec fn inhabited(states: Seq<Group>) -> bool {
    forall|s: int| 0 <= s < states.len() ==> (#[trigger] states[s]).len() > 0
}

/// No history is longer than `length`.
pub open spec fn within(states: Seq<Group>, length: nat) -> bool {
    forall|s: int, i: int|
        0 <= s < states.len() && 0 <= i < states[s].len() ==> (#[trigger] states[s][i]).len()
            <= length
}

/// Every history of the pool is a history of `parent` with one symbol more, and
/// has `length + 1` symbols.
pub open spec fn offspring(pool: Seq<Group>, parent: Group, length: nat) -> bool {
    forall|c: int, i: int|
        0 <= c < pool.len() && 0 <= i < pool[c].len() ==> {
            &&& (#[trigger] pool[c][i]).len() == length + 1
            &&& parent.contains(pool[c][i].drop_last())
        }
}

/// No history of `next` is a history of the states from `from` on, nor one of
/// them with one symbol more.
pub open spec fn clear(next: Seq<Group>, states: Seq<Group>, from: nat, length: nat) -> bool {
    forall|n: int, i: int, q: int, j: int|
        0 <= n < next.len() && 0 <= i < next[n].len() && from <= q < states.len() && 0 <= j
            < states[q].len() ==> {
            &&& #[trigger] next[n][i] != #[trigger] states[q][j]
            &&& next[n][i].len() == length + 1 ==> next[n][i].drop_last() != states[q][j]
        }
}

/// What holds of a machine at every moment.
pub open spec fn consistent(machine: Machine) -> bool {
    &&& ascending(machine.alphabet)
    &&& machine.generation <= machine.max_history
    &&& machine.parent <= machine.states.len()
    &&& partitioned(machine.states)
    &&& inhabited(machine.states)
    &&& within(machine.states, machine.generation)
    &&& partitioned(machine.next)
    &&& inhabited(machine.next)
    &&& within(machine.next, machine.generation + 1)
    &&& clear(machine.next, machine.states, machine.turned(), machine.generation)
    &&& if machine.phase == Phase::Merging || machine.phase == Phase::Awaiting {
        &&& machine.parent >= 1
        &&& machine.generation < machine.max_history
        &&& partitioned(machine.groups + machine.candidates)
        &&& inhabited(machine.groups + machine.candidates)
        &&& offspring(
            machine.groups + machine.candidates,
            machine.states[machine.parent - 1],
            machine.generation,
        )
    } else {
        &&& machine.candidates.len() == 0
        &&& machine.groups.len() == 0
    }
    &&& machine.phase == Phase::Awaiting ==> machine.candidates.len() > 0 && machine.group
        < machine.groups.len()
    &&& machine.phase == Phase::Extending ==> machine.generation < machine.max_history
    &&& machine.phase == Phase::Done ==> machine.generation == machine.max_history
        && machine.next.len() == 0
}

/// What a filter by length keeps: no history twice, and histories of the group only.
proof fn lemma_filter_by_length(group: Group, length: nat)
    requires
        group.no_duplicates(),
    ensures
        group.filter(of_length(length)).no_duplicates(),
        forall|i: int|
            0 <= i < group.filter(of_length(length)).len() ==> {
                &&& group.contains(#[trigger] group.filter(of_length(length))[i])
                &&& group.filter(of_length(length))[i].len() == length
            },
    decreases group.len(),
{
    reveal(Seq::filter);
    if group.len() > 0 {
        let rest = group.drop_last();
        lemma_filter_by_length(rest, length);
        let kept = rest.filter(of_length(length));
        assert forall|i: int| 0 <= i < kept.len() implies group.contains(#[trigger] kept[i])
            && kept[i] != group.last() by {
            let at = choose|at: int| 0 <= at < rest.len() && rest[at] == kept[i];
            assert(group[at] == kept[i]);
        }
    }
}

/// The extension of a group by one symbol: histories of the group with the symbol
/// at their end, none of them twice.
pub proof fn lemma_extend(group: Group, symbol: u32, length: nat)
    requires
        group.no_duplicates(),
    ensures
        extend(group, symbol, length).no_duplicates(),
        forall|i: int|
            0 <= i < extend(group, symbol, length).len() ==> {
                let history = #[trigger] extend(group, symbol, length)[i];
                &&& history.len() == length + 1
                &&& history.last() == symbol
                &&& group.contains(history.drop_last())
            },
{
    lemma_filter_by_length(group, length);
    let kept = group.filter(of_length(length));
    let extended = extend(group, symbol, length);
    assert forall|i: int| 0 <= i < extended.len() implies (#[trigger] extended[i]).drop_last()
        == kept[i] by {
        assert(kept[i].push(symbol).drop_last() =~= kept[i]);
    }
    assert forall|i: int, j: int|
        0 <= i < extended.len() && 0 <= j < extended.len() && i != j implies extended[i]
        != extended[j] by {
        assert(extended[i].drop_last() == kept[i]);
        assert(extended[j].drop_last() == kept[j]);
    }
}

/// The candidates of a state part their histories, and each history is one of
/// the state's with one symbol more.
pub proof fn lemma_successors(
    group: Group,
    alphabet: Seq<u32>,
    data: Seq<u32>,
    length: nat,
    upto: nat,
)
    requires
        group.no_duplicates(),
        ascending(alphabet),
        upto <= alphabet.len(),
    ensures
        partitioned(successors(group, alphabet, data, length, upto)),
        inhabited(successors(group, alphabet, data, length, upto)),
        offspring(successors(group, alphabet, data, length, upto), group, length),
        forall|c: int, i: int, k: int|
            0 <= c < successors(group, alphabet, data, length, upto).len() && 0 <= i
                < successors(group, alphabet, data, length, upto)[c].len() && upto <= k
                < alphabet.len() ==> (#[trigger] successors(
                group,
                alphabet,
                data,
                length,
                upto,
            )[c][i]).last() < #[trigger] alphabet[k],
    decreases upto,
{
    if upto > 0 {
        let earlier = successors(group, alphabet, data, length, (upto - 1) as nat);
        let symbol = alphabet[upto - 1];
        let candidate = extend(group, symbol, length);
        let found = successors(group, alphabet, data, length, upto);
        lemma_successors(group, alphabet, data, length, (upto - 1) as nat);
        lemma_extend(group, symbol, length);
        if found != earlier {
            assert(found == earlier.push(candidate));
            assert forall|s: int| 0 <= s < found.len() implies (#[trigger] found[s]).len() > 0 by {
                if s < earlier.len() {
                    assert(found[s] == earlier[s]);
                }
            }
            assert forall|c: int, i: int| 0 <= c < found.len() && 0 <= i < found[c].len() implies (
            #[trigger] found[c][i]).len() == length + 1 && group.contains(
                found[c][i].drop_last(),
            ) && (c < earlier.len() ==> found[c][i].last() < symbol) && (c == earlier.len()
                ==> found[c][i].last() == symbol) by {
                if c < earlier.len() {
                    assert(found[c] == earlier[c]);
                    assert(earlier[c][i].last() < alphabet[upto - 1]);
                } else {
                    assert(found[c] == candidate);
                }
            }
            assert forall|s: int| 0 <= s < found.len() implies (#[trigger] found[s]).no_duplicates()
                && uniform(found[s]) by {
                if s < earlier.len() {
                    assert(found[s] == earlier[s]);
                } else {
                    assert(found[s] == candidate);
                    assert forall|i: int, j: int|
                        0 <= i < candidate.len() && 0 <= j < candidate.len() implies (
                    #[trigger] candidate[i]).len() == (#[trigger] candidate[j]).len() by {
                        assert(found[s][i].len() == length + 1);
                        assert(found[s][j].len() == length + 1);
                    }
                }
            }
            assert forall|s: int, t: int| 0 <= s < t < found.len() implies disjoint(
                #[trigger] found[s],
                #[trigger] found[t],
            ) by {
                if t < earlier.len() {
                    assert(found[s] == earlier[s] && found[t] == earlier[t]);
                } else {
                    assert forall|i: int, j: int|
                        0 <= i < found[s].len() && 0 <= j < found[t].len() implies #[trigger] found[s][i]
                        != #[trigger] found[t][j] by {
                        assert(found[s][i].last() < symbol);
                        assert(found[t][j].last() == symbol);
                    }
                }
            }
            assert forall|c: int, i: int, k: int|
                0 <= c < found.len() && 0 <= i < found[c].len() && upto <= k
                    < alphabet.len() implies (#[trigger] found[c][i]).last()
                < #[trigger] alphabet[k] by {
                assert(alphabet[upto - 1] < alphabet[k]);
                if c < earlier.len() {
                    assert(found[c][i].last() < symbol);
                } else {
                    assert(found[c][i].last() == symbol);
                }
            }
        }
    }
}

/// The machine before the first generation is consistent.
pub proof fn lemma_start_consistent(alphabet: Seq<u32>, data: Seq<u32>, max_history: nat)
    requires
        ascending(alphabet),
    ensures
        consistent(Machine::start(alphabet, data, max_history)),
{
    let machine = Machine::start(alphabet, data, max_history);
    assert(machine.groups + machine.candidates =~= Seq::<Group>::empty());
}

/// A state without successors goes to the next generation as it is.
proof fn lemma_carry(machine: Machine)
    requires
        consistent(machine),
        machine.phase == Phase::Extending,
        machine.parent < machine.states.len(),
    ensures
        consistent(
            Machine {
                next: machine.next.push(machine.states[machine.parent as int]),
                parent: machine.parent + 1,
                ..machine
            },
        ),
{
    let state = machine.states[machine.parent as int];
    let after = Machine { next: machine.next.push(state), parent: machine.parent + 1, ..machine };
    let length = machine.generation;
    assert forall|s: int| 0 <= s < after.next.len() implies (#[trigger] after.next[s]).no_duplicates()
        && uniform(after.next[s]) by {
        if s < machine.next.len() {
            assert(after.next[s] == machine.next[s]);
        }
    }
    assert forall|s: int, t: int| 0 <= s < t < after.next.len() implies disjoint(
        #[trigger] after.next[s],
        #[trigger] after.next[t],
    ) by {
        assert(after.next[s] == machine.next[s]);
        if t < machine.next.len() {
            assert(after.next[t] == machine.next[t]);
        } else {
            assert forall|i: int, j: int|
                0 <= i < after.next[s].len() && 0 <= j < state.len() implies #[trigger] after.next[s][i]
                != #[trigger] state[j] by {
                assert(machine.next[s][i] != machine.states[machine.parent as int][j]);
            }
        }
    }
    assert forall|s: int, i: int|
        0 <= s < after.next.len() && 0 <= i < after.next[s].len() implies (
    #[trigger] after.next[s][i]).len() <= length + 1 by {
        if s < machine.next.len() {
            assert(after.next[s] == machine.next[s]);
        } else {
            assert(machine.states[machine.parent as int][i].len() <= length);
        }
    }
    assert forall|n: int, i: int, q: int, j: int|
        0 <= n < after.next.len() && 0 <= i < after.next[n].len() && after.turned() <= q
            < after.states.len() && 0 <= j < after.states[q].len() implies {
        &&& #[trigger] after.next[n][i] != #[trigger] after.states[q][j]
        &&& after.next[n][i].len() == length + 1 ==> after.next[n][i].drop_last()
            != after.states[q][j]
    } by {
        if n < machine.next.len() {
            assert(after.next[n] == machine.next[n]);
            assert(machine.next[n][i] != machine.states[q][j]);
        } else {
            assert(disjoint(machine.states[machine.parent as int], machine.states[q]));
            assert(machine.states[machine.parent as int][i] != machine.states[q][j]);
            assert(machine.states[machine.parent as int][i].len() <= length);
        }
    }
    assert(after.groups + after.candidates =~= Seq::<Group>::empty());
}

/// The groups of a state go to the next generation once its candidates are placed.
proof fn lemma_collect(machine: Machine)
    requires
        consistent(machine),
        machine.phase == Phase::Merging,
        machine.candidates.len() == 0,
    ensures
        consistent(
            Machine {
                next: machine.next + machine.groups,
                groups: Seq::empty(),
                group: 0,
                phase: Phase::Extending,
                ..machine
            },
        ),
{
    let after = Machine {
        next: machine.next + machine.groups,
        groups: Seq::empty(),
        group: 0,
        phase: Phase::Extending,
        ..machine
    };
    let length = machine.generation;
    let parent = machine.states[machine.parent - 1];
    let old = machine.next.len();
    assert(machine.groups + machine.candidates =~= machine.groups);
    assert forall|s: int| 0 <= s < after.next.len() implies (#[trigger] after.next[s]).no_duplicates()
        && uniform(after.next[s]) by {
        if s < old {
            assert(after.next[s] == machine.next[s]);
        } else {
            assert(after.next[s] == machine.groups[s - old]);
        }
    }
    assert forall|s: int, t: int| 0 <= s < t < after.next.len() implies disjoint(
        #[trigger] after.next[s],
        #[trigger] after.next[t],
    ) by {
        if t < old {
            assert(after.next[s] == machine.next[s] && after.next[t] == machine.next[t]);
        } else if s >= old {
            assert(after.next[s] == machine.groups[s - old] && after.next[t] == machine.groups[t
                - old]);
        } else {
            assert(after.next[s] == machine.next[s] && after.next[t] == machine.groups[t - old]);
            assert forall|i: int, j: int|
                0 <= i < after.next[s].len() && 0 <= j < after.next[t].len() implies #[trigger] after.next[s][i]
                != #[trigger] after.next[t][j] by {
                let grown = machine.groups[t - old][j];
                assert(grown.len() == length + 1 && parent.contains(grown.drop_last()));
                let at = choose|at: int| 0 <= at < parent.len() && parent[at] == grown.drop_last();
                assert(machine.next[s][i] != machine.states[machine.parent - 1][at]);
            }
        }
    }
    assert forall|s: int, i: int|
        0 <= s < after.next.len() && 0 <= i < after.next[s].len() implies (
    #[trigger] after.next[s][i]).len() <= length + 1 by {
        if s < old {
            assert(after.next[s] == machine.next[s]);
        } else {
            assert(after.next[s] == machine.groups[s - old]);
            assert(machine.groups[s - old][i].len() == length + 1);
        }
    }
    assert forall|n: int, i: int, q: int, j: int|
        0 <= n < after.next.len() && 0 <= i < after.next[n].len() && after.turned() <= q
            < after.states.len() && 0 <= j < after.states[q].len() implies {
        &&& #[trigger] after.next[n][i] != #[trigger] after.states[q][j]
        &&& after.next[n][i].len() == length + 1 ==> after.next[n][i].drop_last()
            != after.states[q][j]
    } by {
        if n < old {
            assert(after.next[n] == machine.next[n]);
            assert(machine.next[n][i] != machine.states[q][j]);
        } else {
            assert(after.next[n] == machine.groups[n - old]);
            let grown = machine.groups[n - old][i];
            assert(grown.len() == length + 1 && parent.contains(grown.drop_last()));
            let at = choose|at: int| 0 <= at < parent.len() && parent[at] == grown.drop_last();
            assert(disjoint(machine.states[machine.parent - 1], machine.states[q]));
            assert(machine.states[machine.parent - 1][at] != machine.states[q][j]);
            assert(machine.states[q][j].len() <= length);
        }
    }
    assert(after.groups + after.candidates =~= Seq::<Group>::empty());
}

/// A group that takes the first candidate leaves the pool parted.
pub proof fn lemma_absorb(machine: Machine)
    requires
        consistent(machine),
        machine.phase == Phase::Merging || machine.phase == Phase::Awaiting,
        machine.candidates.len() > 0,
        machine.group < machine.groups.len(),
    ensures
        consistent(machine.absorb()),
{
    let after = machine.absorb();
    let pool = machine.groups + machine.candidates;
    let fresh = after.groups + after.candidates;
    let length = machine.generation;
    let parent = machine.states[machine.parent - 1];
    let at = machine.group as int;
    let groups = machine.groups.len() as int;
    let own = machine.groups[at];
    let more = machine.candidates[0];
    assert(pool[at] == own);
    assert(pool[groups] == more);
    assert(disjoint(pool[at], pool[groups]));
    vstd::seq_lib::lemma_no_dup_in_concat(own, more);
    // where each group of the new pool comes from
    assert forall|c: int| 0 <= c < fresh.len() implies #[trigger] fresh[c] == (if c == at {
        own + more
    } else if c < groups {
        pool[c]
    } else {
        pool[c + 1]
    }) by {
        if c >= groups {
            assert(fresh[c] == after.candidates[c - groups]);
            assert(after.candidates[c - groups] == machine.candidates[c - groups + 1]);
        }
    }
    assert forall|c: int, i: int| 0 <= c < fresh.len() && 0 <= i < fresh[c].len() implies {
        &&& (#[trigger] fresh[c][i]).len() == length + 1
        &&& parent.contains(fresh[c][i].drop_last())
    } by {
        if c == at {
            if i < own.len() {
                assert(fresh[c][i] == pool[at][i]);
            } else {
                assert(fresh[c][i] == pool[groups][i - own.len()]);
            }
        } else if c < groups {
            assert(fresh[c][i] == pool[c][i]);
        } else {
            assert(fresh[c][i] == pool[c + 1][i]);
        }
    }
    assert forall|s: int| 0 <= s < fresh.len() implies (#[trigger] fresh[s]).no_duplicates()
        && uniform(fresh[s]) by {
        if s == at {
            assert forall|i: int, j: int|
                0 <= i < fresh[s].len() && 0 <= j < fresh[s].len() implies (
            #[trigger] fresh[s][i]).len() == (#[trigger] fresh[s][j]).len() by {
                assert(fresh[s][i].len() == length + 1);
                assert(fresh[s][j].len() == length + 1);
            }
        } else if s < groups {
            assert(fresh[s] == pool[s]);
        } else {
            assert(fresh[s] == pool[s + 1]);
        }
    }
    assert forall|s: int, t: int| 0 <= s < t < fresh.len() implies disjoint(
        #[trigger] fresh[s],
        #[trigger] fresh[t],
    ) by {
        let from_s = if s < groups { s } else { s + 1 };
        let from_t = if t < groups { t } else { t + 1 };
        assert(disjoint(pool[from_s], pool[from_t]));
        if s == at {
            assert(disjoint(pool[from_t], pool[groups]) || disjoint(pool[groups], pool[from_t]));
            assert forall|i: int, j: int|
                0 <= i < fresh[s].len() && 0 <= j < fresh[t].len() implies #[trigger] fresh[s][i]
                != #[trigger] fresh[t][j] by {
                assert(fresh[t][j] == pool[from_t][j]);
                if i < own.len() {
                    assert(fresh[s][i] == pool[at][i]);
                } else {
                    assert(fresh[s][i] == pool[groups][i - own.len()]);
                }
            }
        } else if t == at {
            assert(disjoint(pool[from_s], pool[groups]));
            assert forall|i: int, j: int|
                0 <= i < fresh[s].len() && 0 <= j < fresh[t].len() implies #[trigger] fresh[s][i]
                != #[trigger] fresh[t][j] by {
                assert(fresh[s][i] == pool[from_s][i]);
                if j < own.len() {
                    assert(fresh[t][j] == pool[at][j]);
                } else {
                    assert(fresh[t][j] == pool[groups][j - own.len()]);
                }
            }
        }
    }
}

/// One move of the machine keeps it consistent.
pub proof fn lemma_advance_consistent(machine: Machine)
    requires
        consistent(machine),
    ensures
        consistent(machine.advance()),
{
    let after = machine.advance();
    match machine.phase {
        Phase::Extending => {
            if machine.generation >= machine.max_history {
            } else if machine.parent >= machine.states.len() {
                assert(after.groups + after.candidates =~= Seq::<Group>::empty());
            } else {
                let state = machine.states[machine.parent as int];
                let found = successors(
                    state,
                    machine.alphabet,
                    machine.data,
                    machine.generation,
                    machine.alphabet.len(),
                );
                if found.len() == 0 {
                    lemma_carry(machine);
                } else {
                    lemma_successors(
                        state,
                        machine.alphabet,
                        machine.data,
                        machine.generation,
                        machine.alphabet.len(),
                    );
                    assert(after.groups + after.candidates =~= found);
                }
            }
        },
        Phase::Merging => {
            if machine.candidates.len() == 0 {
                lemma_collect(machine);
            } else if machine.group >= machine.groups.len() {
                assert(after.groups + after.candidates =~= machine.groups + machine.candidates);
            } else {
                lemma_absorb(machine);
            }
        },
        Phase::Awaiting => {},
        Phase::Done => {},
    }
}

/// An answer keeps the machine consistent.
pub proof fn lemma_answer_consistent(machine: Machine, similar: bool)
    requires
        consistent(machine),
    ensures
        consistent(machine.answer(similar)),
{
    if machine.phase == Phase::Awaiting {
        lemma_absorb(machine);
    }
}

/// A consistent machine stays so while it moves on, and ends up waiting or done.
pub proof fn lemma_settle_consistent(machine: Machine)
    requires
        consistent(machine),
    ensures
        consistent(machine.settle()),
        !machine.settle().moving(),
    decreases
            if machine.moving() { 1nat } else { 0nat },
            machine.generations_left(),
            machine.parents_left(),
            if machine.phase == Phase::Merging { 1nat } else { 0nat },
            machine.candidates.len(),
            machine.groups_left(),
{
    if machine.moving() {
        lemma_advance_consistent(machine);
        lemma_settle_consistent(machine.advance());
    }
}

/// A consistent machine stays so through any answers, and waits or is done after them.
pub proof fn lemma_replay_consistent(machine: Machine, answers: Seq<bool>)
    requires
        consistent(machine),
    ensures
        consistent(machine.replay(answers)),
    decreases answers.len(),
{
    if answers.len() > 0 {
        let before = machine.replay(answers.drop_last());
        lemma_replay_consistent(machine, answers.drop_last());
        lemma_answer_consistent(before, answers.last());
        lemma_settle_consistent(before.answer(answers.last()));
    }
}

} // verus!
