use rust_cssr::{compare_supports, CausalState, Comparison, Distribution, Phase, Step, CSSR};
use statrs::distribution::{ChiSquared, ContinuousCDF};
use std::collections::HashSet;

/// Upper-tail probability of the chi-square statistic of `a` against `b`.
fn chi_square_p_value(a: &[f64], b: &[f64], degrees_of_freedom: usize) -> f64 {
    let mut statistic = 0.0;
    for (p_a, p_b) in a.iter().zip(b.iter()) {
        if *p_b > 0.0 {
            let diff = p_a - p_b;
            statistic += (diff * diff) / p_b;
        }
    }
    let distribution = ChiSquared::new(degrees_of_freedom as f64).unwrap();
    1.0 - distribution.cdf(statistic)
}

fn are_distributions_similar(a: &[f64], b: &[f64], alpha: f64) -> bool {
    if a.len() != b.len() {
        panic!("Input slices must have the same length.");
    }
    let a_support: Vec<bool> = a.iter().map(|p| *p > 0.0).collect();
    let b_support: Vec<bool> = b.iter().map(|p| *p > 0.0).collect();
    match compare_supports(&a_support, &b_support) {
        Comparison::Dissimilar => false,
        Comparison::Similar => true,
        Comparison::Undecided { degrees_of_freedom } => {
            chi_square_p_value(a, b, degrees_of_freedom) > alpha
        }
    }
}

fn probabilities(dist: &Distribution) -> Vec<f32> {
    dist.counts
        .iter()
        .map(|&count| if dist.total > 0 { count as f32 / dist.total as f32 } else { 0.0 })
        .collect()
}

fn run(cssr: &mut CSSR, data: &[u32], max_history: usize, alpha: f32) -> usize {
    let mut questions = 0;
    let mut step = cssr.run(data, max_history);
    loop {
        match step {
            Step::Finished => return questions,
            Step::Compare { candidate, reference, degrees_of_freedom } => {
                questions += 1;
                let a: Vec<f64> = probabilities(&candidate).iter().map(|&p| p as f64).collect();
                let b: Vec<f64> = probabilities(&reference).iter().map(|&p| p as f64).collect();
                let similar = chi_square_p_value(&a, &b, degrees_of_freedom) > alpha as f64;
                step = cssr.resume(similar);
            }
        }
    }
}

fn sorted_histories(state: &CausalState) -> Vec<Vec<u32>> {
    let mut histories = state.histories.clone();
    histories.sort();
    histories
}

#[test]
fn test_are_distributions_similar() {
    let a = vec![0.5, 0.5];
    let b = vec![0.5, 0.5];
    assert!(are_distributions_similar(&a, &b, 0.05));

    let a = vec![0.1, 0.9];
    let b = vec![0.9, 0.1];
    assert!(!are_distributions_similar(&a, &b, 0.05));
}

#[test]
fn test_cssr_simple_sequence() {
    // A simple sequence with a clear pattern: 0, 1, 0, 1, ...
    let data = vec![0, 1, 0, 1, 0, 1, 0, 1, 0, 1];
    let alphabet: HashSet<u32> = data.iter().cloned().collect();
    let mut cssr = CSSR::new(alphabet);

    // Run CSSR with a max history of 1 and a high alpha to force splits.
    run(&mut cssr, &data, 1, 0.01);

    // There should be two causal states:
    // 1. After a 0, the next symbol is always 1.
    // 2. After a 1, the next symbol is always 0.
    assert_eq!(cssr.states().len(), 2);

    let mut state_defs = Vec::new();
    for state in cssr.states() {
        let histories = sorted_histories(state);
        let dist: Vec<(u32, f32)> = cssr
            .alphabet()
            .iter()
            .cloned()
            .zip(probabilities(&state.next_symbol_dist))
            .collect();
        state_defs.push((histories, dist));
    }
    state_defs.sort_by(|a, b| a.0.cmp(&b.0));

    // After a 0, we expect a 1.
    assert_eq!(state_defs[0].0, vec![vec![0]]);
    assert_eq!(state_defs[0].1[0].0, 0);
    assert_eq!(state_defs[0].1[0].1, 0.0);
    assert_eq!(state_defs[0].1[1].0, 1);
    assert_eq!(state_defs[0].1[1].1, 1.0);

    // After a 1, we expect a 0.
    assert_eq!(state_defs[1].0, vec![vec![1]]);
    assert_eq!(state_defs[1].1[0].0, 0);
    assert_eq!(state_defs[1].1[0].1, 1.0);
    assert_eq!(state_defs[1].1[1].0, 1);
    assert_eq!(state_defs[1].1[1].1, 0.0);
}

fn alphabet_of(data: &[u32]) -> HashSet<u32> {
    data.iter().cloned().collect()
}

/// A sequence without an obvious pattern, over the symbols 0, 1 and 2.
fn mixed_data() -> Vec<u32> {
    let mut data = Vec::new();
    let mut x: u32 = 12345;
    for _ in 0..400 {
        x = x.wrapping_mul(1103515245).wrapping_add(12345);
        data.push((x >> 16) % 3);
    }
    data
}

#[test]
fn constant_sequence_has_one_state() {
    let data = vec![0; 10];
    for max_history in [1, 2, 5, 9, 10, 12] {
        let mut cssr = CSSR::new(alphabet_of(&data));
        let questions = run(&mut cssr, &data, max_history, 0.05);
        assert_eq!(questions, 0);
        assert_eq!(cssr.states().len(), 1);
        assert_eq!(cssr.alphabet(), &vec![0]);
        assert_eq!(probabilities(&cssr.states()[0].next_symbol_dist), vec![1.0]);
    }
}

#[test]
fn constant_sequence_histories_stop_growing_without_support() {
    let data = vec![0; 10];
    let mut cssr = CSSR::new(alphabet_of(&data));
    run(&mut cssr, &data, 12, 0.05);
    // Nine zeros are the longest history that the data still shows a symbol after.
    assert_eq!(cssr.states()[0].histories, vec![vec![0; 9]]);
    assert_eq!(cssr.states()[0].next_symbol_dist.counts, vec![1]);
    assert_eq!(cssr.states()[0].next_symbol_dist.total, 1);
}

#[test]
fn no_generation_leaves_the_root_state() {
    let data = vec![0, 1, 1, 0, 1];
    let mut cssr = CSSR::new(alphabet_of(&data));
    assert!(matches!(cssr.run(&data, 0), Step::Finished));
    assert_eq!(cssr.states().len(), 1);
    assert_eq!(cssr.states()[0].histories, vec![Vec::<u32>::new()]);
    assert_eq!(cssr.states()[0].next_symbol_dist.counts, vec![2, 3]);
    assert_eq!(cssr.states()[0].next_symbol_dist.total, 5);
}

#[test]
fn new_machine_has_no_states_and_an_ascending_alphabet() {
    let alphabet: HashSet<u32> = [7, 3, 9, 3, 0].into_iter().collect();
    let mut cssr = CSSR::new(alphabet);
    assert_eq!(cssr.alphabet(), &vec![0, 3, 7, 9]);
    assert!(cssr.states().is_empty());
    assert!(matches!(cssr.resume(true), Step::Finished));
    assert!(cssr.states().is_empty());
}

#[test]
fn empty_data_keeps_the_root_state_without_support() {
    let data: Vec<u32> = Vec::new();
    let alphabet: HashSet<u32> = [0, 1].into_iter().collect();
    let mut cssr = CSSR::new(alphabet);
    assert_eq!(run(&mut cssr, &data, 3, 0.05), 0);
    assert_eq!(cssr.states().len(), 1);
    assert_eq!(cssr.states()[0].histories, vec![Vec::<u32>::new()]);
    assert_eq!(cssr.states()[0].next_symbol_dist.counts, vec![0, 0]);
    assert_eq!(cssr.states()[0].next_symbol_dist.total, 0);
    assert_eq!(probabilities(&cssr.states()[0].next_symbol_dist), vec![0.0, 0.0]);
}

#[test]
fn machine_asks_when_supports_do_not_decide() {
    // After a 0 come 0, 1, 1; after a 1 come 0, 0, 1, 1.
    let data = vec![0, 0, 1, 1, 0, 1, 0, 1];
    let mut cssr = CSSR::new(alphabet_of(&data));
    match cssr.run(&data, 1) {
        Step::Compare { candidate, reference, degrees_of_freedom } => {
            assert_eq!(candidate.counts, vec![2, 1]);
            assert_eq!(candidate.total, 3);
            assert_eq!(reference.counts, vec![1, 3]);
            assert_eq!(reference.total, 4);
            assert_eq!(degrees_of_freedom, 1);
        }
        Step::Finished => panic!("the supports of the two candidates are the same"),
    }
    // The states of the generation before stay in place while the machine waits.
    assert_eq!(cssr.states().len(), 1);
    assert_eq!(cssr.states()[0].histories, vec![Vec::<u32>::new()]);
}

#[test]
fn similar_candidates_merge_and_share_one_estimate() {
    let data = vec![0, 0, 1, 1, 0, 1, 0, 1];
    let mut cssr = CSSR::new(alphabet_of(&data));
    assert!(matches!(cssr.run(&data, 1), Step::Compare { .. }));
    assert!(matches!(cssr.resume(true), Step::Finished));
    assert_eq!(cssr.states().len(), 1);
    // The group, whose histories come first, took those of the candidate.
    assert_eq!(cssr.states()[0].histories, vec![vec![0], vec![1]]);
    assert_eq!(cssr.states()[0].next_symbol_dist.counts, vec![3, 4]);
    assert_eq!(cssr.states()[0].next_symbol_dist.total, 7);
}

#[test]
fn dissimilar_candidates_stay_apart() {
    let data = vec![0, 0, 1, 1, 0, 1, 0, 1];
    let mut cssr = CSSR::new(alphabet_of(&data));
    assert!(matches!(cssr.run(&data, 1), Step::Compare { .. }));
    assert!(matches!(cssr.resume(false), Step::Finished));
    assert_eq!(cssr.states().len(), 2);
    assert_eq!(cssr.states()[0].histories, vec![vec![0]]);
    assert_eq!(cssr.states()[0].next_symbol_dist.counts, vec![1, 3]);
    assert_eq!(cssr.states()[1].histories, vec![vec![1]]);
    assert_eq!(cssr.states()[1].next_symbol_dist.counts, vec![2, 1]);
}

#[test]
fn a_candidate_is_held_against_each_group_in_turn() {
    // Three symbols, each followed by every symbol: three candidates.
    let data = vec![0, 0, 1, 1, 2, 2, 0, 2, 1, 0, 1, 2, 0];
    let mut cssr = CSSR::new(alphabet_of(&data));
    // [1] against [0].
    assert!(matches!(cssr.run(&data, 1), Step::Compare { .. }));
    // [2] against [0], then against [1].
    let second = cssr.resume(false);
    let third = cssr.resume(false);
    match (second, third) {
        (
            Step::Compare { reference: first_group, .. },
            Step::Compare { reference: second_group, candidate, .. },
        ) => {
            assert_eq!(first_group.counts, vec![1, 2, 1]);
            assert_eq!(second_group.counts, vec![1, 1, 2]);
            assert_eq!(candidate.counts, vec![2, 1, 1]);
        }
        _ => panic!("two more questions were due"),
    }
    assert!(matches!(cssr.resume(true), Step::Finished));
    assert_eq!(cssr.states().len(), 2);
    assert_eq!(cssr.states()[0].histories, vec![vec![0]]);
    assert_eq!(cssr.states()[1].histories, vec![vec![1], vec![2]]);
    assert_eq!(cssr.states()[1].next_symbol_dist.counts, vec![3, 2, 3]);
    assert_eq!(cssr.states()[1].next_symbol_dist.total, 8);
}

#[test]
fn a_distribution_is_similar_to_itself() {
    for a in [vec![0.5, 0.5], vec![0.1, 0.9], vec![0.2, 0.3, 0.5], vec![1.0, 0.0], vec![0.0, 0.0]] {
        for alpha in [0.001, 0.05, 0.5, 0.999] {
            assert!(are_distributions_similar(&a, &a, alpha));
        }
    }
}

#[test]
fn a_missing_symbol_in_the_reference_is_dissimilar() {
    assert!(!are_distributions_similar(&[0.5, 0.5], &[1.0, 0.0], 0.05));
    // The other way round the chi-square test has no room and says yes.
    assert!(are_distributions_similar(&[1.0, 0.0], &[1.0, 0.0], 0.05));
    assert!(are_distributions_similar(&[0.0, 0.0], &[0.0, 0.0], 0.05));
}

#[test]
fn states_part_the_histories() {
    let data = mixed_data();
    for max_history in 0..5 {
        let mut cssr = CSSR::new(alphabet_of(&data));
        run(&mut cssr, &data, max_history, 0.05);
        let mut seen: HashSet<Vec<u32>> = HashSet::new();
        for state in cssr.states() {
            assert!(!state.histories.is_empty());
            for history in &state.histories {
                // No history in two states, nor twice in one.
                assert!(seen.insert(history.clone()));
                // One length in each state, and at most one symbol for each generation.
                assert_eq!(history.len(), state.histories[0].len());
                assert!(history.len() <= max_history);
            }
        }
    }
}

#[test]
fn every_window_of_the_data_is_in_a_state() {
    let data = mixed_data();
    for max_history in 0..4 {
        let mut cssr = CSSR::new(alphabet_of(&data));
        run(&mut cssr, &data, max_history, 0.05);
        for point in max_history..data.len() {
            let window = data[point - max_history..point].to_vec();
            let holders = cssr.states().iter().filter(|s| s.histories.contains(&window)).count();
            assert_eq!(holders, 1);
        }
    }
}

#[test]
fn distributions_sum_to_one_or_are_zero() {
    let data = mixed_data();
    let mut cssr = CSSR::new(alphabet_of(&data));
    run(&mut cssr, &data, 3, 0.05);
    for state in cssr.states() {
        let dist = &state.next_symbol_dist;
        assert_eq!(dist.counts.len(), 3);
        assert_eq!(dist.counts.iter().sum::<u64>(), dist.total);
        let sum: f32 = probabilities(dist).iter().sum();
        assert!((sum - 1.0).abs() < 1e-5 || probabilities(dist).iter().all(|&p| p == 0.0));
    }
}

#[test]
fn two_runs_give_the_same_states() {
    let data = mixed_data();
    let mut first = CSSR::new(alphabet_of(&data));
    let mut second = CSSR::new(data.iter().rev().cloned().collect());
    let asked_first = run(&mut first, &data, 3, 0.05);
    let asked_second = run(&mut second, &data, 3, 0.05);
    assert_eq!(asked_first, asked_second);
    assert_eq!(first.alphabet(), second.alphabet());
    assert_eq!(first.states().len(), second.states().len());
    for (a, b) in first.states().iter().zip(second.states().iter()) {
        assert_eq!(a.histories, b.histories);
        assert_eq!(a.next_symbol_dist.counts, b.next_symbol_dist.counts);
        assert_eq!(a.next_symbol_dist.total, b.next_symbol_dist.total);
    }
}

#[test]
fn a_second_run_starts_afresh() {
    let data = vec![0, 1, 0, 1, 0, 1, 0, 1, 0, 1];
    let mut cssr = CSSR::new(alphabet_of(&data));
    run(&mut cssr, &data, 2, 0.01);
    let constant = vec![0; 6];
    run(&mut cssr, &constant, 1, 0.01);
    assert_eq!(cssr.alphabet(), &vec![0, 1]);
    assert_eq!(cssr.states().len(), 1);
    assert_eq!(cssr.states()[0].histories, vec![vec![0]]);
    assert_eq!(cssr.states()[0].next_symbol_dist.counts, vec![5, 0]);
}

#[test]
fn the_phase_tells_waiting_from_done() {
    let data = vec![0, 0, 1, 1, 0, 1, 0, 1];
    let mut cssr = CSSR::new(alphabet_of(&data));
    assert_eq!(cssr.phase(), Phase::Done);
    cssr.run(&data, 1);
    assert_eq!(cssr.phase(), Phase::Awaiting);
    cssr.resume(false);
    assert_eq!(cssr.phase(), Phase::Done);
}

#[test]
fn the_chi_square_test_splits_what_differs() {
    // Mostly alternating: nine times out of ten a symbol is followed by the other.
    let mut data = Vec::new();
    let mut symbol = 0;
    for i in 0..400 {
        data.push(symbol);
        if i % 10 != 9 {
            symbol = 1 - symbol;
        }
    }
    let mut cssr = CSSR::new(alphabet_of(&data));
    let questions = run(&mut cssr, &data, 1, 0.05);
    assert_eq!(questions, 1);
    assert_eq!(cssr.states().len(), 2);
    assert_eq!(cssr.states()[0].histories, vec![vec![0]]);
    assert_eq!(cssr.states()[1].histories, vec![vec![1]]);
}

#[test]
fn the_chi_square_test_merges_what_is_alike() {
    // Each symbol is followed by 0 and by 1 equally often.
    let mut data = Vec::new();
    for _ in 0..50 {
        data.extend_from_slice(&[0, 0, 1, 1]);
    }
    let mut cssr = CSSR::new(alphabet_of(&data));
    let questions = run(&mut cssr, &data, 1, 0.05);
    assert_eq!(questions, 1);
    assert_eq!(cssr.states().len(), 1);
    assert_eq!(cssr.states()[0].histories, vec![vec![0], vec![1]]);
    assert_eq!(cssr.states()[0].next_symbol_dist.counts, vec![99, 100]);
    assert_eq!(cssr.states()[0].next_symbol_dist.total, 199);
}
