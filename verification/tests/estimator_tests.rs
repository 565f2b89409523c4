use rust_cssr::alphabet::{insert_symbol, ordered_alphabet};
use rust_cssr::{
    compare_supports, compute_next_symbol_dist, get_n_gram_id, CausalState, Comparison,
    Distribution,
};
use std::collections::HashSet;

#[test]
fn no_history_gives_all_zero() {
    let data = vec![0, 1, 0, 1];
    let dist = compute_next_symbol_dist(&Vec::new(), &data, &vec![0, 1]);
    assert_eq!(dist.counts, vec![0, 0]);
    assert_eq!(dist.total, 0);
    assert!(dist.has_no_support());
}

#[test]
fn empty_history_gives_the_marginal_distribution() {
    let data = vec![0, 1, 0, 1, 0, 1, 0, 1, 0, 1];
    let dist = compute_next_symbol_dist(&vec![vec![]], &data, &vec![0, 1]);
    assert_eq!(dist.counts, vec![5, 5]);
    assert_eq!(dist.total, 10);
    assert!(!dist.has_no_support());
}

#[test]
fn a_history_counts_what_follows_it() {
    let data = vec![0, 1, 0, 1, 0, 1, 0, 1, 0, 1];
    let after_zero = compute_next_symbol_dist(&vec![vec![0]], &data, &vec![0, 1]);
    assert_eq!(after_zero.counts, vec![0, 5]);
    assert_eq!(after_zero.total, 5);
    // The last 1 has nothing after it.
    let after_one = compute_next_symbol_dist(&vec![vec![1]], &data, &vec![0, 1]);
    assert_eq!(after_one.counts, vec![4, 0]);
    assert_eq!(after_one.total, 4);
}

#[test]
fn longer_histories_need_the_whole_window() {
    let data = vec![0, 0, 1, 0, 0, 1, 0, 0, 0];
    let dist = compute_next_symbol_dist(&vec![vec![0, 0]], &data, &vec![0, 1]);
    assert_eq!(dist.counts, vec![1, 2]);
    assert_eq!(dist.total, 3);
    // A history as long as the data has no symbol after it.
    let whole = compute_next_symbol_dist(&vec![data.clone()], &data, &vec![0, 1]);
    assert_eq!(whole.total, 0);
    // Nor has one that is longer.
    let longer = compute_next_symbol_dist(&vec![vec![0; 20]], &data, &vec![0, 1]);
    assert_eq!(longer.total, 0);
    assert!(longer.has_no_support());
}

#[test]
fn a_set_of_histories_counts_each_place_once() {
    let data = vec![0, 1, 2, 0, 2, 1, 1, 0, 1, 2];
    let alphabet = vec![0, 1, 2];
    let both = compute_next_symbol_dist(&vec![vec![0], vec![1]], &data, &alphabet);
    assert_eq!(both.counts, vec![1, 3, 3]);
    assert_eq!(both.total, 7);
    // The order of the histories does not matter, nor does a history written twice.
    let again = compute_next_symbol_dist(&vec![vec![1], vec![0], vec![1]], &data, &alphabet);
    assert_eq!(again.counts, both.counts);
    assert_eq!(again.total, both.total);
}

#[test]
fn a_symbol_outside_the_alphabet_counts_for_the_total_only() {
    let data = vec![0, 5, 0, 1];
    let dist = compute_next_symbol_dist(&vec![vec![0]], &data, &vec![0, 1]);
    assert_eq!(dist.counts, vec![0, 1]);
    assert_eq!(dist.total, 2);
}

#[test]
fn support_flags_follow_the_counts() {
    let dist = Distribution { counts: vec![0, 3, 0, 1], total: 4 };
    assert_eq!(dist.support_flags(), vec![false, true, false, true]);
    assert!(!dist.has_no_support());
    let zero = Distribution { counts: vec![0, 0], total: 0 };
    assert_eq!(zero.support_flags(), vec![false, false]);
    assert!(zero.has_no_support());
    let copy = dist.duplicate();
    assert_eq!(copy.counts, vec![0, 3, 0, 1]);
    assert_eq!(copy.total, 4);
}

#[test]
fn supports_that_clash_are_dissimilar() {
    assert_eq!(compare_supports(&[true, true], &[true, false]), Comparison::Dissimilar);
    assert_eq!(compare_supports(&[false, true, true], &[true, true, false]), Comparison::Dissimilar);
    assert_eq!(compare_supports(&[true], &[false]), Comparison::Dissimilar);
}

#[test]
fn supports_without_room_for_a_test_are_similar() {
    assert_eq!(compare_supports(&[], &[]), Comparison::Similar);
    assert_eq!(compare_supports(&[false, false], &[false, false]), Comparison::Similar);
    assert_eq!(compare_supports(&[false, true], &[false, true]), Comparison::Similar);
    assert_eq!(compare_supports(&[false, false], &[true, false]), Comparison::Similar);
}

#[test]
fn other_supports_leave_it_to_the_test() {
    assert_eq!(
        compare_supports(&[true, true], &[true, true]),
        Comparison::Undecided { degrees_of_freedom: 1 }
    );
    assert_eq!(
        compare_supports(&[true, false, false, true], &[true, true, false, true]),
        Comparison::Undecided { degrees_of_freedom: 2 }
    );
    assert_eq!(
        compare_supports(&[false, false, false], &[true, true, true]),
        Comparison::Undecided { degrees_of_freedom: 2 }
    );
}

#[test]
fn n_gram_ids_read_as_numbers_in_the_base_of_the_alphabet() {
    assert_eq!(get_n_gram_id(0, 0, 2), 0);
    assert_eq!(get_n_gram_id(5, 2, 3), 17);
    assert_eq!(get_n_gram_id(get_n_gram_id(get_n_gram_id(0, 1, 10), 2, 10), 3, 10), 123);
    assert_eq!(get_n_gram_id(1, u32::MAX - 1, 1), u32::MAX);
}

#[test]
fn symbols_are_inserted_in_order_and_once() {
    let mut symbols = Vec::new();
    for symbol in [5, 1, 9, 5, 0, 9, 3] {
        insert_symbol(&mut symbols, symbol);
    }
    assert_eq!(symbols, vec![0, 1, 3, 5, 9]);
}

#[test]
fn a_set_has_one_ascending_order() {
    let set: HashSet<u32> = [4, 2, 8, 6, 0].into_iter().collect();
    assert_eq!(ordered_alphabet(&set), vec![0, 2, 4, 6, 8]);
    assert_eq!(ordered_alphabet(&HashSet::new()), Vec::<u32>::new());
}

#[test]
fn a_new_state_is_empty() {
    let state = CausalState::new();
    assert!(state.histories.is_empty());
    assert!(state.next_symbol_dist.counts.is_empty());
    assert_eq!(state.next_symbol_dist.total, 0);
    assert!(state.next_symbol_dist.has_no_support());
}

#[test]
fn states_are_equal_by_their_set_of_histories() {
    let mut a = CausalState::new();
    a.histories = vec![vec![0, 1], vec![1, 1]];
    a.next_symbol_dist = Distribution { counts: vec![1, 2], total: 3 };
    let mut b = CausalState::new();
    b.histories = vec![vec![1, 1], vec![0, 1], vec![1, 1]];
    let mut c = CausalState::new();
    c.histories = vec![vec![0, 1]];
    assert!(a == b);
    assert!(b == a);
    assert!(a != c);
    assert!(c != a);
    assert!(CausalState::new() == CausalState::new());
}
