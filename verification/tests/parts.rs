use std::collections::VecDeque;

use sparse::candidates::{generate, merge};
use sparse::neighbor::{clamp_distance, nearest};
use sparse::postings::InvertedIndex;
use sparse::scatter::{can_reserve, Scorer};
use sparse::vector::{check_entries, is_finite, InputError, SparseVector};
use sparse::window::WindowStore;

fn list(index: &InvertedIndex, dim: u32) -> Vec<u64> {
    match index.posting(dim) {
        Some(q) => q.iter().copied().collect(),
        None => Vec::new(),
    }
}

#[test]
fn scorer_gives_each_dimension_its_weight() {
    let mut scorer = Scorer::new(16);
    assert_eq!(scorer.capacity(), 16);
    let v: SparseVector = vec![(3, 0.6f64.to_bits()), (5, 0.8f64.to_bits())];
    assert!(scorer.load(&v));
    assert_eq!(scorer.lookup(3), 0.6f64.to_bits());
    assert_eq!(scorer.lookup(5), 0.8f64.to_bits());
    assert_eq!(scorer.lookup(4), 0);
    assert_eq!(scorer.lookup(0), 0);
    assert_eq!(scorer.lookup(15), 0);
}

#[test]
fn scorer_answers_zero_beyond_its_capacity() {
    let mut scorer = Scorer::new(4);
    assert!(scorer.load(&vec![(3, 7)]));
    assert_eq!(scorer.lookup(4), 0);
    assert_eq!(scorer.lookup(u32::MAX), 0);
    let none = Scorer::new(0);
    assert_eq!(none.lookup(0), 0);
}

#[test]
fn scorer_clear_forgets_everything() {
    let mut scorer = Scorer::new(16);
    assert!(scorer.load(&vec![(1, 11), (2, 22)]));
    scorer.clear();
    assert_eq!(scorer.lookup(1), 0);
    assert_eq!(scorer.lookup(2), 0);
    assert_eq!(scorer.capacity(), 16);
    assert!(scorer.load(&vec![(2, 23)]));
    assert_eq!(scorer.lookup(1), 0);
    assert_eq!(scorer.lookup(2), 23);
}

#[test]
fn scorer_load_twice_changes_nothing() {
    let mut scorer = Scorer::new(16);
    let v: SparseVector = vec![(1, 11), (9, 99)];
    assert!(scorer.load(&v));
    assert!(!scorer.load(&v));
    assert_eq!(scorer.lookup(1), 11);
    assert_eq!(scorer.lookup(9), 99);
    assert_eq!(scorer.lookup(2), 0);
}

#[test]
fn scorer_load_lays_a_vector_over_what_is_there() {
    let mut scorer = Scorer::new(16);
    assert!(scorer.load(&vec![(1, 11), (2, 22)]));
    assert!(!scorer.load(&vec![(2, 77), (3, 33)]));
    assert_eq!(scorer.lookup(1), 11);
    assert_eq!(scorer.lookup(2), 77);
    assert_eq!(scorer.lookup(3), 33);
}

#[test]
fn scorer_load_tells_a_repeated_dimension() {
    let mut scorer = Scorer::new(16);
    assert!(!scorer.load(&vec![(4, 1), (5, 2), (4, 3)]));
    assert_eq!(scorer.lookup(4), 3);
    assert_eq!(scorer.lookup(5), 2);
}

#[test]
fn capacities_that_can_be_reserved() {
    assert!(can_reserve(0));
    assert!(can_reserve(300_000));
    assert!(can_reserve((isize::MAX as usize) / 64));
    assert!(!can_reserve((isize::MAX as usize) / 64 + 1));
    assert!(!can_reserve(usize::MAX));
}

#[test]
fn index_appends_at_the_tail() {
    let mut index = InvertedIndex::new(8);
    assert_eq!(index.capacity(), 8);
    assert!(index.posting(3).is_none());
    index.append(3, 10);
    index.append(3, 12);
    index.append(5, 11);
    index.append(3, 17);
    assert_eq!(list(&index, 3), vec![10, 12, 17]);
    assert_eq!(list(&index, 5), vec![11]);
    assert_eq!(list(&index, 4), Vec::<u64>::new());
    assert!(index.posting(8).is_none());
    assert!(index.posting(u32::MAX).is_none());
}

#[test]
fn index_pops_the_head() {
    let mut index = InvertedIndex::new(8);
    index.append(3, 10);
    index.append(3, 12);
    index.append(5, 11);
    assert_eq!(index.head_pop(3), Some(10));
    assert_eq!(list(&index, 3), vec![12]);
    assert_eq!(list(&index, 5), vec![11]);
    assert_eq!(index.head_pop(3), Some(12));
    assert_eq!(index.head_pop(3), None);
    assert!(index.posting(3).expect("the list stays").is_empty());
    assert_eq!(index.head_pop(4), None);
    assert_eq!(index.head_pop(8), None);
    assert_eq!(list(&index, 5), vec![11]);
    index.append(3, 20);
    assert_eq!(list(&index, 3), vec![20]);
}

#[test]
fn index_retires_a_vector() {
    let mut index = InvertedIndex::new(8);
    for ordinal in 0..3u64 {
        index.append(1, ordinal);
        index.append(2, ordinal);
    }
    index.append(7, 2);
    index.retire(&vec![(2, 0), (1, 0)]);
    assert_eq!(list(&index, 1), vec![1, 2]);
    assert_eq!(list(&index, 2), vec![1, 2]);
    assert_eq!(list(&index, 7), vec![2]);
    index.retire(&Vec::new());
    assert_eq!(list(&index, 1), vec![1, 2]);
}

#[test]
fn store_finds_a_vector_by_its_ordinal() {
    let mut store = WindowStore::new();
    assert_eq!(store.len(), 0);
    assert_eq!(store.dropped_so_far(), 0);
    assert!(store.get(0).is_none());
    assert!(store.pop_front().is_none());
    assert_eq!(store.dropped_so_far(), 0);
    store.push(vec![(1, 10)]);
    store.push(Vec::new());
    store.push(vec![(3, 30), (4, 40)]);
    assert_eq!(store.len(), 3);
    assert_eq!(store.get(0), Some(&vec![(1u32, 10u64)]));
    assert_eq!(store.get(2), Some(&vec![(3u32, 30u64), (4, 40)]));
    assert!(store.get(3).is_none());
    assert_eq!(store.pop_front(), Some(vec![(1u32, 10u64)]));
    assert_eq!(store.dropped_so_far(), 1);
    assert_eq!(store.len(), 2);
    assert!(!store.contains(0));
    assert!(store.contains(1));
    assert!(store.contains(2));
    assert!(!store.contains(3));
    assert!(store.get(0).is_none());
    assert_eq!(store.get(1), Some(&Vec::new()));
    assert_eq!(store.get(2), Some(&vec![(3u32, 30u64), (4, 40)]));
    store.push(vec![(5, 50)]);
    assert_eq!(store.get(3), Some(&vec![(5u32, 50u64)]));
    assert!(!store.contains(u64::MAX));
}

#[test]
fn merge_is_the_union_in_order() {
    let q: VecDeque<u64> = VecDeque::from(vec![2, 3, 9]);
    assert_eq!(merge(&vec![1, 3, 5], &q), vec![1, 2, 3, 5, 9]);
    assert_eq!(merge(&Vec::new(), &q), vec![2, 3, 9]);
    assert_eq!(merge(&vec![1, 3, 5], &VecDeque::new()), vec![1, 3, 5]);
    assert_eq!(merge(&Vec::new(), &VecDeque::new()), Vec::<u64>::new());
    assert_eq!(merge(&vec![4, 5], &VecDeque::from(vec![4, 5])), vec![4, 5]);
    assert_eq!(merge(&vec![7], &VecDeque::from(vec![0, u64::MAX])), vec![0, 7, u64::MAX]);
}

#[test]
fn merge_reads_a_deque_that_wrapped_around() {
    let mut q: VecDeque<u64> = VecDeque::with_capacity(4);
    for x in 0..4u64 {
        q.push_back(x);
    }
    q.pop_front();
    q.pop_front();
    q.push_back(4);
    q.push_back(5);
    assert_eq!(merge(&vec![3, 6], &q), vec![2, 3, 4, 5, 6]);
}

#[test]
fn generate_probes_the_leading_dimensions_and_indexes_all() {
    let mut index = InvertedIndex::new(16);
    index.append(1, 0);
    index.append(2, 0);
    index.append(2, 1);
    index.append(3, 1);
    index.append(4, 2);
    let query: SparseVector = vec![(2, 0), (4, 0), (3, 0), (9, 0)];
    let found = generate(&mut index, &query, 3, 2);
    assert_eq!(found, vec![0, 1, 2]);
    assert_eq!(list(&index, 1), vec![0]);
    assert_eq!(list(&index, 2), vec![0, 1, 3]);
    assert_eq!(list(&index, 3), vec![1, 3]);
    assert_eq!(list(&index, 4), vec![2, 3]);
    assert_eq!(list(&index, 9), vec![3]);
}

#[test]
fn generate_without_probes_finds_nothing() {
    let mut index = InvertedIndex::new(16);
    index.append(1, 0);
    let found = generate(&mut index, &vec![(1, 0)], 1, 0);
    assert!(found.is_empty());
    assert_eq!(list(&index, 1), vec![0, 1]);
    let found = generate(&mut index, &Vec::new(), 2, 5);
    assert!(found.is_empty());
    let found = generate(&mut index, &vec![(7, 0), (1, 0)], 2, 1);
    assert!(found.is_empty());
    let found = generate(&mut index, &vec![(7, 0), (1, 0)], 3, usize::MAX);
    assert_eq!(found, vec![0, 1, 2]);
}

#[test]
fn nearest_takes_the_smallest_distance() {
    assert_eq!(nearest(&vec![4, 5, 6], &vec![30, 10, 20], 100), Some((5, 10)));
    assert_eq!(nearest(&vec![4], &vec![0], 1), Some((4, 0)));
}

#[test]
fn nearest_breaks_a_tie_by_the_lowest_ordinal() {
    assert_eq!(nearest(&vec![4, 5, 6], &vec![10, 10, 10], 100), Some((4, 10)));
    assert_eq!(nearest(&vec![6, 5, 4], &vec![10, 10, 10], 100), Some((4, 10)));
    assert_eq!(nearest(&vec![5, 4, 6], &vec![10, 10, 9], 100), Some((6, 9)));
}

#[test]
fn nearest_leaves_out_what_reaches_the_threshold() {
    assert_eq!(nearest(&vec![4, 5], &vec![100, 101], 100), None);
    assert_eq!(nearest(&vec![4, 5], &vec![100, 99], 100), Some((5, 99)));
    assert_eq!(nearest(&Vec::new(), &Vec::new(), 100), None);
    assert_eq!(nearest(&vec![4], &vec![0], 0), None);
}

#[test]
fn nearest_does_not_depend_on_the_order() {
    let pairs: Vec<(u64, u64)> = vec![(1, 50), (2, 20), (3, 20), (4, 70), (5, 99)];
    let orders: Vec<Vec<usize>> = vec![
        vec![0, 1, 2, 3, 4],
        vec![4, 3, 2, 1, 0],
        vec![2, 0, 4, 1, 3],
        vec![3, 2, 1, 4, 0],
    ];
    for order in orders {
        let candidates: Vec<u64> = order.iter().map(|k| pairs[*k].0).collect();
        let distances: Vec<u64> = order.iter().map(|k| pairs[*k].1).collect();
        assert_eq!(nearest(&candidates, &distances, 60), Some((2, 20)));
    }
}

#[test]
fn nearest_orders_distances_as_numbers() {
    let distances: Vec<u64> = vec![0.3f64, 0.25, 1e-300, 0.5, f64::NAN].iter().map(|d| d.to_bits()).collect();
    assert_eq!(nearest(&vec![1, 2, 3, 4, 5], &distances, 0.69f64.to_bits()), Some((3, 1e-300f64.to_bits())));
    let rejected: Vec<u64> = vec![f64::NAN, f64::INFINITY, -0.0, -1.0, 0.69].iter().map(|d| d.to_bits()).collect();
    assert_eq!(nearest(&vec![1, 2, 3, 4, 5], &rejected, 0.69f64.to_bits()), None);
}

#[test]
fn clamp_turns_a_negative_difference_into_zero() {
    assert_eq!(clamp_distance((-1e-17f64).to_bits()), 0);
    assert_eq!(clamp_distance((-1.0f64).to_bits()), 0);
    assert_eq!(clamp_distance(f64::NEG_INFINITY.to_bits()), 0);
    assert_eq!(clamp_distance((-f64::MIN_POSITIVE).to_bits()), 0);
    assert_eq!(clamp_distance(0.28f64.to_bits()), 0.28f64.to_bits());
    assert_eq!(clamp_distance(0), 0);
    assert_eq!(clamp_distance(2.0f64.to_bits()), 2.0f64.to_bits());
    assert_eq!(clamp_distance(f64::INFINITY.to_bits()), f64::INFINITY.to_bits());
    assert_eq!(clamp_distance((-0.0f64).to_bits()), (-0.0f64).to_bits());
    assert!(f64::from_bits(clamp_distance(f64::NAN.to_bits())).is_nan());
    assert!(f64::from_bits(clamp_distance((-f64::NAN).to_bits())).is_nan());
}

#[test]
fn clamp_agrees_with_the_comparison_of_doubles() {
    let samples = [0.0f64, -0.0, 1.0, -1.0, 0.3, -0.3, 1e-320, -1e-320, f64::MAX, f64::MIN, f64::INFINITY, f64::NEG_INFINITY];
    for x in samples {
        let expected = if x < 0.0 { 0.0f64 } else { x };
        assert_eq!(clamp_distance(x.to_bits()), expected.to_bits(), "{}", x);
    }
}

#[test]
fn finite_weights_are_told_from_the_rest() {
    assert!(is_finite(0.0f64.to_bits()));
    assert!(is_finite((-0.0f64).to_bits()));
    assert!(is_finite(0.52915f64.to_bits()));
    assert!(is_finite(f64::MAX.to_bits()));
    assert!(is_finite(f64::MIN.to_bits()));
    assert!(is_finite(1e-320f64.to_bits()));
    assert!(!is_finite(f64::INFINITY.to_bits()));
    assert!(!is_finite(f64::NEG_INFINITY.to_bits()));
    assert!(!is_finite(f64::NAN.to_bits()));
    assert!(!is_finite(u64::MAX));
}

#[test]
fn entries_are_checked_in_order() {
    let fine = 0.5f64.to_bits();
    let inf = f64::INFINITY.to_bits();
    assert_eq!(check_entries(&Vec::new(), 0), Ok(()));
    assert_eq!(check_entries(&vec![(0, fine), (15, fine)], 16), Ok(()));
    assert_eq!(check_entries(&vec![(0, fine), (16, fine)], 16), Err(InputError::DimensionOutOfRange));
    assert_eq!(check_entries(&vec![(0, inf), (16, fine)], 16), Err(InputError::BadWeight));
    assert_eq!(check_entries(&vec![(16, inf), (0, fine)], 16), Err(InputError::DimensionOutOfRange));
    assert_eq!(check_entries(&vec![(3, fine), (3, fine)], 16), Ok(()));
    assert_eq!(check_entries(&vec![(0, fine)], 0), Err(InputError::DimensionOutOfRange));
}
