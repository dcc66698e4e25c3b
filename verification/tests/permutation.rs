use std::collections::HashSet;

use tsp_brute::perm::{permute, permute_inner, Recorder};

fn factorial(n: usize) -> usize {
    (1..=n).product::<usize>().max(1)
}

/// Every ordering of the input appears exactly once: the observed
/// arrangements are n! in number, pairwise distinct, and each a permutation
/// of the input.
#[test]
fn completeness_small_n() {
    for n in 1..=6usize {
        let input: Vec<u32> = (0..n as u32).collect();
        let mut rec = Recorder::new();
        permute(input.clone(), &mut rec);
        assert_eq!(rec.seen.len(), factorial(n), "count for n = {n}");
        let distinct: HashSet<Vec<u32>> = rec.seen.iter().cloned().collect();
        assert_eq!(distinct.len(), factorial(n), "repeats for n = {n}");
        for arrangement in &rec.seen {
            let mut sorted = arrangement.clone();
            sorted.sort();
            assert_eq!(sorted, input, "not a permutation for n = {n}");
        }
    }
}

/// The first arrangement shown is the input exactly as given.
#[test]
fn first_arrangement_is_input() {
    for n in 1..=5usize {
        let input: Vec<u32> = (0..n as u32).map(|v| v * 10 + 3).collect();
        let mut rec = Recorder::new();
        permute(input.clone(), &mut rec);
        assert_eq!(rec.seen[0], input);
    }
}

/// A one-element sequence is shown exactly once, unchanged.
#[test]
fn single_element_observed_once() {
    let mut rec = Recorder::new();
    permute(vec![42u32], &mut rec);
    assert_eq!(rec.seen, vec![vec![42u32]]);
}

/// For up to three elements, consecutive arrangements differ by exactly one
/// pairwise swap of two positions.
#[test]
fn minimal_mutation_up_to_three() {
    for n in 1..=3usize {
        let input: Vec<u32> = (0..n as u32).collect();
        let mut rec = Recorder::new();
        permute(input, &mut rec);
        for w in rec.seen.windows(2) {
            let differing: Vec<usize> = (0..n).filter(|&i| w[0][i] != w[1][i]).collect();
            assert_eq!(differing.len(), 2, "not one swap: {:?} -> {:?}", w[0], w[1]);
            let (i, j) = (differing[0], differing[1]);
            assert_eq!(w[0][i], w[1][j]);
            assert_eq!(w[0][j], w[1][i]);
        }
    }
}

/// The exact enumeration order: each level runs its blocks in sequence,
/// swapping by parity between them.
#[test]
fn enumeration_order_three_elements() {
    let mut rec = Recorder::new();
    permute(vec![1u32, 2, 3], &mut rec);
    assert_eq!(
        rec.seen,
        vec![
            vec![1u32, 2, 3],
            vec![2, 1, 3],
            vec![3, 1, 2],
            vec![1, 3, 2],
            vec![2, 3, 1],
            vec![3, 2, 1],
        ]
    );
}

/// A full pass restores the working sequence at odd lengths and leaves it
/// rotated right by one at even lengths.
#[test]
fn exit_arrangement_by_parity() {
    for n in 1..=6usize {
        let mut work: Vec<u32> = (0..n as u32).collect();
        let mut rec = Recorder::new();
        permute_inner(n, &mut work, &mut rec);
        let expected: Vec<u32> = if n % 2 == 0 {
            let mut rotated = vec![n as u32 - 1];
            rotated.extend(0..n as u32 - 1);
            rotated
        } else {
            (0..n as u32).collect()
        };
        assert_eq!(work, expected, "exit arrangement for n = {n}");
    }
}

/// Equal elements at different positions are treated as distinct: the count
/// is still n!.
#[test]
fn duplicate_values_still_counted_positionally() {
    let mut rec = Recorder::new();
    permute(vec![5u32, 5, 5], &mut rec);
    assert_eq!(rec.seen.len(), 6);
    for arrangement in &rec.seen {
        assert_eq!(arrangement, &vec![5u32, 5, 5]);
    }
}
