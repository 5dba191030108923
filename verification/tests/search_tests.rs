use knapsack::eval::evaluate_vector;
use knapsack::search::{best_in_range, evaluate_entry, knapsack_brute_force, merge_best};
use knapsack::search::KnapsackError;

/// Reference solver written independently of the library: straight loops,
/// same scoring policy (sentinel on overweight, lowest mask wins ties).
fn reference_best(items: &[(i32, i32)], capacity: i32) -> (u64, i64, i64) {
    let n = items.len();
    let mut best: Option<(u64, i64, i64)> = None;
    for mask in 0..(1u64 << n) {
        let mut w: i64 = 0;
        let mut v: i64 = 0;
        let mut feasible = true;
        for i in 0..n {
            if (mask >> i) & 1 == 1 {
                w += items[i].0 as i64;
                if w > capacity as i64 {
                    feasible = false;
                    break;
                }
                v += items[i].1 as i64;
            }
        }
        let entry = if feasible { (mask, w, v) } else { (mask, 0, 0) };
        best = match best {
            None => Some(entry),
            Some(b) => {
                if entry.2 > b.2 || (entry.2 == b.2 && entry.0 < b.0) {
                    Some(entry)
                } else {
                    Some(b)
                }
            }
        };
    }
    best.unwrap()
}

fn indicator(mask: u64, n: usize) -> Vec<u8> {
    (0..n).map(|i| ((mask >> i) & 1) as u8).collect()
}

#[test]
fn evaluate_feasible_subset() {
    let items = vec![(2, 3), (3, 4), (4, 5), (5, 6)];
    // Items 1 and 2: weight 3 + 4 = 7, value 4 + 5 = 9.
    assert_eq!(evaluate_vector(0b0110, &items, 10), (7, 9));
    // Empty subset.
    assert_eq!(evaluate_vector(0, &items, 10), (0, 0));
    // All items: weight 14 > 10, sentinel.
    assert_eq!(evaluate_vector(0b1111, &items, 10), (0, 0));
}

#[test]
fn evaluate_stops_at_first_overweight_prefix() {
    // The running weight is checked item by item: the subset {0, 1} passes
    // the capacity already at item 0, even though the negative weight of
    // item 1 would bring the total back within it.
    let items = vec![(5, 1), (-3, 1)];
    assert_eq!(evaluate_vector(0b11, &items, 3), (0, 0));
    // Item 1 alone is fine.
    assert_eq!(evaluate_vector(0b10, &items, 3), (-3, 1));
}

#[test]
fn merge_prefers_value_then_mask() {
    assert_eq!(merge_best((1, 2, 5), (2, 9, 4)), (1, 2, 5));
    assert_eq!(merge_best((1, 2, 4), (2, 9, 5)), (2, 9, 5));
    // Value tie: the lower mask wins, in either argument order.
    assert_eq!(merge_best((6, 7, 9), (9, 7, 9)), (6, 7, 9));
    assert_eq!(merge_best((9, 7, 9), (6, 7, 9)), (6, 7, 9));
}

#[test]
fn example_scenario_finds_the_optimum() {
    // The unique optimum is items {0, 1, 3}: weight 2 + 3 + 5 = 10, value
    // 3 + 4 + 6 = 13.
    let items = vec![(2, 3), (3, 4), (4, 5), (5, 6)];
    let (vector, weight, value) = knapsack_brute_force(&items, 10).unwrap();
    assert_eq!(vector, vec![1, 1, 0, 1]);
    assert_eq!(weight, 10);
    assert_eq!(value, 13);
}

#[test]
fn genuine_tie_broken_toward_lowest_mask() {
    // With capacity 7 two optima of value 9 remain: items {1, 2} (mask 6,
    // weight 7) and items {0, 3} (mask 9, weight 7). The documented rule
    // reports the lowest mask, so items {1, 2} win.
    let items = vec![(2, 3), (3, 4), (4, 5), (5, 6)];
    let (vector, weight, value) = knapsack_brute_force(&items, 7).unwrap();
    assert_eq!(vector, vec![0, 1, 1, 0]);
    assert_eq!(weight, 7);
    assert_eq!(value, 9);
}

#[test]
fn zero_capacity_keeps_empty_subset() {
    let items = vec![(1, 5)];
    let (vector, weight, value) = knapsack_brute_force(&items, 0).unwrap();
    assert_eq!(vector, vec![0]);
    assert_eq!(weight, 0);
    assert_eq!(value, 0);
}

#[test]
fn empty_instance_returns_empty_subset() {
    let items: Vec<(i32, i32)> = Vec::new();
    for capacity in [0, 7, 1000] {
        let (vector, weight, value) = knapsack_brute_force(&items, capacity).unwrap();
        assert_eq!(vector, Vec::<u8>::new());
        assert_eq!(weight, 0);
        assert_eq!(value, 0);
    }
}

#[test]
fn too_many_items_fails_fast() {
    let items: Vec<(i32, i32)> = (0..64).map(|i| (i, i)).collect();
    assert_eq!(knapsack_brute_force(&items, 100), Err(KnapsackError::TooManyItems));
    assert_eq!(knapsack_brute_force(&items, 0), Err(KnapsackError::TooManyItems));
}

#[test]
fn matches_reference_enumeration() {
    let cases: Vec<(Vec<(i32, i32)>, i32)> = vec![
        (vec![(2, 3), (3, 4), (4, 5), (5, 6)], 10),
        (vec![(1, 1), (2, 2), (3, 3), (4, 4), (5, 5), (6, 6)], 9),
        (vec![(7, 3), (2, 8), (9, 1), (4, 4), (3, 7), (6, 2), (5, 5), (1, 9)], 12),
        (vec![(10, 1), (10, 1), (10, 1)], 5),
        (vec![(0, 0), (0, 7), (1, 1)], 0),
        (vec![(3, 9), (3, 9), (3, 9), (3, 9), (2, 1), (2, 1), (5, 20)], 11),
    ];
    for (items, capacity) in cases {
        let (mask, w, v) = reference_best(&items, capacity);
        let got = knapsack_brute_force(&items, capacity).unwrap();
        assert_eq!(got.0, indicator(mask, items.len()));
        assert_eq!(got.1, w);
        assert_eq!(got.2, v);
    }
}

#[test]
fn reported_weight_never_exceeds_capacity() {
    let cases: Vec<(Vec<(i32, i32)>, i32)> = vec![
        (vec![(2, 3), (3, 4), (4, 5), (5, 6)], 10),
        (vec![(8, 2), (5, 9), (13, 13), (1, 1), (2, 2)], 14),
        (vec![(1, 5)], 0),
        (vec![], 3),
    ];
    for (items, capacity) in cases {
        let (_, weight, _) = knapsack_brute_force(&items, capacity).unwrap();
        assert!(weight <= capacity as i64);
    }
}

#[test]
fn partition_invariance() {
    let items = vec![(7, 3), (2, 8), (9, 1), (4, 4), (3, 7), (6, 2), (5, 5), (1, 9)];
    let capacity = 12;
    let n = items.len();
    let total = 1u64 << n;
    let mut results = Vec::new();
    for parts in [1u64, 2, 4, 16] {
        let chunk = total / parts;
        let mut acc: Option<(u64, i64, i64)> = None;
        for p in 0..parts {
            let lo = p * chunk;
            let hi = if p + 1 == parts { total } else { lo + chunk };
            let local = best_in_range(lo, hi, &items, capacity);
            acc = Some(match acc {
                None => local,
                Some(a) => merge_best(a, local),
            });
        }
        results.push(acc.unwrap());
    }
    assert_eq!(results[0], results[1]);
    assert_eq!(results[0], results[2]);
    assert_eq!(results[0], results[3]);
    // The merged winner is also what the parallel search reports.
    let (vector, weight, value) = knapsack_brute_force(&items, capacity).unwrap();
    assert_eq!(vector, indicator(results[0].0, n));
    assert_eq!(weight, results[0].1);
    assert_eq!(value, results[0].2);
}

#[test]
fn repeated_runs_are_identical() {
    let items = vec![(3, 9), (3, 9), (3, 9), (3, 9), (2, 1), (2, 1), (5, 20)];
    let first = knapsack_brute_force(&items, 11).unwrap();
    for _ in 0..5 {
        assert_eq!(knapsack_brute_force(&items, 11).unwrap(), first);
    }
}

#[test]
fn entry_pairs_mask_with_scores() {
    let items = vec![(2, 3), (3, 4)];
    assert_eq!(evaluate_entry(0b01, &items, 10), (0b01, 2, 3));
    assert_eq!(evaluate_entry(0b11, &items, 4), (0b11, 0, 0));
}
