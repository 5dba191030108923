//! Scoring of one candidate subset: total weight and total value of the
//! items selected by a bitmask, with an early exit as soon as the running
//! weight passes the capacity.

use vstd::prelude::*;

verus! {

/// True when bit `i` of `mask` is set, that is, item `i` is in the subset.
pub open spec fn bit_set(mask: u64, i: u64) -> bool {
    (mask >> i) & 1u64 == 1u64
}

/// Total weight of the selected items among the first `k`.
pub open spec fn subset_weight(mask: u64, items: Seq<(i32, i32)>, k: int) -> int
    decreases k,
{
    if k <= 0 {
        0
    } else {
        subset_weight(mask, items, k - 1)
            + if bit_set(mask, (k - 1) as u64) { items[k - 1].0 as int } else { 0 }
    }
}

/// Total value of the selected items among the first `k`.
pub open spec fn subset_value(mask: u64, items: Seq<(i32, i32)>, k: int) -> int
    decreases k,
{
    if k <= 0 {
        0
    } else {
        subset_value(mask, items, k - 1)
            + if bit_set(mask, (k - 1) as u64) { items[k - 1].1 as int } else { 0 }
    }
}

/// The running weight, taken just after item `i` is added, passes the
/// capacity: scoring stops there and the subset is scored as infeasible.
pub open spec fn exceeds_at(mask: u64, items: Seq<(i32, i32)>, capacity: i32, i: int) -> bool {
    bit_set(mask, i as u64) && subset_weight(mask, items, i + 1) > capacity as int
}

/// The subset is scored as infeasible: at some selected item the running
/// weight passes the capacity.
pub open spec fn infeasible(mask: u64, items: Seq<(i32, i32)>, capacity: i32) -> bool {
    exists|i: int| 0 <= i < items.len() && exceeds_at(mask, items, capacity, i)
}

/// Weight reported for a subset: its total weight, or the sentinel 0 when
/// the subset is infeasible.
pub open spec fn eval_weight(mask: u64, items: Seq<(i32, i32)>, capacity: i32) -> int {
    if infeasible(mask, items, capacity) {
        0
    } else {
        subset_weight(mask, items, items.len() as int)
    }
}

/// Value reported for a subset: its total value, or the sentinel 0 when the
/// subset is infeasible. The sentinel never beats the empty subset, which is
/// always present with value 0.
pub open spec fn eval_value(mask: u64, items: Seq<(i32, i32)>, capacity: i32) -> int {
    if infeasible(mask, items, capacity) {
        0
    } else {
        subset_value(mask, items, items.len() as int)
    }
}

/// Scores the subset that `bitset` encodes: walks the items in order, adds
/// the weight and value of each selected one, and reports the sentinel
/// `(0, 0)` as soon as the running weight passes the capacity.
pub fn evaluate_vector(bitset: u64, items: &Vec<(i32, i32)>, capacity: i32) -> (r: (i64, i64))
    requires
        items@.len() <= 64,
    ensures
        r.0 as int == eval_weight(bitset, items@, capacity),
        r.1 as int == eval_value(bitset, items@, capacity),
{
    let n = items.len();
    let mut total_weight: i64 = 0;
    let mut total_value: i64 = 0;
    let mut i: usize = 0;
    while i < n
        invariant
            n == items@.len() <= 64,
            0 <= i <= n,
            total_weight as int == subset_weight(bitset, items@, i as int),
            total_value as int == subset_value(bitset, items@, i as int),
            -0x8000_0000 * (i as int) <= total_weight as int <= 0x8000_0000 * (i as int),
            -0x8000_0000 * (i as int) <= total_value as int <= 0x8000_0000 * (i as int),
            forall|j: int| 0 <= j < i ==> !exceeds_at(bitset, items@, capacity, j),
        decreases n - i,
    {
        if (bitset >> (i as u64)) & 1u64 == 1u64 {
            total_weight = total_weight + items[i].0 as i64;
            if total_weight > capacity as i64 {
                proof {
                    assert(exceeds_at(bitset, items@, capacity, i as int));
                }
                return (0, 0);
            }
            total_value = total_value + items[i].1 as i64;
        }
        i = i + 1;
    }
    proof {
        assert forall|j: int| 0 <= j < items@.len() implies !exceeds_at(
            bitset,
            items@,
            capacity,
            j,
        ) by {}
    }
    (total_weight, total_value)
}

/// Helper for the feasibility bound: while no selected prefix has passed the
/// capacity, every running weight stays within it.
proof fn lemma_prefix_weight_within(
    mask: u64,
    items: Seq<(i32, i32)>,
    capacity: i32,
    k: int,
)
    requires
        capacity >= 0,
        0 <= k <= items.len(),
        forall|i: int| 0 <= i < k ==> !exceeds_at(mask, items, capacity, i),
    ensures
        subset_weight(mask, items, k) <= capacity as int,
    decreases k,
{
    if k > 0 {
        if bit_set(mask, (k - 1) as u64) {
            assert(!exceeds_at(mask, items, capacity, k - 1));
        } else {
            lemma_prefix_weight_within(mask, items, capacity, k - 1);
        }
    }
}

/// With non-negative item weights, a running weight never shrinks.
pub proof fn lemma_subset_weight_monotonic(mask: u64, items: Seq<(i32, i32)>, j: int, k: int)
    requires
        0 <= j <= k <= items.len(),
        forall|i: int| 0 <= i < items.len() ==> (#[trigger] items[i]).0 >= 0,
    ensures
        subset_weight(mask, items, j) <= subset_weight(mask, items, k),
    decreases k - j,
{
    if j < k {
        lemma_subset_weight_monotonic(mask, items, j, k - 1);
    }
}

/// With non-negative item weights and capacity, the early-exit rule marks a
/// subset infeasible exactly when its total weight exceeds the capacity.
pub proof fn lemma_infeasible_iff_overweight(mask: u64, items: Seq<(i32, i32)>, capacity: i32)
    requires
        capacity >= 0,
        forall|i: int| 0 <= i < items.len() ==> (#[trigger] items[i]).0 >= 0,
    ensures
        infeasible(mask, items, capacity) <==> subset_weight(mask, items, items.len() as int)
            > capacity as int,
{
    if infeasible(mask, items, capacity) {
        let i = choose|i: int| 0 <= i < items.len() && exceeds_at(mask, items, capacity, i);
        lemma_subset_weight_monotonic(mask, items, i + 1, items.len() as int);
    } else {
        assert forall|i: int| 0 <= i < items.len() implies !exceeds_at(
            mask,
            items,
            capacity,
            i,
        ) by {}
        lemma_prefix_weight_within(mask, items, capacity, items.len() as int);
    }
}

/// The empty subset selects nothing, so both of its running totals are 0.
pub proof fn lemma_empty_mask(items: Seq<(i32, i32)>, k: int)
    requires
        0 <= k <= items.len(),
    ensures
        subset_weight(0u64, items, k) == 0,
        subset_value(0u64, items, k) == 0,
    decreases k,
{
    if k > 0 {
        let iu = (k - 1) as u64;
        assert((0u64 >> iu) & 1u64 == 0u64) by (bit_vector);
        lemma_empty_mask(items, k - 1);
    }
}

/// Feasibility law: with a non-negative capacity, the weight reported for
/// any subset never exceeds the capacity — an infeasible subset is reported
/// with the sentinel weight 0, and a feasible one really fits.
pub proof fn lemma_reported_weight_fits(mask: u64, items: Seq<(i32, i32)>, capacity: i32)
    requires
        capacity >= 0,
    ensures
        eval_weight(mask, items, capacity) <= capacity as int,
{
    if !infeasible(mask, items, capacity) {
        assert forall|i: int| 0 <= i < items.len() implies !exceeds_at(
            mask,
            items,
            capacity,
            i,
        ) by {}
        lemma_prefix_weight_within(mask, items, capacity, items.len() as int);
    }
}

} // verus!
