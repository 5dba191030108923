//! Exhaustive search over the mask space: every subset mask in
//! `[0, 2^n)` is scored, and the scored entries are reduced to the single
//! best one — maximal value, with value ties broken toward the lowest mask.
//! The tie-break order is total, so the merge is commutative and associative
//! and the outcome does not depend on how the mask space is partitioned.

use crate::eval::{
    bit_set, eval_value, eval_weight, evaluate_vector, infeasible, lemma_empty_mask,
    lemma_infeasible_iff_overweight, lemma_reported_weight_fits, subset_value, subset_weight,
};
use rayon::iter::{IntoParallelIterator, ParallelIterator};
use vstd::prelude::*;

verus! {

/// A scored subset: its mask, reported weight, and reported value.
pub type Entry = (u64, i64, i64);

/// Entry `e` holds the scores that the evaluator reports for its mask.
pub open spec fn entry_scored(e: Entry, items: Seq<(i32, i32)>, capacity: i32) -> bool {
    &&& e.1 as int == eval_weight(e.0, items, capacity)
    &&& e.2 as int == eval_value(e.0, items, capacity)
}

/// Mask `m` cannot beat entry `e`: its value is lower, or equal with a mask
/// no lower.
pub open spec fn outranked_by(m: u64, e: Entry, items: Seq<(i32, i32)>, capacity: i32) -> bool {
    ||| eval_value(m, items, capacity) < e.2 as int
    ||| (eval_value(m, items, capacity) == e.2 as int && m >= e.0)
}

/// Entry `e` is the winner over the masks in `[lo, hi)`: it is scored, its
/// mask lies in the range, and no mask of the range beats it.
pub open spec fn is_best_in(
    e: Entry,
    lo: u64,
    hi: u64,
    items: Seq<(i32, i32)>,
    capacity: i32,
) -> bool {
    &&& lo <= e.0 < hi
    &&& entry_scored(e, items, capacity)
    &&& forall|m: u64| lo <= m < hi ==> #[trigger] outranked_by(m, e, items, capacity)
}

/// The merge rule of the reduction: keep the entry of higher value, and on a
/// value tie the one with the lower mask. The lowest mask is the empty
/// subset, so on an all-tie the empty subset wins and the infeasibility
/// sentinel can never beat it.
pub open spec fn merge_spec(a: Entry, b: Entry) -> Entry {
    if b.2 > a.2 || (b.2 == a.2 && b.0 < a.0) {
        b
    } else {
        a
    }
}

/// Combines two scored entries, keeping the better one under the total
/// (value, mask) order.
pub fn merge_best(a: Entry, b: Entry) -> (r: Entry)
    ensures
        r == merge_spec(a, b),
{
    if b.2 > a.2 || (b.2 == a.2 && b.0 < a.0) {
        b
    } else {
        a
    }
}

/// Scores one mask and pairs it with its reported weight and value.
pub fn evaluate_entry(bitset: u64, items: &Vec<(i32, i32)>, capacity: i32) -> (r: Entry)
    requires
        items@.len() <= 64,
    ensures
        r.0 == bitset,
        entry_scored(r, items@, capacity),
{
    let (w, v) = evaluate_vector(bitset, items, capacity);
    (bitset, w, v)
}

/// Sequentially reduces one partition of the mask space to its winner.
pub fn best_in_range(lo: u64, hi: u64, items: &Vec<(i32, i32)>, capacity: i32) -> (r: Entry)
    requires
        lo < hi,
        items@.len() <= 64,
    ensures
        is_best_in(r, lo, hi, items@, capacity),
{
    let mut best = evaluate_entry(lo, items, capacity);
    proof {
        assert(outranked_by(lo, best, items@, capacity));
    }
    let mut m: u64 = lo + 1;
    while m < hi
        invariant
            lo < m <= hi,
            items@.len() <= 64,
            is_best_in(best, lo, m, items@, capacity),
        decreases hi - m,
    {
        let e = evaluate_entry(m, items, capacity);
        let merged = merge_best(best, e);
        proof {
            assert forall|mm: u64| lo <= mm < m + 1 implies #[trigger] outranked_by(
                mm,
                merged,
                items@,
                capacity,
            ) by {
                if mm < m {
                    assert(outranked_by(mm, best, items@, capacity));
                }
            }
        }
        best = merged;
        m = m + 1;
    }
    best
}

/// Partition law: merging the winners of two adjacent partitions of the mask
/// space gives the winner of their union.
pub proof fn lemma_merge_partition(
    a: Entry,
    b: Entry,
    lo: u64,
    mid: u64,
    hi: u64,
    items: Seq<(i32, i32)>,
    capacity: i32,
)
    requires
        is_best_in(a, lo, mid, items, capacity),
        is_best_in(b, mid, hi, items, capacity),
    ensures
        is_best_in(merge_spec(a, b), lo, hi, items, capacity),
{
    let c = merge_spec(a, b);
    assert forall|m: u64| lo <= m < hi implies #[trigger] outranked_by(
        m,
        c,
        items,
        capacity,
    ) by {
        if m < mid {
            assert(outranked_by(m, a, items, capacity));
        } else {
            assert(outranked_by(m, b, items, capacity));
        }
    }
}

/// Determinism law: a range of the mask space has exactly one winner, so the
/// reported result cannot depend on scheduling or on the merge order.
pub proof fn lemma_best_unique(
    a: Entry,
    b: Entry,
    lo: u64,
    hi: u64,
    items: Seq<(i32, i32)>,
    capacity: i32,
)
    requires
        is_best_in(a, lo, hi, items, capacity),
        is_best_in(b, lo, hi, items, capacity),
    ensures
        a == b,
{
    assert(outranked_by(a.0, b, items, capacity));
    assert(outranked_by(b.0, a, items, capacity));
}

/// Exhaustiveness law: with non-negative item weights and capacity, the
/// winner's reported value equals the maximum total value over every subset
/// of the range whose total weight fits within the capacity.
pub proof fn lemma_exhaustive(e: Entry, hi: u64, items: Seq<(i32, i32)>, capacity: i32)
    requires
        is_best_in(e, 0, hi, items, capacity),
        capacity >= 0,
        forall|i: int| 0 <= i < items.len() ==> (#[trigger] items[i]).0 >= 0,
    ensures
        forall|m: u64|
            m < hi && subset_weight(m, items, items.len() as int) <= capacity as int
                ==> #[trigger] subset_value(m, items, items.len() as int) <= e.2 as int,
        exists|m: u64|
            m < hi && subset_weight(m, items, items.len() as int) <= capacity as int
                && #[trigger] subset_value(m, items, items.len() as int) == e.2 as int,
{
    let n = items.len() as int;
    assert forall|m: u64|
        m < hi && subset_weight(m, items, n) <= capacity as int implies #[trigger] subset_value(
        m,
        items,
        n,
    ) <= e.2 as int by {
        lemma_infeasible_iff_overweight(m, items, capacity);
        assert(outranked_by(m, e, items, capacity));
    }
    lemma_infeasible_iff_overweight(e.0, items, capacity);
    if !infeasible(e.0, items, capacity) {
        assert(e.0 < hi && subset_weight(e.0, items, n) <= capacity as int && subset_value(
            e.0,
            items,
            n,
        ) == e.2 as int);
    } else {
        lemma_empty_mask(items, n);
        assert(0u64 < hi && subset_weight(0u64, items, n) <= capacity as int && subset_value(
            0u64,
            items,
            n,
        ) == e.2 as int);
    }
}

/// Relies on rayon's `into_par_iter` over an integer range, `map`, and
/// `reduce_with`: every mask in `[0, total)` is scored by `evaluate_entry`
/// exactly once, `reduce_with` returns `None` exactly on an empty range, and
/// otherwise combines all scored entries with `merge_best` in some tree
/// order. `merge_best` returns the greater of its two arguments under the
/// total (value, mask) order, and all masks of the range are distinct, so
/// every combination tree yields the range's unique greatest entry.
#[verifier::external_body]
fn par_best(total: u64, items: &Vec<(i32, i32)>, capacity: i32) -> (r: Option<Entry>)
    requires
        items@.len() <= 64,
    ensures
        r is None <==> total == 0,
        r matches Some(e) ==> is_best_in(e, 0, total, items@, capacity),
{
    (0..total)
        .into_par_iter()
        .map(|mask| evaluate_entry(mask, items, capacity))
        .reduce_with(|a, b| merge_best(a, b))
}

/// The 0/1 indicator sequence of a mask over `n` items, in item order.
pub open spec fn indicator_seq(mask: u64, n: int) -> Seq<u8> {
    Seq::new(n as nat, |i: int| if bit_set(mask, i as u64) { 1u8 } else { 0u8 })
}

/// Reported when the instance has more items than the mask width of the
/// search can address.
#[derive(Clone, Copy, Debug, PartialEq, Eq, Structural)]
pub enum KnapsackError {
    TooManyItems,
}

/// Most items a search space can hold: one bit of the mask per item, with
/// one mask left over so that the count `2^n` of masks itself fits in `u64`.
pub const MAX_ITEMS: usize = 63;

/// Finds the best packing of the items by scoring all `2^n` subset masks in
/// parallel: returns the 0/1 indicator of the winning subset in item order,
/// its reported weight, and its reported value. The winner has the maximal
/// reported value, and among equal values the lowest mask. Fails fast, with
/// no work dispatched, when the item count exceeds [`MAX_ITEMS`].
pub fn knapsack_brute_force(items: &Vec<(i32, i32)>, capacity: i32) -> (r: Result<
    (Vec<u8>, i64, i64),
    KnapsackError,
>)
    ensures
        items@.len() > MAX_ITEMS as int <==> r is Err,
        r is Err ==> r == Err::<(Vec<u8>, i64, i64), KnapsackError>(KnapsackError::TooManyItems),
        r matches Ok(out) ==> {
            &&& out.0@.len() == items@.len()
            &&& exists|m: u64|
                #![trigger indicator_seq(m, items@.len() as int)]
                {
                    &&& is_best_in(
                        (m, out.1, out.2),
                        0,
                        1u64 << items@.len() as u64,
                        items@,
                        capacity,
                    )
                    &&& out.0@ == indicator_seq(m, items@.len() as int)
                }
            &&& capacity >= 0 ==> out.1 as int <= capacity as int
        },
        items@.len() == 0 ==> (r matches Ok(out) && out.0@.len() == 0 && out.1 == 0 && out.2
            == 0),
{
    let n = items.len();
    if n > MAX_ITEMS {
        return Err(KnapsackError::TooManyItems);
    }
    let total: u64 = 1u64 << (n as u64);
    proof {
        let nu = n as u64;
        assert(nu < 64 ==> 1u64 << nu > 0) by (bit_vector);
    }
    let best = match par_best(total, items, capacity) {
        Some(e) => e,
        None => vstd::pervasive::unreached(),
    };
    let mut indicator: Vec<u8> = Vec::new();
    let mut i: usize = 0;
    while i < n
        invariant
            0 <= i <= n == items@.len() <= 64,
            indicator@.len() == i,
            forall|j: int| 0 <= j < i ==> indicator@[j] == indicator_seq(best.0, n as int)[j],
        decreases n - i,
    {
        let bit = (best.0 >> (i as u64)) & 1u64;
        proof {
            let mk = best.0;
            let iu = i as u64;
            assert((mk >> iu) & 1u64 == 0u64 || (mk >> iu) & 1u64 == 1u64) by (bit_vector);
        }
        indicator.push(bit as u8);
        i = i + 1;
    }
    proof {
        assert(indicator@ =~= indicator_seq(best.0, n as int));
        if capacity >= 0 {
            lemma_reported_weight_fits(best.0, items@, capacity);
        }
        if n == 0 {
            assert(1u64 << 0u64 == 1u64) by (bit_vector);
            assert(best.0 == 0);
            assert(eval_weight(best.0, items@, capacity) == 0);
            assert(eval_value(best.0, items@, capacity) == 0);
        }
    }
    Ok((indicator, best.1, best.2))
}

} // verus!
