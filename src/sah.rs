use vstd::prelude::*;
use crate::bvh::splits;
use crate::nearest::{agrees_order, strict_order};

verus! {

/// The position of the least of `costs` under `lt`, scanning in order and
/// moving only to a strictly smaller cost, so that the first of equal least
/// costs wins.
pub open spec fn least_index<H>(costs: Seq<H>, lt: spec_fn(H, H) -> bool) -> int
    decreases costs.len(),
{
    if costs.len() <= 1 {
        0
    } else {
        let kept = least_index(costs.drop_last(), lt);
        if lt(costs.last(), costs[kept]) {
            costs.len() - 1
        } else {
            kept
        }
    }
}

/// The least position is a position, and no cost is strictly below its cost.
pub proof fn lemma_least_index<H>(costs: Seq<H>, lt: spec_fn(H, H) -> bool)
    requires
        costs.len() > 0,
        strict_order(lt),
    ensures
        0 <= least_index(costs, lt) < costs.len(),
        forall|j: int| 0 <= j < costs.len() ==> !lt(#[trigger] costs[j], costs[least_index(costs, lt)]),
    decreases costs.len(),
{
    if costs.len() > 1 {
        let rest = costs.drop_last();
        lemma_least_index(rest, lt);
        let kept = least_index(rest, lt);
        let r = least_index(costs, lt);
        assert forall|j: int| 0 <= j < costs.len() implies !lt(#[trigger] costs[j], costs[r]) by {
            if j < costs.len() - 1 {
                assert(rest[j] == costs[j]);
                assert(!lt(rest[j], rest[kept]));
                if r != kept && lt(costs[j], costs[r]) {
                    assert(lt(costs[j], costs[kept]));
                }
            }
        }
    }
}

/// The position of the least of `costs`, the first of equal least costs;
/// `closer(a, b)` says whether cost `a` is strictly below cost `b`.
pub fn least<H, C: Fn(&H, &H) -> bool>(costs: &Vec<H>, closer: &C) -> (r: usize)
    requires
        costs@.len() > 0,
        forall|a: &H, b: &H| #[trigger] call_requires(*closer, (a, b)),
    ensures
        r < costs@.len(),
        forall|lt: spec_fn(H, H) -> bool| #[trigger] agrees_order(*closer, lt) ==> r == least_index(costs@, lt),
{
    let mut best: usize = 0;
    let mut k: usize = 1;
    assert forall|lt: spec_fn(H, H) -> bool| #[trigger] agrees_order(*closer, lt) implies best == least_index(
        costs@.take(1),
        lt,
    ) by {}
    while k < costs.len()
        invariant
            1 <= k <= costs@.len(),
            best < k,
            forall|a: &H, b: &H| #[trigger] call_requires(*closer, (a, b)),
            forall|lt: spec_fn(H, H) -> bool| #[trigger] agrees_order(*closer, lt) ==> best == least_index(
                costs@.take(k as int),
                lt,
            ),
        decreases costs@.len() - k,
    {
        let ghost before = best;
        if closer(&costs[k], &costs[best]) {
            best = k;
        }
        proof {
            assert forall|lt: spec_fn(H, H) -> bool| #[trigger] agrees_order(*closer, lt) implies best
                == least_index(costs@.take(k + 1), lt) by {
                assert(costs@.take(k + 1).drop_last() =~= costs@.take(k as int));
                assert(costs@.take(k + 1)[before as int] == costs@[before as int]);
            }
        }
        k = k + 1;
    }
    assert(costs@.take(k as int) =~= costs@);
    best
}

/// Where the surface area heuristic splits a node.
#[derive(Clone, Copy, Debug, PartialEq, Eq, Structural)]
pub struct Split {
    /// The axis along which the leaves are ordered by the centres of their bounds.
    pub axis: usize,
    /// How many leaves, in that order, go to the left subtree.
    pub split: usize,
}

/// The split of least cost for a node of `n` leaves. `costs` holds, axis by
/// axis, the cost of putting the first `i + 1` leaves on the left for each
/// `i` below `n - 1`; among equal least costs the first axis, then the
/// smallest split, wins.
pub fn sah_choice<H, C: Fn(&H, &H) -> bool>(costs: &Vec<H>, n: usize, closer: &C) -> (r: Split)
    requires
        n >= 2,
        costs@.len() == 3 * (n - 1),
        forall|a: &H, b: &H| #[trigger] call_requires(*closer, (a, b)),
    ensures
        r.axis < 3,
        1 <= r.split < n,
        forall|lt: spec_fn(H, H) -> bool| #[trigger] agrees_order(*closer, lt) ==> r.axis * (n - 1) + r.split - 1
            == least_index(costs@, lt),
{
    let k = least(costs, closer);
    let per_axis = n - 1;
    let axis = k / per_axis;
    let split = k % per_axis + 1;
    assert(axis * per_axis + k % per_axis == k) by (nonlinear_arith)
        requires axis == k / per_axis, per_axis > 0;
    assert(axis < 3) by (nonlinear_arith)
        requires axis == k / per_axis, per_axis > 0, k < 3 * per_axis;
    Split { axis, split }
}

/// One flag per leaf: `true` for the leaves at the first `split` entries of
/// `order`. Entries of `order` at or past `n` are skipped.
pub fn left_mask(order: &Vec<usize>, split: usize, n: usize) -> (r: Vec<bool>)
    ensures
        r@.len() == n,
        forall|j: int| 0 <= j < n ==> #[trigger] r@[j] == exists|k: int|
            0 <= k < split && k < order@.len() && order@[k] == j,
{
    let mut r: Vec<bool> = Vec::new();
    let mut j: usize = 0;
    while j < n
        invariant
            j <= n,
            r@.len() == j,
            forall|i: int| 0 <= i < j ==> !#[trigger] r@[i],
        decreases n - j,
    {
        r.push(false);
        j = j + 1;
    }
    let mut k: usize = 0;
    while k < split && k < order.len()
        invariant
            k <= split,
            k <= order@.len(),
            r@.len() == n,
            forall|i: int| 0 <= i < n ==> #[trigger] r@[i] == exists|m: int| 0 <= m < k && order@[m] == i,
        decreases order@.len() - k,
    {
        let i = order[k];
        if i < n {
            r.set(i, true);
        }
        proof {
            assert forall|i2: int| 0 <= i2 < n implies #[trigger] r@[i2] == exists|m: int|
                0 <= m < k + 1 && order@[m] == i2 by {
                if order@[k as int] == i2 {
                    assert(0 <= k < k + 1 && order@[k as int] == i2);
                }
            }
        }
        k = k + 1;
    }
    proof {
        assert forall|i: int| 0 <= i < n implies #[trigger] r@[i] == exists|m: int|
            0 <= m < split && m < order@.len() && order@[m] == i by {
            if exists|m: int| 0 <= m < split && m < order@.len() && order@[m] == i {
                let m = choose|m: int| 0 <= m < split && m < order@.len() && order@[m] == i;
                assert(m < k);
            }
        }
    }
    r
}

/// `order` lists each of `0..n` once.
pub open spec fn is_order(order: Seq<usize>, n: nat) -> bool {
    &&& order.len() == n
    &&& forall|k: int| 0 <= k < n ==> #[trigger] order[k] < n
    &&& forall|k: int, m: int| 0 <= k < m < n ==> #[trigger] order[k] != #[trigger] order[m]
}

/// A split strictly between none and all of the leaves, taken along an
/// order of the leaves, puts at least one leaf on each side.
pub proof fn lemma_left_mask_splits(order: Seq<usize>, split: int, n: nat, mask: Seq<bool>)
    requires
        is_order(order, n),
        1 <= split < n,
        mask.len() == n,
        forall|j: int| 0 <= j < n ==> #[trigger] mask[j] == exists|k: int|
            0 <= k < split && k < order.len() && order[k] == j,
    ensures
        splits(mask, n),
{
    let first = order[0] as int;
    assert(mask[first]);
    let last = order[n - 1] as int;
    if mask[last] {
        let k = choose|k: int| 0 <= k < split && k < order.len() && order[k] == last;
        assert(order[k] != order[n - 1]);
    }
    assert(!mask[last]);
}

} // verus!
