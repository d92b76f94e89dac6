//! Why the search comes to an end.
//!
//! Every round of the search either records a new position, or lowers the
//! cost of a recorded one, or leaves the costs alone. The first can happen
//! once for each position within bounds, and the second only so often for
//! each cost. In a round of the third kind a node leaves the frontier and
//! the nodes that join it stand on positions of higher cost; a node counts
//! for more, the lower its cost is, so much more that all the nodes that one
//! round can add count for less than the node that it takes away.

use super::OpenNode;
use crate::grid::Pos;
use crate::predicate::{bounds, lemma_bounds_finite};
use vstd::arithmetic::power::{lemma_pow_increases, lemma_pow_positive, pow};
use vstd::prelude::*;

verus! {

/// More than the number of nodes that one scan can find.
pub open spec fn fanout() -> int {
    0x1000_0000
}

/// More than any cost.
pub open spec fn cost_limit() -> int {
    0x1_0000_0000
}

/// How much a node on a position of cost `cost` counts for.
pub open spec fn weight(cost: int) -> int {
    pow(fanout(), (cost_limit() - cost) as nat)
}

/// The cost recorded for `p`, or zero where none is.
pub open spec fn cost_at(costs: Map<Pos, u32>, p: Pos) -> int {
    if costs.contains_key(p) {
        costs[p] as int
    } else {
        0
    }
}

/// What the nodes of the frontier count for together.
pub open spec fn frontier_weight(open: Seq<(OpenNode, u32)>, costs: Map<Pos, u32>) -> int
    decreases open.len(),
{
    if open.len() == 0 {
        0
    } else {
        frontier_weight(open.drop_last(), costs) + weight(cost_at(costs, open.last().0.spec_pos()))
    }
}

/// The sum of the costs recorded for the positions of `order`.
pub open spec fn total_cost(order: Seq<Pos>, costs: Map<Pos, u32>) -> int
    decreases order.len(),
{
    if order.len() == 0 {
        0
    } else {
        total_cost(order.drop_last(), costs) + cost_at(costs, order.last())
    }
}

/// How many positions within bounds are not in `order`.
pub open spec fn unrecorded(order: Seq<Pos>) -> nat {
    bounds().difference(order.to_set()).len()
}

/// Whether `order` lists the positions that have a cost, each once, all
/// within bounds.
pub open spec fn recorded(costs: Map<Pos, u32>, order: Seq<Pos>) -> bool {
    &&& order.no_duplicates()
    &&& forall|p: Pos| order.contains(p) <==> #[trigger] costs.contains_key(p)
    &&& forall|p: Pos| #[trigger] costs.contains_key(p) ==> p.in_bounds()
}

/// Whether the search has come closer to its end by recording a position or
/// by lowering a cost.
pub open spec fn advanced(
    order: Seq<Pos>,
    costs: Map<Pos, u32>,
    old_order: Seq<Pos>,
    old_costs: Map<Pos, u32>,
) -> bool {
    unrecorded(order) < unrecorded(old_order) || (unrecorded(order) == unrecorded(old_order)
        && total_cost(order, costs) < total_cost(old_order, old_costs))
}

/// A node counts for at least one, and for as many times more than a node
/// of the next cost as a scan can find nodes, and more.
pub proof fn lemma_weight(cost: int)
    requires
        0 <= cost < cost_limit(),
    ensures
        weight(cost) == fanout() * weight(cost + 1),
        weight(cost + 1) >= 1,
        weight(cost) >= 1,
{
    lemma_pow_positive(fanout(), (cost_limit() - cost - 1) as nat);
    lemma_pow_positive(fanout(), (cost_limit() - cost) as nat);
    reveal(pow);
}

/// A node of higher cost counts for no more.
pub proof fn lemma_weight_falls(low: int, high: int)
    requires
        0 <= low <= high <= cost_limit(),
    ensures
        1 <= weight(high) <= weight(low),
{
    lemma_pow_positive(fanout(), (cost_limit() - high) as nat);
    lemma_pow_increases(fanout() as nat, (cost_limit() - high) as nat, (cost_limit() - low) as nat);
}

/// The frontier never counts for less than nothing.
pub proof fn lemma_frontier_weight_positive(open: Seq<(OpenNode, u32)>, costs: Map<Pos, u32>)
    ensures
        frontier_weight(open, costs) >= 0,
    decreases open.len(),
{
    if open.len() > 0 {
        lemma_frontier_weight_positive(open.drop_last(), costs);
        lemma_weight_falls(cost_at(costs, open.last().0.spec_pos()), cost_limit());
    }
}

/// A node that joins the frontier adds what it counts for.
pub proof fn lemma_frontier_push(
    open: Seq<(OpenNode, u32)>,
    costs: Map<Pos, u32>,
    entry: (OpenNode, u32),
)
    ensures
        frontier_weight(open.push(entry), costs) == frontier_weight(open, costs) + weight(
            cost_at(costs, entry.0.spec_pos()),
        ),
{
    assert(open.push(entry).drop_last() =~= open);
}

/// A node that leaves the frontier takes away what it counts for.
pub proof fn lemma_frontier_remove(open: Seq<(OpenNode, u32)>, costs: Map<Pos, u32>, at: int)
    requires
        0 <= at < open.len(),
    ensures
        frontier_weight(open.remove(at), costs) + weight(cost_at(costs, open[at].0.spec_pos()))
            == frontier_weight(open, costs),
    decreases open.len(),
{
    if at == open.len() - 1 {
        assert(open.remove(at) =~= open.drop_last());
    } else {
        lemma_frontier_remove(open.drop_last(), costs, at);
        assert(open.remove(at).drop_last() =~= open.drop_last().remove(at));
        assert(open.remove(at).last() == open.last());
    }
}

/// The sum of the costs is never negative.
pub proof fn lemma_total_cost_positive(order: Seq<Pos>, costs: Map<Pos, u32>)
    ensures
        total_cost(order, costs) >= 0,
    decreases order.len(),
{
    if order.len() > 0 {
        lemma_total_cost_positive(order.drop_last(), costs);
    }
}

/// Lowering the cost of one position leaves the sum no larger, and smaller
/// where the position is listed.
pub proof fn lemma_total_cost_lowered(order: Seq<Pos>, costs: Map<Pos, u32>, q: Pos, cost: u32)
    requires
        costs.contains_key(q),
        cost < costs[q],
    ensures
        total_cost(order, costs.insert(q, cost)) <= total_cost(order, costs),
        order.contains(q) ==> total_cost(order, costs.insert(q, cost)) < total_cost(order, costs),
    decreases order.len(),
{
    if order.len() > 0 {
        let rest = order.drop_last();
        lemma_total_cost_lowered(rest, costs, q, cost);
        if order.contains(q) && order.last() != q {
            let i = choose|i: int| 0 <= i < order.len() && order[i] == q;
            assert(rest[i] == q);
        }
    }
}

/// Recording a position within bounds leaves fewer unrecorded.
pub proof fn lemma_unrecorded_falls(order: Seq<Pos>, q: Pos)
    requires
        !order.contains(q),
        q.in_bounds(),
    ensures
        unrecorded(order.push(q)) < unrecorded(order),
{
    lemma_bounds_finite();
    let before = bounds().difference(order.to_set());
    let after = bounds().difference(order.push(q).to_set());
    assert(before.contains(q));
    assert forall|p: Pos| after.contains(p) implies #[trigger] before.remove(q).contains(p) by {
        let i = choose|i: int| 0 <= i < order.push(q).len() && order.push(q)[i] == p;
        if !order.to_set().contains(p) && p != q {
            assert(!order.push(q).contains(p)) by {
                if order.push(q).contains(p) {
                    let j = choose|j: int| 0 <= j < order.push(q).len() && order.push(q)[j] == p;
                    if j < order.len() {
                        assert(order[j] == p);
                    }
                }
            }
        }
        assert(order.push(q)[order.len() as int] == q);
        if order.to_set().contains(p) {
            let j = choose|j: int| 0 <= j < order.len() && order[j] == p;
            assert(order.push(q)[j] == p);
        }
    }
    vstd::set_lib::lemma_len_subset(after, before.remove(q));
}

/// A position that gets its first cost joins the list of recorded positions.
pub proof fn lemma_recorded_push(costs: Map<Pos, u32>, order: Seq<Pos>, q: Pos, cost: u32)
    requires
        recorded(costs, order),
        !costs.contains_key(q),
        q.in_bounds(),
    ensures
        recorded(costs.insert(q, cost), order.push(q)),
{
    let longer = order.push(q);
    let more = costs.insert(q, cost);
    assert(!order.contains(q));
    assert forall|i: int, j: int|
        0 <= i < longer.len() && 0 <= j < longer.len() && i != j implies longer[i] != longer[j] by {
        if i < order.len() {
            assert(order.contains(order[i]));
        }
        if j < order.len() {
            assert(order.contains(order[j]));
        }
    }
    assert forall|p: Pos| longer.contains(p) <==> #[trigger] more.contains_key(p) by {
        if longer.contains(p) {
            let i = choose|i: int| 0 <= i < longer.len() && longer[i] == p;
            if i < order.len() {
                assert(order.contains(p));
            }
        }
        if more.contains_key(p) {
            if p == q {
                assert(longer[order.len() as int] == q);
            } else {
                let i = choose|i: int| 0 <= i < order.len() && order[i] == p;
                assert(longer[i] == p);
            }
        }
    }
}

} // verus!
