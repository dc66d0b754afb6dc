use crate::arith::clamp;
use crate::minimum_cost_flow::spanning_tree_structure::{cost_total, InternalEdge};
use vstd::prelude::*;

verus! {

/// The sum of the costs of the first `upto` edges.
pub open spec fn cost_plain(edges: Seq<InternalEdge>, upto: nat) -> int
    decreases upto,
{
    if upto == 0 {
        0
    } else {
        cost_plain(edges, (upto - 1) as nat) + edges[upto - 1].cost
    }
}

/// The sum of the costs of those among the first `upto` edges that are
/// picked.
pub open spec fn picked_sum(edges: Seq<InternalEdge>, picked: Seq<bool>, upto: nat) -> int
    decreases upto,
{
    if upto == 0 {
        0
    } else {
        picked_sum(edges, picked, (upto - 1) as nat) + (if picked[upto - 1] {
            edges[upto - 1].cost as int
        } else {
            0
        })
    }
}

/// Where no edge is picked, the sum is zero.
pub proof fn lemma_picked_none(edges: Seq<InternalEdge>, picked: Seq<bool>, upto: nat)
    requires
        upto <= picked.len(),
        forall|e: int| 0 <= e < picked.len() ==> !#[trigger] picked[e],
    ensures
        picked_sum(edges, picked, upto) == 0,
    decreases upto,
{
    if upto > 0 {
        lemma_picked_none(edges, picked, (upto - 1) as nat);
    }
}

/// One more edge picked adds its cost.
pub proof fn lemma_picked_one_more(edges: Seq<InternalEdge>, picked: Seq<bool>, e: int, upto: nat)
    requires
        0 <= e < picked.len(),
        upto <= picked.len(),
        !picked[e],
    ensures
        picked_sum(edges, picked.update(e, true), upto) == picked_sum(edges, picked, upto) + (if e < upto {
            edges[e].cost as int
        } else {
            0
        }),
    decreases upto,
{
    if upto > 0 {
        lemma_picked_one_more(edges, picked, e, (upto - 1) as nat);
    }
}

/// Where no cost is negative, the edges picked and one that is not
/// picked cost no more than all edges.
pub proof fn lemma_picked_room(edges: Seq<InternalEdge>, picked: Seq<bool>, e: int, upto: nat)
    requires
        0 <= e < picked.len(),
        upto <= picked.len(),
        upto <= edges.len(),
        !picked[e],
        forall|i: int| 0 <= i < edges.len() ==> (#[trigger] edges[i]).cost >= 0,
    ensures
        0 <= picked_sum(edges, picked, upto),
        picked_sum(edges, picked, upto) + (if e < upto {
            edges[e].cost as int
        } else {
            0
        }) <= cost_plain(edges, upto),
    decreases upto,
{
    if upto > 0 {
        lemma_picked_room(edges, picked, e, (upto - 1) as nat);
        assert(edges[upto - 1].cost >= 0);
    }
}

/// The sum of costs that are not negative rises with their number.
pub proof fn lemma_plain_rises(edges: Seq<InternalEdge>, fewer: nat, more: nat)
    requires
        fewer <= more <= edges.len(),
        forall|i: int| 0 <= i < edges.len() ==> (#[trigger] edges[i]).cost >= 0,
    ensures
        cost_plain(edges, fewer) <= cost_plain(edges, more),
    decreases more,
{
    if fewer < more {
        lemma_plain_rises(edges, fewer, (more - 1) as nat);
        assert(edges[more - 1].cost >= 0);
    }
}

/// The sum kept within the range is the sum where a greater sum fits.
pub proof fn lemma_total_plain(edges: Seq<InternalEdge>, upto: nat, all: nat)
    requires
        upto <= all <= edges.len(),
        forall|i: int| 0 <= i < edges.len() ==> (#[trigger] edges[i]).cost >= 0,
        cost_plain(edges, all) <= i64::MAX,
    ensures
        cost_total(edges, upto) == cost_plain(edges, upto),
    decreases upto,
{
    lemma_plain_rises(edges, 0, upto);
    lemma_plain_rises(edges, upto, all);
    if upto > 0 {
        lemma_total_plain(edges, (upto - 1) as nat, all);
        lemma_plain_rises(edges, (upto - 1) as nat, upto);
        lemma_plain_rises(edges, 0, (upto - 1) as nat);
        assert(clamp(cost_plain(edges, (upto - 1) as nat) + edges[upto - 1].cost) == cost_plain(edges, upto));
    }
}

} // verus!
