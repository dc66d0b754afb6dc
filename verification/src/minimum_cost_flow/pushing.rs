use crate::adjacency::{in_range, lemma_range_unique};
use crate::minimum_cost_flow::csr::{InsideEdge, CSR};
use vstd::prelude::*;

verus! {

/// The arcs after `amount` has been pushed along arc `a`: onto the arc and
/// off its reverse.
pub open spec fn moved(list: Seq<InsideEdge>, a: int, amount: int) -> Seq<InsideEdge> {
    let back = list[a].rev as int;
    let onto = list.update(a, InsideEdge { flow: (list[a].flow + amount) as i64, ..list[a] });
    onto.update(back, InsideEdge { flow: (onto[back].flow - amount) as i64, ..onto[back] })
}

/// The arcs after `amount` has been pushed along each of the first `upto`
/// arcs that `arcs` names, one after the other, but not along an arc that
/// cannot take it when its turn comes.
pub open spec fn moved_along(list: Seq<InsideEdge>, arcs: Seq<usize>, amount: int, upto: nat) -> Seq<InsideEdge>
    decreases upto,
{
    if upto == 0 {
        list
    } else {
        let before = moved_along(list, arcs, amount, (upto - 1) as nat);
        let a = arcs[upto - 1] as int;
        if before[a].upper - before[a].flow >= amount {
            moved(before, a, amount)
        } else {
            before
        }
    }
}

/// The sum of the flows on the arcs from `from` on and before `to`.
pub open spec fn flow_sum(list: Seq<InsideEdge>, from: int, to: int) -> int
    decreases to - from,
{
    if to <= from {
        0
    } else {
        flow_sum(list, from, to - 1) + list[to - 1].flow
    }
}

/// What lies on the arcs out of node `u`: the flow on the arcs that lead
/// out of it and what the arcs that lead into it can still take. It grows
/// by what `u` sends out more than before, and falls by what `u` receives
/// more than before.
pub open spec fn load(csr: &CSR, u: int) -> int {
    flow_sum(csr.inside_edge_list@, csr.start@[u] as int, csr.start@[u + 1] as int)
}

/// A new arc in place of arc `a` changes a sum of flows by the difference
/// of the flows, where `a` is among the arcs summed.
pub proof fn lemma_flow_sum_update(list: Seq<InsideEdge>, from: int, to: int, a: int, arc: InsideEdge)
    requires
        0 <= from <= to <= list.len(),
        0 <= a < list.len(),
    ensures
        flow_sum(list.update(a, arc), from, to) == flow_sum(list, from, to) + (if from <= a < to {
            arc.flow - list[a].flow
        } else {
            0
        }),
    decreases to - from,
{
    if from < to {
        lemma_flow_sum_update(list, from, to - 1, a, arc);
    }
}

/// A push of `amount` along arc `a` adds `amount` to the load of the tail
/// of the arc, takes it off the load of its head, and leaves the load of
/// every other node as it is.
pub proof fn lemma_load_moved(before: &CSR, after: &CSR, a: int, amount: int, w: int)
    requires
        before.wf(),
        after.same_shape(before),
        0 <= a < before.inside_edge_list@.len(),
        0 <= before.inside_edge_list@[a].flow + amount <= before.inside_edge_list@[a].upper,
        after.inside_edge_list@ == moved(before.inside_edge_list@, a, amount),
        0 <= w < before.num_nodes,
    ensures
        load(after, w) == load(before, w) + (if w == before.tail(a) {
            amount
        } else {
            0
        }) - (if w == before.inside_edge_list@[a].to {
            amount
        } else {
            0
        }),
{
    let list = before.inside_edge_list@;
    let back = list[a].rev as int;
    let n = before.num_nodes as int;
    assert(before.arc_ok(a));
    assert(before.arc_ok(back));
    let from = before.start@[w] as int;
    let to = before.start@[w + 1] as int;
    assert(before.start@[w] <= before.start@[w + 1]);
    assert(before.start@[w + 1] <= before.start@[n]);
    let arc = InsideEdge { flow: (list[a].flow + amount) as i64, ..list[a] };
    let onto = list.update(a, arc);
    let turned = InsideEdge { flow: (onto[back].flow - amount) as i64, ..onto[back] };
    lemma_flow_sum_update(list, from, to, a, arc);
    lemma_flow_sum_update(onto, from, to, back, turned);
    assert(after.start@ == before.start@);
    // arc `a` lies among the arcs of its tail, its reverse among those of its head
    assert(in_range(before.start@, before.tail(a), a));
    assert(in_range(before.start@, list[a].to as int, back));
    if from <= a < to {
        lemma_range_unique(before.start@, n, 2 * before.num_edges, w, before.tail(a), a);
    }
    if from <= back < to {
        lemma_range_unique(before.start@, n, 2 * before.num_edges, w, list[a].to as int, back);
    }
}

} // verus!
