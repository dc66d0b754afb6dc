use crate::network::{contribution, endpoints_below, net_out, same_network, Link};
use vstd::prelude::*;

verus! {

/// `links` carries a flow from `source` to `sink` over `n` nodes: every edge
/// respects its capacity and every other node passes on what it receives.
pub open spec fn is_flow(links: Seq<Link>, n: int, source: int, sink: int) -> bool {
    &&& endpoints_below(links, n)
    &&& forall|i: int| 0 <= i < links.len() ==> 0 <= (#[trigger] links[i]).flow <= links[i].upper
    &&& forall|u: int| 0 <= u < n && u != source && u != sink ==> #[trigger] net_out(links, u) == 0
}

/// `links` carries a flow of the greatest value that its network admits.
pub open spec fn is_maximum_flow(links: Seq<Link>, n: int, source: int, sink: int) -> bool {
    &&& is_flow(links, n, source, sink)
    &&& forall|other: Seq<Link>|
        same_network(other, links) && #[trigger] is_flow(other, n, source, sink) ==> net_out(other, source)
            <= net_out(links, source)
}

/// Flow can still be moved from `u` to `v`: along an edge `u -> v` that is not
/// full, or back along an edge `v -> u` that carries flow.
pub open spec fn residual_step(links: Seq<Link>, u: int, v: int) -> bool {
    exists|i: int|
        0 <= i < links.len() && ((#[trigger] links[i]).from == u && links[i].to == v && links[i].flow
            < links[i].upper || links[i].to == u && links[i].from == v && links[i].flow > 0)
}

/// `path` is a walk in the residual graph.
pub open spec fn is_residual_path(links: Seq<Link>, path: Seq<int>) -> bool {
    &&& path.len() >= 1
    &&& forall|k: int| 0 <= k < path.len() - 1 ==> residual_step(links, #[trigger] path[k], path[k + 1])
}

/// There is a walk from `source` to `sink` along which more flow could be sent.
pub open spec fn has_augmenting_path(links: Seq<Link>, source: int, sink: int) -> bool {
    exists|path: Seq<int>| #[trigger] is_residual_path(links, path) && path[0] == source && path.last() == sink
}

/// Some walk in the residual graph leads from `source` to `v`.
pub open spec fn is_reachable(links: Seq<Link>, source: int, v: int) -> bool {
    exists|path: Seq<int>| #[trigger] is_residual_path(links, path) && path[0] == source && path.last() == v
}

/// A residual walk can be extended by a residual step.
pub proof fn lemma_residual_path_extends(links: Seq<Link>, path: Seq<int>, v: int)
    requires
        is_residual_path(links, path),
        residual_step(links, path.last(), v),
    ensures
        is_residual_path(links, path.push(v)),
        path.push(v)[0] == path[0],
        path.push(v).last() == v,
{
    let longer = path.push(v);
    assert forall|k: int| 0 <= k < longer.len() - 1 implies residual_step(links, #[trigger] longer[k], longer[k + 1]) by {
        if k < path.len() - 1 {
            assert(residual_step(links, path[k], path[k + 1]));
        }
    }
}

/// A set of nodes that holds the first node of a residual walk and that
/// no residual step leaves holds every node of the walk.
pub proof fn lemma_residual_path_stays(links: Seq<Link>, inside: Seq<bool>, path: Seq<int>, k: int)
    requires
        is_residual_path(links, path),
        0 <= k < path.len(),
        0 <= path[0] < inside.len(),
        inside[path[0]],
        forall|u: int, v: int|
            0 <= u < inside.len() && inside[u] && #[trigger] residual_step(links, u, v) ==> 0 <= v < inside.len()
                && inside[v],
    ensures
        0 <= path[k] < inside.len(),
        inside[path[k]],
    decreases k,
{
    if k > 0 {
        lemma_residual_path_stays(links, inside, path, k - 1);
        assert(residual_step(links, path[k - 1], path[k - 1 + 1]));
    }
}

/// `side` holds `source` but not `sink`, every edge that leaves it is full
/// and every edge that enters it is empty.
pub open spec fn is_saturated_cut(links: Seq<Link>, side: Set<int>, source: int, sink: int) -> bool {
    &&& side.contains(source)
    &&& !side.contains(sink)
    &&& forall|i: int|
        0 <= i < links.len() ==> (side.contains((#[trigger] links[i]).from) && !side.contains(links[i].to)
            ==> links[i].flow == links[i].upper) && (!side.contains(links[i].from) && side.contains(links[i].to)
            ==> links[i].flow == 0)
}

/// Flow that crosses out of `side` minus flow that crosses into it.
pub open spec fn cut_flow(links: Seq<Link>, side: Set<int>) -> int
    decreases links.len(),
{
    if links.len() == 0 {
        0
    } else {
        cut_flow(links.drop_last(), side) + (if side.contains(links.last().from) {
            links.last().flow
        } else {
            0
        }) - (if side.contains(links.last().to) {
            links.last().flow
        } else {
            0
        })
    }
}

/// Total capacity of the edges that cross out of `side`.
pub open spec fn cut_capacity(links: Seq<Link>, side: Set<int>) -> int
    decreases links.len(),
{
    if links.len() == 0 {
        0
    } else {
        cut_capacity(links.drop_last(), side) + (if side.contains(links.last().from) && !side.contains(
            links.last().to,
        ) {
            links.last().upper
        } else {
            0
        })
    }
}

/// Net outflow of the nodes of `side` below `k`, added up.
pub open spec fn side_out(links: Seq<Link>, side: Set<int>, k: int) -> int
    decreases k,
{
    if k <= 0 {
        0
    } else {
        side_out(links, side, k - 1) + (if side.contains(k - 1) {
            net_out(links, k - 1)
        } else {
            0
        })
    }
}

proof fn lemma_side_out_last(links: Seq<Link>, side: Set<int>, k: int)
    requires
        links.len() > 0,
        0 <= k,
    ensures
        side_out(links, side, k) == side_out(links.drop_last(), side, k) + (if side.contains(links.last().from)
            && 0 <= links.last().from < k {
            links.last().flow
        } else {
            0
        }) - (if side.contains(links.last().to) && 0 <= links.last().to < k {
            links.last().flow
        } else {
            0
        }),
    decreases k,
{
    if k > 0 {
        lemma_side_out_last(links, side, k - 1);
    }
}

proof fn lemma_side_out_empty(side: Set<int>, k: int)
    ensures
        side_out(Seq::<Link>::empty(), side, k) == 0,
    decreases k,
{
    if k > 0 {
        lemma_side_out_empty(side, k - 1);
    }
}

/// Adding up node by node gives the same as adding up edge by edge.
pub proof fn lemma_side_out_closed(links: Seq<Link>, side: Set<int>, n: int)
    requires
        0 <= n,
        endpoints_below(links, n),
    ensures
        side_out(links, side, n) == cut_flow(links, side),
{
    lemma_side_out_is_cut_flow(links, side, n);
}

proof fn lemma_side_out_is_cut_flow(links: Seq<Link>, side: Set<int>, n: int)
    requires
        0 <= n,
        endpoints_below(links, n),
    ensures
        side_out(links, side, n) == cut_flow(links, side),
    decreases links.len(),
{
    if links.len() == 0 {
        assert(links =~= Seq::<Link>::empty());
        lemma_side_out_empty(side, n);
    } else {
        assert(endpoints_below(links.drop_last(), n)) by {
            assert forall|i: int| 0 <= i < links.drop_last().len() implies 0 <= (#[trigger] links.drop_last()[i]).from
                < n && 0 <= links.drop_last()[i].to < n by {
                assert(links.drop_last()[i] == links[i]);
            }
        }
        lemma_side_out_is_cut_flow(links.drop_last(), side, n);
        lemma_side_out_last(links, side, n);
        assert(links.last() == links[links.len() - 1]);
    }
}

proof fn lemma_side_out_is_value(links: Seq<Link>, side: Set<int>, n: int, source: int, sink: int, k: int)
    requires
        is_flow(links, n, source, sink),
        side.contains(source),
        !side.contains(sink),
        0 <= k <= n,
    ensures
        side_out(links, side, k) == (if 0 <= source < k {
            net_out(links, source)
        } else {
            0
        }),
    decreases k,
{
    if k > 0 {
        lemma_side_out_is_value(links, side, n, source, sink, k - 1);
    }
}

proof fn lemma_cut_flow_bounded(other: Seq<Link>, links: Seq<Link>, side: Set<int>)
    requires
        same_network(other, links),
        forall|i: int| 0 <= i < other.len() ==> 0 <= (#[trigger] other[i]).flow <= other[i].upper,
    ensures
        cut_flow(other, side) <= cut_capacity(links, side),
    decreases links.len(),
{
    if links.len() > 0 {
        assert(same_network(other.drop_last(), links.drop_last())) by {
            assert forall|i: int| 0 <= i < other.drop_last().len() implies (#[trigger] other.drop_last()[i]).from
                == links.drop_last()[i].from && other.drop_last()[i].to == links.drop_last()[i].to
                && other.drop_last()[i].lower == links.drop_last()[i].lower && other.drop_last()[i].upper
                == links.drop_last()[i].upper && other.drop_last()[i].cost == links.drop_last()[i].cost by {
                assert(other.drop_last()[i] == other[i]);
                assert(links.drop_last()[i] == links[i]);
            }
        }
        assert forall|i: int| 0 <= i < other.drop_last().len() implies 0 <= (#[trigger] other.drop_last()[i]).flow
            <= other.drop_last()[i].upper by {
            assert(other.drop_last()[i] == other[i]);
        }
        lemma_cut_flow_bounded(other.drop_last(), links.drop_last(), side);
        assert(other.last() == other[other.len() - 1]);
        assert(links.last() == links[links.len() - 1]);
    }
}

proof fn lemma_cut_flow_saturated(links: Seq<Link>, side: Set<int>)
    requires
        forall|i: int|
            0 <= i < links.len() ==> (side.contains((#[trigger] links[i]).from) && !side.contains(links[i].to)
                ==> links[i].flow == links[i].upper) && (!side.contains(links[i].from) && side.contains(
                links[i].to,
            ) ==> links[i].flow == 0),
    ensures
        cut_flow(links, side) == cut_capacity(links, side),
    decreases links.len(),
{
    if links.len() > 0 {
        assert forall|i: int| 0 <= i < links.drop_last().len() implies (side.contains(
            (#[trigger] links.drop_last()[i]).from,
        ) && !side.contains(links.drop_last()[i].to) ==> links.drop_last()[i].flow == links.drop_last()[i].upper)
            && (!side.contains(links.drop_last()[i].from) && side.contains(links.drop_last()[i].to)
            ==> links.drop_last()[i].flow == 0) by {
            assert(links.drop_last()[i] == links[i]);
        }
        lemma_cut_flow_saturated(links.drop_last(), side);
        assert(links.last() == links[links.len() - 1]);
    }
}

/// The value of a flow is the flow that crosses any cut between source and sink.
pub proof fn lemma_value_crosses_cut(links: Seq<Link>, side: Set<int>, n: int, source: int, sink: int)
    requires
        is_flow(links, n, source, sink),
        0 <= source < n,
        side.contains(source),
        !side.contains(sink),
    ensures
        net_out(links, source) == cut_flow(links, side),
{
    lemma_side_out_is_value(links, side, n, source, sink, n);
    lemma_side_out_is_cut_flow(links, side, n);
}

/// A flow that saturates a cut is a maximum flow.
pub proof fn lemma_saturated_cut_is_maximum(links: Seq<Link>, side: Set<int>, n: int, source: int, sink: int)
    requires
        is_flow(links, n, source, sink),
        0 <= source < n,
        is_saturated_cut(links, side, source, sink),
    ensures
        is_maximum_flow(links, n, source, sink),
{
    lemma_value_crosses_cut(links, side, n, source, sink);
    lemma_cut_flow_saturated(links, side);
    assert forall|other: Seq<Link>| same_network(other, links) && #[trigger] is_flow(other, n, source, sink) implies net_out(
        other,
        source,
    ) <= net_out(links, source) by {
        lemma_value_crosses_cut(other, side, n, source, sink);
        lemma_cut_flow_bounded(other, links, side);
    }
}

proof fn lemma_path_stays_inside(links: Seq<Link>, side: Set<int>, source: int, sink: int, path: Seq<int>, k: int)
    requires
        is_saturated_cut(links, side, source, sink),
        forall|i: int| 0 <= i < links.len() ==> (#[trigger] links[i]).flow <= links[i].upper && 0 <= links[i].flow,
        is_residual_path(links, path),
        path[0] == source,
        0 <= k < path.len(),
    ensures
        side.contains(path[k]),
    decreases k,
{
    if k > 0 {
        lemma_path_stays_inside(links, side, source, sink, path, k - 1);
        assert(residual_step(links, path[k - 1], path[k - 1 + 1]));
    }
}

/// A flow that saturates a cut leaves no augmenting path.
pub proof fn lemma_saturated_cut_blocks_paths(links: Seq<Link>, side: Set<int>, source: int, sink: int)
    requires
        is_saturated_cut(links, side, source, sink),
        forall|i: int| 0 <= i < links.len() ==> (#[trigger] links[i]).flow <= links[i].upper && 0 <= links[i].flow,
    ensures
        !has_augmenting_path(links, source, sink),
{
    if has_augmenting_path(links, source, sink) {
        let path = choose|path: Seq<int>| #[trigger] is_residual_path(links, path) && path[0] == source && path.last() == sink;
        lemma_path_stays_inside(links, side, source, sink, path, path.len() - 1);
    }
}

/// On one network, all maximum flows have the same value.
pub proof fn lemma_maximum_flows_agree(a: Seq<Link>, b: Seq<Link>, n: int, source: int, sink: int)
    requires
        same_network(a, b),
        is_maximum_flow(a, n, source, sink),
        is_maximum_flow(b, n, source, sink),
    ensures
        net_out(a, source) == net_out(b, source),
{
    assert(same_network(b, a));
    assert(is_flow(a, n, source, sink));
    assert(is_flow(b, n, source, sink));
}

} // verus!
