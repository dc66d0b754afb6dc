use vstd::prelude::*;

verus! {

/// Mathematical model of one directed edge of a flow network.
pub struct Link {
    pub from: int,
    pub to: int,
    pub flow: int,
    pub lower: int,
    pub upper: int,
    pub cost: int,
}

/// What the edge `l` adds to the net outflow of node `u`.
pub open spec fn contribution(l: Link, u: int) -> int {
    (if l.from == u { l.flow } else { 0 }) - (if l.to == u { l.flow } else { 0 })
}

/// Net outflow of node `u`: flow on edges leaving `u` minus flow on edges entering `u`.
pub open spec fn net_out(links: Seq<Link>, u: int) -> int
    decreases links.len(),
{
    if links.len() == 0 {
        0
    } else {
        net_out(links.drop_last(), u) + contribution(links.last(), u)
    }
}

/// Sum of the upper bounds of all edges.
pub open spec fn capacity_sum(links: Seq<Link>) -> int
    decreases links.len(),
{
    if links.len() == 0 {
        0
    } else {
        capacity_sum(links.drop_last()) + links.last().upper
    }
}

/// Every edge joins two nodes below `n`.
pub open spec fn endpoints_below(links: Seq<Link>, n: int) -> bool {
    forall|i: int| 0 <= i < links.len() ==> 0 <= (#[trigger] links[i]).from < n && 0 <= links[i].to < n
}

/// Every edge carries a flow between its lower and its upper bound.
pub open spec fn within_bounds(links: Seq<Link>) -> bool {
    forall|i: int| 0 <= i < links.len() ==> (#[trigger] links[i]).lower <= links[i].flow <= links[i].upper
}

/// Two networks have the same edges up to the flow they carry.
pub open spec fn same_network(a: Seq<Link>, b: Seq<Link>) -> bool {
    &&& a.len() == b.len()
    &&& forall|i: int|
        0 <= i < a.len() ==> (#[trigger] a[i]).from == b[i].from && a[i].to == b[i].to && a[i].lower
            == b[i].lower && a[i].upper == b[i].upper && a[i].cost == b[i].cost
}

/// Being the same network is transitive.
pub proof fn lemma_same_network_transitive(a: Seq<Link>, b: Seq<Link>, c: Seq<Link>)
    requires
        same_network(a, b),
        same_network(b, c),
    ensures
        same_network(a, c),
{
    assert forall|i: int| 0 <= i < a.len() implies (#[trigger] a[i]).from == c[i].from && a[i].to == c[i].to
        && a[i].lower == c[i].lower && a[i].upper == c[i].upper && a[i].cost == c[i].cost by {
        assert(b[i].from == c[i].from);
    }
}

/// The network `links` with the flow of edge `i` replaced by `flow`.
pub open spec fn with_flow(links: Seq<Link>, i: int, flow: int) -> Seq<Link> {
    links.update(
        i,
        Link {
            from: links[i].from,
            to: links[i].to,
            flow,
            lower: links[i].lower,
            upper: links[i].upper,
            cost: links[i].cost,
        },
    )
}

/// Changing the flow of one edge by `delta` moves `delta` units of net outflow
/// from the head of that edge to its tail and leaves every other node alone.
pub proof fn lemma_net_out_with_flow(links: Seq<Link>, i: int, flow: int, u: int)
    requires
        0 <= i < links.len(),
    ensures
        net_out(with_flow(links, i, flow), u) == net_out(links, u) + (if links[i].from == u {
            flow - links[i].flow
        } else {
            0
        }) - (if links[i].to == u {
            flow - links[i].flow
        } else {
            0
        }),
    decreases links.len(),
{
    let updated = with_flow(links, i, flow);
    if i == links.len() - 1 {
        assert(updated.drop_last() =~= links.drop_last());
    } else {
        assert(updated.drop_last() =~= with_flow(links.drop_last(), i, flow));
        lemma_net_out_with_flow(links.drop_last(), i, flow, u);
    }
}

/// A node that no edge touches has no net outflow.
pub proof fn lemma_net_out_outside(links: Seq<Link>, n: int, u: int)
    requires
        endpoints_below(links, n),
        !(0 <= u < n),
    ensures
        net_out(links, u) == 0,
    decreases links.len(),
{
    if links.len() > 0 {
        assert(links.last() == links[links.len() - 1]);
        assert forall|i: int| 0 <= i < links.drop_last().len() implies 0 <= (#[trigger] links.drop_last()[i]).from < n
            && 0 <= links.drop_last()[i].to < n by {
            assert(links.drop_last()[i] == links[i]);
        }
        lemma_net_out_outside(links.drop_last(), n, u);
    }
}

/// A network that carries no flow has no net outflow anywhere.
pub proof fn lemma_net_out_zero_flow(links: Seq<Link>, u: int)
    requires
        forall|i: int| 0 <= i < links.len() ==> (#[trigger] links[i]).flow == 0,
    ensures
        net_out(links, u) == 0,
    decreases links.len(),
{
    if links.len() > 0 {
        lemma_net_out_zero_flow(links.drop_last(), u);
    }
}

/// With flows between zero and the upper bounds, no node sends out more than
/// the total capacity of the network, nor takes in more.
pub proof fn lemma_net_out_bounded(links: Seq<Link>, u: int)
    requires
        forall|i: int| 0 <= i < links.len() ==> 0 <= (#[trigger] links[i]).flow <= links[i].upper,
    ensures
        -capacity_sum(links) <= net_out(links, u) <= capacity_sum(links),
    decreases links.len(),
{
    if links.len() > 0 {
        lemma_net_out_bounded(links.drop_last(), u);
    }
}

/// Every prefix of a network with non-negative upper bounds has a capacity sum
/// between zero and that of the whole network.
pub proof fn lemma_capacity_sum_prefix(links: Seq<Link>, k: int)
    requires
        0 <= k <= links.len(),
        forall|i: int| 0 <= i < links.len() ==> 0 <= (#[trigger] links[i]).upper,
    ensures
        0 <= capacity_sum(links.take(k)) <= capacity_sum(links),
    decreases links.len() - k,
{
    if k == links.len() {
        assert(links.take(k) =~= links);
        lemma_capacity_sum_nonnegative(links);
    } else {
        lemma_capacity_sum_prefix(links, k + 1);
        assert(links.take(k + 1).drop_last() =~= links.take(k));
        lemma_capacity_sum_nonnegative(links.take(k));
    }
}

/// The capacity sum depends on the upper bounds alone.
pub proof fn lemma_capacity_sum_same_network(a: Seq<Link>, b: Seq<Link>)
    requires
        a.len() == b.len(),
        forall|i: int| 0 <= i < a.len() ==> (#[trigger] a[i]).upper == b[i].upper,
    ensures
        capacity_sum(a) == capacity_sum(b),
    decreases a.len(),
{
    if a.len() > 0 {
        lemma_capacity_sum_same_network(a.drop_last(), b.drop_last());
    }
}

/// Non-negative upper bounds sum to a non-negative capacity.
pub proof fn lemma_capacity_sum_nonnegative(links: Seq<Link>)
    requires
        forall|i: int| 0 <= i < links.len() ==> 0 <= (#[trigger] links[i]).upper,
    ensures
        0 <= capacity_sum(links),
    decreases links.len(),
{
    if links.len() > 0 {
        lemma_capacity_sum_nonnegative(links.drop_last());
    }
}

} // verus!
