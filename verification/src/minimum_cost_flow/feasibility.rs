use crate::maximum_flow::cut::{cut_flow, is_flow, is_maximum_flow, side_out};
use crate::maximum_flow::dinic::Dinic;
use crate::maximum_flow::graph::links_of;
use crate::minimum_cost_flow::graph::{
    flow_bound, lemma_flow_bound_prefix, lemma_flow_bound_same_network, lemma_net_out_within_flow_bound, magnitude,
    supply_sum, Graph,
};
use crate::minimum_cost_flow::optimality::{is_feasible, meets_supplies};
use crate::network::{capacity_sum, lemma_capacity_sum_same_network, lemma_same_network_transitive};
use crate::network::{contribution, endpoints_below, net_out, same_network, within_bounds, Link};
use vstd::prelude::*;

verus! {

/// The network with every flow at the lower bound of its edge.
pub open spec fn at_lower(links: Seq<Link>) -> Seq<Link> {
    Seq::new(
        links.len(),
        |i: int|
            Link {
                from: links[i].from,
                to: links[i].to,
                flow: links[i].lower,
                lower: links[i].lower,
                upper: links[i].upper,
                cost: links[i].cost,
            },
    )
}

/// The network with every lower bound taken out: what an edge carries
/// above its lower bound, against the room between its bounds.
pub open spec fn shifted(links: Seq<Link>) -> Seq<Link> {
    Seq::new(
        links.len(),
        |i: int|
            Link {
                from: links[i].from,
                to: links[i].to,
                flow: links[i].flow - links[i].lower,
                lower: 0,
                upper: links[i].upper - links[i].lower,
                cost: 0,
            },
    )
}

/// What node `u` has to send out above what the lower bounds make it send.
pub open spec fn demand(links: Seq<Link>, b: Seq<int>, u: int) -> int {
    b[u] - net_out(at_lower(links), u)
}

/// The demands of the nodes below `n`.
pub open spec fn demands(links: Seq<Link>, b: Seq<int>, n: int) -> Seq<int> {
    Seq::new(n as nat, |u: int| demand(links, b, u))
}

/// Sum of the first `k` numbers of `s`.
pub open spec fn sum_to(s: Seq<int>, k: int) -> int
    decreases k,
{
    if k <= 0 {
        0
    } else {
        sum_to(s, k - 1) + s[k - 1]
    }
}

/// The positive part of a number.
pub open spec fn positive(x: int) -> int {
    if x > 0 {
        x
    } else {
        0
    }
}

/// The positive parts of the numbers of `r`.
pub open spec fn positives(r: Seq<int>) -> Seq<int> {
    Seq::new(r.len(), |u: int| positive(r[u]))
}

/// The positive parts of the negated numbers of `r`.
pub open spec fn negatives(r: Seq<int>) -> Seq<int> {
    Seq::new(r.len(), |u: int| positive(-r[u]))
}

/// For each of the first `k` nodes an arc from the source `n` that feeds
/// the node with what it has to send out, and an arc to the sink `n + 1`
/// that drains what it has to take in; these arcs carry the flows `a` and `c`.
pub open spec fn supply_arcs(r: Seq<int>, a: Seq<int>, c: Seq<int>, k: int, n: int) -> Seq<Link>
    decreases k,
{
    if k <= 0 {
        Seq::empty()
    } else {
        supply_arcs(r, a, c, k - 1, n).push(
            Link { from: n, to: k - 1, flow: a[k - 1], lower: 0, upper: positive(r[k - 1]), cost: 0 },
        ).push(Link { from: k - 1, to: n + 1, flow: c[k - 1], lower: 0, upper: positive(-r[k - 1]), cost: 0 })
    }
}

pub proof fn lemma_supply_arcs_len(r: Seq<int>, a: Seq<int>, c: Seq<int>, k: int, n: int)
    requires
        0 <= k,
    ensures
        supply_arcs(r, a, c, k, n).len() == 2 * k,
    decreases k,
{
    if k > 0 {
        lemma_supply_arcs_len(r, a, c, k - 1, n);
    }
}

pub proof fn lemma_supply_arcs_index(r: Seq<int>, a: Seq<int>, c: Seq<int>, k: int, n: int, u: int)
    requires
        0 <= u < k,
    ensures
        supply_arcs(r, a, c, k, n).len() == 2 * k,
        supply_arcs(r, a, c, k, n)[2 * u] == (Link {
            from: n,
            to: u,
            flow: a[u],
            lower: 0,
            upper: positive(r[u]),
            cost: 0,
        }),
        supply_arcs(r, a, c, k, n)[2 * u + 1] == (Link {
            from: u,
            to: n + 1,
            flow: c[u],
            lower: 0,
            upper: positive(-r[u]),
            cost: 0,
        }),
    decreases k,
{
    lemma_supply_arcs_len(r, a, c, k, n);
    lemma_supply_arcs_len(r, a, c, k - 1, n);
    if u < k - 1 {
        lemma_supply_arcs_index(r, a, c, k - 1, n, u);
    }
}

/// Net outflow is additive over the two parts of a network.
pub proof fn lemma_net_out_concat(first: Seq<Link>, second: Seq<Link>, u: int)
    ensures
        net_out(first + second, u) == net_out(first, u) + net_out(second, u),
    decreases second.len(),
{
    if second.len() == 0 {
        assert(first + second =~= first);
    } else {
        assert((first + second).drop_last() =~= first + second.drop_last());
        assert((first + second).last() == second.last());
        lemma_net_out_concat(first, second.drop_last(), u);
    }
}

/// What the supply arcs add to the net outflow of a node: for a node
/// below `k` what it drains less what feeds it, for the source all that
/// feeds, for the sink all that drains, negated.
pub proof fn lemma_supply_net_out(r: Seq<int>, a: Seq<int>, c: Seq<int>, k: int, n: int, w: int)
    requires
        0 <= k <= n,
    ensures
        net_out(supply_arcs(r, a, c, k, n), w) == (if 0 <= w < k {
            c[w] - a[w]
        } else {
            0
        }) + (if w == n {
            sum_to(a, k)
        } else {
            0
        }) - (if w == n + 1 {
            sum_to(c, k)
        } else {
            0
        }),
    decreases k,
{
    if k > 0 {
        lemma_supply_net_out(r, a, c, k - 1, n, w);
        let rest = supply_arcs(r, a, c, k - 1, n);
        let feed = Link { from: n, to: k - 1, flow: a[k - 1], lower: 0, upper: positive(r[k - 1]), cost: 0 };
        let drain = Link { from: k - 1, to: n + 1, flow: c[k - 1], lower: 0, upper: positive(-r[k - 1]), cost: 0 };
        let whole = rest.push(feed).push(drain);
        let fed = rest.push(feed);
        assert(whole.drop_last() =~= fed);
        assert(fed.drop_last() =~= rest);
        assert(whole.last() == drain);
        assert(fed.last() == feed);
        assert(net_out(fed, w) == net_out(rest, w) + contribution(feed, w));
        assert(net_out(whole, w) == net_out(fed, w) + contribution(drain, w));
        assert(supply_arcs(r, a, c, k, n) == whole);
    }
}

/// The net outflow of a node is what the flows above the lower bounds
/// make it send out, plus what the lower bounds make it send out.
pub proof fn lemma_net_out_splits(links: Seq<Link>, u: int)
    ensures
        net_out(links, u) == net_out(shifted(links), u) + net_out(at_lower(links), u),
    decreases links.len(),
{
    if links.len() > 0 {
        assert(shifted(links).drop_last() =~= shifted(links.drop_last()));
        assert(at_lower(links).drop_last() =~= at_lower(links.drop_last()));
        lemma_net_out_splits(links.drop_last(), u);
    }
}

/// All nodes together send out nothing: what one node sends another takes.
pub proof fn lemma_net_out_total(links: Seq<Link>, n: int)
    requires
        0 <= n,
        endpoints_below(links, n),
    ensures
        side_out(links, Set::new(|u: int| 0 <= u < n), n) == 0,
{
    let everyone = Set::new(|u: int| 0 <= u < n);
    crate::maximum_flow::cut::lemma_side_out_closed(links, everyone, n);
    lemma_cut_flow_inside(links, everyone, n);
}

proof fn lemma_cut_flow_inside(links: Seq<Link>, everyone: Set<int>, n: int)
    requires
        endpoints_below(links, n),
        forall|u: int| 0 <= u < n ==> everyone.contains(u),
    ensures
        cut_flow(links, everyone) == 0,
    decreases links.len(),
{
    if links.len() > 0 {
        assert forall|i: int| 0 <= i < links.drop_last().len() implies 0 <= (#[trigger] links.drop_last()[i]).from < n
            && 0 <= links.drop_last()[i].to < n by {
            assert(links.drop_last()[i] == links[i]);
        }
        lemma_cut_flow_inside(links.drop_last(), everyone, n);
        assert(links.last() == links[links.len() - 1]);
    }
}

/// With every node in the set, adding up the net outflows of the nodes of
/// the set adds up the net outflows of all nodes.
pub proof fn lemma_side_out_everyone(links: Seq<Link>, n: int, values: Seq<int>, k: int)
    requires
        0 <= k <= n,
        values.len() == n,
        forall|u: int| 0 <= u < n ==> #[trigger] net_out(links, u) == values[u],
    ensures
        side_out(links, Set::new(|u: int| 0 <= u < n), k) == sum_to(values, k),
    decreases k,
{
    if k > 0 {
        lemma_side_out_everyone(links, n, values, k - 1);
    }
}

/// Numbers that do not exceed their bounds and add up to what the bounds
/// add up to are the bounds.
pub proof fn lemma_sum_squeezed(values: Seq<int>, bounds: Seq<int>, k: int, u: int)
    requires
        0 <= u < k <= values.len(),
        values.len() == bounds.len(),
        forall|i: int| 0 <= i < k ==> #[trigger] values[i] <= bounds[i],
        sum_to(values, k) >= sum_to(bounds, k),
    ensures
        values[u] == bounds[u],
    decreases k,
{
    lemma_sum_bounded(values, bounds, k - 1);
    if u < k - 1 {
        lemma_sum_squeezed(values, bounds, k - 1, u);
    }
}

/// Numbers that do not exceed their bounds add up to no more than the bounds.
pub proof fn lemma_sum_bounded(values: Seq<int>, bounds: Seq<int>, k: int)
    requires
        0 <= k <= values.len(),
        values.len() == bounds.len(),
        forall|i: int| 0 <= i < k ==> #[trigger] values[i] <= bounds[i],
    ensures
        sum_to(values, k) <= sum_to(bounds, k),
    decreases k,
{
    if k > 0 {
        lemma_sum_bounded(values, bounds, k - 1);
    }
}

/// The positive parts of numbers add up to their sum plus what the
/// positive parts of the negated numbers add up to.
pub proof fn lemma_sum_of_parts(r: Seq<int>, k: int)
    requires
        0 <= k <= r.len(),
    ensures
        sum_to(positives(r), k) == sum_to(r, k) + sum_to(negatives(r), k),
    decreases k,
{
    if k > 0 {
        lemma_sum_of_parts(r, k - 1);
    }
}

/// A sum of differences is the difference of the sums.
pub proof fn lemma_sum_of_differences(x: Seq<int>, y: Seq<int>, z: Seq<int>, k: int)
    requires
        0 <= k <= x.len(),
        x.len() == y.len(),
        x.len() == z.len(),
        forall|i: int| 0 <= i < k ==> #[trigger] x[i] == y[i] - z[i],
    ensures
        sum_to(x, k) == sum_to(y, k) - sum_to(z, k),
    decreases k,
{
    if k > 0 {
        lemma_sum_of_differences(x, y, z, k - 1);
    }
}

/// The network on which a maximum flow decides whether the bounds and the
/// supplies can be met: the edges with the room between their bounds as
/// capacity, an arc from the source `n` to every node for what the node
/// has to send out, and an arc from every node to the sink `n + 1` for
/// what it has to take in. No arc carries flow.
pub open spec fn feasibility_network(links: Seq<Link>, b: Seq<int>, n: int) -> Seq<Link> {
    let r = demands(links, b, n);
    let none = Seq::new(n as nat, |u: int| 0int);
    shifted(at_lower(links)) + supply_arcs(r, none, none, n, n)
}

/// Networks that differ in flows only have the same flows at the lower bounds.
pub proof fn lemma_at_lower_same_network(a: Seq<Link>, b: Seq<Link>)
    requires
        same_network(a, b),
    ensures
        at_lower(a) == at_lower(b),
{
    assert(at_lower(a) =~= at_lower(b)) by {
        assert forall|i: int| 0 <= i < a.len() implies at_lower(a)[i] == at_lower(b)[i] by {
            assert(a[i].from == b[i].from);
        }
    }
}

/// The flows at the lower bounds are within the bounds.
pub proof fn lemma_at_lower_within_bounds(links: Seq<Link>)
    requires
        within_bounds(links),
    ensures
        within_bounds(at_lower(links)),
        same_network(at_lower(links), links),
{
    assert forall|i: int| 0 <= i < links.len() implies (#[trigger] at_lower(links)[i]).lower <= at_lower(links)[i].flow
        <= at_lower(links)[i].upper by {
        assert(links[i].lower <= links[i].flow <= links[i].upper);
    }
    assert forall|i: int| 0 <= i < links.len() implies (#[trigger] at_lower(links)[i]).from == links[i].from by {}
}

/// A sequence of zeros adds up to zero.
pub proof fn lemma_sum_of_zeros(values: Seq<int>, k: int)
    requires
        0 <= k <= values.len(),
        forall|i: int| 0 <= i < k ==> #[trigger] values[i] == 0,
    ensures
        sum_to(values, k) == 0,
    decreases k,
{
    if k > 0 {
        lemma_sum_of_zeros(values, k - 1);
    }
}

/// The sum depends on the numbers that are added up alone.
pub proof fn lemma_sum_same(x: Seq<int>, y: Seq<int>, k: int)
    requires
        0 <= k <= x.len(),
        k <= y.len(),
        forall|i: int| 0 <= i < k ==> #[trigger] x[i] == y[i],
    ensures
        sum_to(x, k) == sum_to(y, k),
    decreases k,
{
    if k > 0 {
        lemma_sum_same(x, y, k - 1);
    }
}

/// The demands add up to what the supplies add up to: the lower bounds
/// make the nodes together send out nothing.
pub proof fn lemma_demands_sum(links: Seq<Link>, b: Seq<int>, n: int)
    requires
        0 <= n,
        b.len() == n,
        endpoints_below(links, n),
    ensures
        sum_to(demands(links, b, n), n) == sum_to(b, n),
{
    let low = at_lower(links);
    let sent = Seq::new(n as nat, |u: int| net_out(low, u));
    assert(endpoints_below(low, n)) by {
        assert forall|i: int| 0 <= i < low.len() implies 0 <= (#[trigger] low[i]).from < n && 0 <= low[i].to < n by {
            assert(0 <= links[i].from < n);
        }
    }
    lemma_net_out_total(low, n);
    lemma_side_out_everyone(low, n, sent, n);
    lemma_sum_of_differences(demands(links, b, n), b, sent, n);
}

/// A flow that respects the bounds and meets the supplies gives a flow on
/// the feasibility network that fills every arc from the source.
pub proof fn lemma_feasible_gives_flow(links: Seq<Link>, other: Seq<Link>, b: Seq<int>, n: int) -> (witness: Seq<Link>)
    requires
        0 <= n,
        same_network(other, links),
        is_feasible(other, b, n),
    ensures
        same_network(witness, feasibility_network(links, b, n)),
        is_flow(witness, n + 2, n, n + 1),
        net_out(witness, n) == sum_to(positives(demands(links, b, n)), n),
{
    let r = demands(links, b, n);
    let full = positives(r);
    let drained = negatives(r);
    let none = Seq::new(n as nat, |u: int| 0int);
    let inner = shifted(other);
    let arcs = supply_arcs(r, full, drained, n, n);
    let witness = inner + arcs;
    let network = feasibility_network(links, b, n);
    let m = links.len() as int;
    lemma_supply_arcs_len(r, full, drained, n, n);
    lemma_supply_arcs_len(r, none, none, n, n);
    lemma_at_lower_same_network(other, links);
    assert(witness.len() == network.len());
    assert forall|i: int| 0 <= i < witness.len() implies (#[trigger] witness[i]).from == network[i].from && witness[i].to
        == network[i].to && witness[i].lower == network[i].lower && witness[i].upper == network[i].upper
        && witness[i].cost == network[i].cost && 0 <= witness[i].flow <= witness[i].upper && 0 <= witness[i].from < n
        + 2 && 0 <= witness[i].to < n + 2 by {
        if i < m {
            assert(witness[i] == inner[i]);
            assert(network[i] == shifted(at_lower(links))[i]);
            assert(other[i].from == links[i].from);
            assert(other[i].lower <= other[i].flow <= other[i].upper);
            assert(0 <= other[i].from < n && 0 <= other[i].to < n);
        } else {
            let j = i - m;
            let u = j / 2;
            assert(witness[i] == arcs[j]);
            assert(network[i] == supply_arcs(r, none, none, n, n)[j]);
            lemma_supply_arcs_index(r, full, drained, n, n, u);
            lemma_supply_arcs_index(r, none, none, n, n, u);
            assert(j == 2 * u || j == 2 * u + 1);
        }
    }
    assert forall|u: int| 0 <= u < n + 2 && u != n && u != n + 1 implies #[trigger] net_out(witness, u) == 0 by {
        lemma_net_out_concat(inner, arcs, u);
        lemma_supply_net_out(r, full, drained, n, n, u);
        lemma_net_out_splits(other, u);
        assert(net_out(other, u) == b[u]);
    }
    lemma_net_out_concat(inner, arcs, n);
    lemma_supply_net_out(r, full, drained, n, n, n);
    assert(endpoints_below(inner, n)) by {
        assert forall|i: int| 0 <= i < inner.len() implies 0 <= (#[trigger] inner[i]).from < n && 0 <= inner[i].to < n by {
            assert(0 <= other[i].from < n);
        }
    }
    crate::network::lemma_net_out_outside(inner, n, n);
    witness
}

/// A flow on the feasibility network that carries from the source all
/// that the nodes have to send out makes every node send out its demand
/// over the edges.
pub proof fn lemma_saturating_flow_meets_demands(links: Seq<Link>, flow: Seq<Link>, b: Seq<int>, n: int, u: int)
    requires
        0 <= u < n,
        b.len() == n,
        sum_to(b, n) == 0,
        endpoints_below(links, n),
        same_network(flow, feasibility_network(links, b, n)),
        is_flow(flow, n + 2, n, n + 1),
        net_out(flow, n) >= sum_to(positives(demands(links, b, n)), n),
    ensures
        net_out(flow.take(links.len() as int), u) == demand(links, b, u),
{
    let r = demands(links, b, n);
    let none = Seq::new(n as nat, |w: int| 0int);
    let network = feasibility_network(links, b, n);
    let m = links.len() as int;
    let inner = flow.take(m);
    let rest = flow.skip(m);
    let fed = Seq::new(n as nat, |w: int| flow[m + 2 * w].flow);
    let drained = Seq::new(n as nat, |w: int| flow[m + 2 * w + 1].flow);
    let arcs = supply_arcs(r, fed, drained, n, n);
    lemma_supply_arcs_len(r, none, none, n, n);
    lemma_supply_arcs_len(r, fed, drained, n, n);
    assert(flow.len() == m + 2 * n);
    assert(rest =~= arcs) by {
        assert forall|j: int| 0 <= j < rest.len() implies rest[j] == arcs[j] by {
            let w = j / 2;
            lemma_supply_arcs_index(r, fed, drained, n, n, w);
            lemma_supply_arcs_index(r, none, none, n, n, w);
            assert(j == 2 * w || j == 2 * w + 1);
            assert(rest[j] == flow[m + j]);
            assert(network[m + j] == supply_arcs(r, none, none, n, n)[j]);
            assert(flow[m + j].from == network[m + j].from);
        }
    }
    assert(flow =~= inner + rest);
    assert(endpoints_below(inner, n)) by {
        assert forall|i: int| 0 <= i < inner.len() implies 0 <= (#[trigger] inner[i]).from < n && 0 <= inner[i].to < n by {
            assert(inner[i] == flow[i]);
            assert(network[i] == shifted(at_lower(links))[i]);
            assert(flow[i].from == network[i].from);
            assert(0 <= links[i].from < n);
        }
    }
    // what the arcs carry does not exceed what the nodes demand
    assert forall|w: int| 0 <= w < n implies #[trigger] fed[w] <= positives(r)[w] by {
        lemma_supply_arcs_index(r, none, none, n, n, w);
        assert(network[m + 2 * w] == supply_arcs(r, none, none, n, n)[2 * w]);
        assert(flow[m + 2 * w].upper == network[m + 2 * w].upper);
        assert(0 <= flow[m + 2 * w].flow <= flow[m + 2 * w].upper);
    }
    assert forall|w: int| 0 <= w < n implies #[trigger] drained[w] <= negatives(r)[w] by {
        lemma_supply_arcs_index(r, none, none, n, n, w);
        assert(network[m + 2 * w + 1] == supply_arcs(r, none, none, n, n)[2 * w + 1]);
        assert(flow[m + 2 * w + 1].upper == network[m + 2 * w + 1].upper);
        assert(0 <= flow[m + 2 * w + 1].flow <= flow[m + 2 * w + 1].upper);
    }
    // the source sends what the arcs from it carry, the sink takes what the arcs to it carry
    lemma_net_out_concat(inner, arcs, n);
    lemma_supply_net_out(r, fed, drained, n, n, n);
    crate::network::lemma_net_out_outside(inner, n, n);
    lemma_net_out_concat(inner, arcs, n + 1);
    lemma_supply_net_out(r, fed, drained, n, n, n + 1);
    crate::network::lemma_net_out_outside(inner, n, n + 1);
    assert(net_out(flow, n) == sum_to(fed, n));
    assert(net_out(flow, n + 1) == -sum_to(drained, n));
    // all nodes together send out nothing
    let sent = Seq::new((n + 2) as nat, |w: int| net_out(flow, w));
    lemma_net_out_total(flow, n + 2);
    lemma_side_out_everyone(flow, n + 2, sent, n + 2);
    assert(sum_to(sent, n) == 0) by {
        assert forall|w: int| 0 <= w < n implies #[trigger] sent[w] == 0 by {
            assert(net_out(flow, w) == 0);
        }
        lemma_sum_of_zeros(sent, n);
    }
    assert(sum_to(sent, n + 2) == sum_to(sent, n + 1) + sent[n + 1]);
    assert(sum_to(sent, n + 1) == sum_to(sent, n) + sent[n]);
    assert(sum_to(fed, n) == sum_to(drained, n));
    // the demands add up to nothing, so as much has to be taken in as sent out
    lemma_demands_sum(links, b, n);
    lemma_sum_of_parts(r, n);
    lemma_sum_bounded(fed, positives(r), n);
    lemma_sum_squeezed(fed, positives(r), n, u);
    lemma_sum_squeezed(drained, negatives(r), n, u);
    lemma_net_out_concat(inner, arcs, u);
    lemma_supply_net_out(r, fed, drained, n, n, u);
    assert(net_out(flow, u) == 0);
}

/// The machine integers can hold the feasibility network of `graph`: its
/// nodes and arcs can be counted and its capacities summed.
pub open spec fn fits(graph: &Graph) -> bool {
    &&& graph.node_count() + 2 < usize::MAX
    &&& 2 * (graph@.len() + 2 * graph.node_count()) <= usize::MAX
    &&& capacity_sum(feasibility_network(graph.links(), graph.supplies(), graph.node_count() as int)) <= i64::MAX
}

/// Whether the feasibility network fits depends on the supplies and the
/// bounds alone.
pub proof fn lemma_fits_same_problem(graph: &Graph, other: &Graph)
    requires
        graph.same_problem(other),
        graph@.len() == other@.len(),
        fits(other),
    ensures
        fits(graph),
{
    lemma_at_lower_same_network(graph.links(), other.links());
    assert(graph.supplies() =~= other.supplies());
    assert(demands(graph.links(), graph.supplies(), graph.node_count() as int) =~= demands(
        other.links(),
        other.supplies(),
        other.node_count() as int,
    ));
}

/// The sum of the supplies, written in two ways.
pub proof fn lemma_supply_sum(b: Seq<i64>, ints: Seq<int>, k: int)
    requires
        0 <= k <= b.len(),
        ints.len() == b.len(),
        forall|u: int| 0 <= u < b.len() ==> #[trigger] ints[u] == b[u],
    ensures
        sum_to(ints, k) == supply_sum(b.take(k)),
    decreases k,
{
    if k > 0 {
        lemma_supply_sum(b, ints, k - 1);
        assert(b.take(k).drop_last() =~= b.take(k - 1));
    } else {
        assert(b.take(0) =~= Seq::<i64>::empty());
    }
}

/// What every node has to send out above what the lower bounds make it
/// send: its supply, less the lower bounds of the edges that leave it,
/// plus the lower bounds of the edges that enter it.
pub fn compute_demands(graph: &Graph) -> (r: Vec<i64>)
    requires
        graph.wf(),
        graph.settleable(),
    ensures
        r@.len() == graph.node_count(),
        forall|u: int|
            0 <= u < graph.node_count() ==> #[trigger] r@[u] == demand(graph.links(), graph.supplies(), u) && -i64::MAX
                <= r@[u],
{
    let n = graph.num_nodes();
    let m = graph.num_edges();
    let ghost links = graph.links();
    let ghost low = at_lower(links);
    let mut r: Vec<i64> = graph.b.clone();
    proof {
        assert(low.take(0) =~= Seq::<Link>::empty());
        graph.lemma_links_within_bounds();
        lemma_at_lower_within_bounds(links);
        lemma_flow_bound_same_network(low, links);
    }
    for edge_id in 0..m
        invariant
            graph.wf(),
            graph.settleable(),
            links == graph.links(),
            low == at_lower(links),
            within_bounds(low),
            flow_bound(low) == flow_bound(links),
            n == graph.num_nodes,
            m == graph.edges@.len(),
            r@.len() == n,
            forall|u: int| 0 <= u < n ==> #[trigger] r@[u] == graph.b@[u] - net_out(low.take(edge_id as int), u),
    {
        let edge = graph.get_edge(edge_id).unwrap();
        proof {
            let next = low.take(edge_id + 1);
            let before = low.take(edge_id as int);
            assert(next.drop_last() =~= before);
            assert(next.last() == low[edge_id as int]);
            assert(links[edge_id as int] == edge.link());
            assert(within_bounds(next)) by {
                assert forall|i: int| 0 <= i < next.len() implies (#[trigger] next[i]).lower <= next[i].flow
                    <= next[i].upper by {
                    assert(next[i] == low[i]);
                }
            }
            assert(within_bounds(before)) by {
                assert forall|i: int| 0 <= i < before.len() implies (#[trigger] before[i]).lower <= before[i].flow
                    <= before[i].upper by {
                    assert(before[i] == low[i]);
                }
            }
            lemma_net_out_within_flow_bound(next, edge.from as int);
            lemma_net_out_within_flow_bound(next, edge.to as int);
            lemma_net_out_within_flow_bound(before, edge.from as int);
            lemma_net_out_within_flow_bound(before, edge.to as int);
            lemma_flow_bound_prefix(low, edge_id + 1);
            lemma_flow_bound_prefix(low, edge_id as int);
            assert(edge.from < n && edge.to < n) by {
                assert(graph.edges@[edge_id as int].from < graph.num_nodes);
            }
            assert(magnitude(graph.b@[edge.from as int] as int) + flow_bound(links) <= i64::MAX);
            assert(magnitude(graph.b@[edge.to as int] as int) + flow_bound(links) <= i64::MAX);
        }
        if edge.from != edge.to {
            r[edge.from] -= edge.lower;
            r[edge.to] += edge.lower;
        }
    }
    proof {
        assert(low.take(m as int) =~= low);
        assert forall|u: int| 0 <= u < n implies -i64::MAX <= #[trigger] r@[u] by {
            lemma_net_out_within_flow_bound(low, u);
            assert(magnitude(graph.b@[u] as int) + flow_bound(links) <= i64::MAX);
        }
    }
    r
}

/// The numbers of `r` as integers.
pub open spec fn ints(r: Seq<i64>) -> Seq<int> {
    Seq::new(r.len(), |u: int| r[u] as int)
}

/// Builds the feasibility network of `graph` as a maximum-flow problem.
pub fn build_feasibility_network(graph: &Graph, r: &Vec<i64>) -> (network: crate::maximum_flow::graph::Graph)
    requires
        graph.wf(),
        fits(graph),
        r@.len() == graph.node_count(),
        forall|u: int|
            0 <= u < graph.node_count() ==> #[trigger] r@[u] == demand(graph.links(), graph.supplies(), u) && -i64::MAX
                <= r@[u],
    ensures
        network.wf(),
        network.node_count() == graph.node_count() + 2,
        network.links() == feasibility_network(graph.links(), graph.supplies(), graph.node_count() as int),
{
    let n = graph.num_nodes();
    let m = graph.num_edges();
    let ghost links = graph.links();
    let ghost demanded = demands(links, graph.supplies(), n as int);
    let ghost none = Seq::new(n as nat, |u: int| 0int);
    let ghost inner = shifted(at_lower(links));
    let mut network = crate::maximum_flow::graph::Graph::default();
    network.add_nodes(n);
    let source = network.add_node();
    let sink = network.add_node();
    proof {
        assert(network.links() =~= inner.take(0));
    }
    for edge_id in 0..m
        invariant
            graph.wf(),
            fits(graph),
            links == graph.links(),
            inner == shifted(at_lower(links)),
            n == graph.num_nodes,
            m == graph.edges@.len(),
            network.wf(),
            network.node_count() == n + 2,
            network@.len() == edge_id,
            network.links() =~= inner.take(edge_id as int),
    {
        let edge = graph.get_edge(edge_id).unwrap();
        let ghost before = network.links();
        proof {
            assert(graph.edges@[edge_id as int].from < graph.num_nodes);
            assert(links[edge_id as int] == edge.link());
        }
        network.add_directed_edge(edge.from, edge.to, edge.upper - edge.lower);
        proof {
            assert(network.links() =~= before.push(inner[edge_id as int]));
            assert(inner.take(edge_id + 1) =~= inner.take(edge_id as int).push(inner[edge_id as int]));
        }
    }
    proof {
        assert(inner.take(m as int) =~= inner);
        assert(network.links() =~= inner + supply_arcs(demanded, none, none, 0, n as int));
    }
    for u in 0..n
        invariant
            graph.wf(),
            fits(graph),
            links == graph.links(),
            inner == shifted(at_lower(links)),
            demanded == demands(links, graph.supplies(), n as int),
            none == Seq::new(n as nat, |u: int| 0int),
            n == graph.num_nodes,
            m == graph.edges@.len(),
            source == n,
            sink == n + 1,
            r@.len() == n,
            forall|w: int| 0 <= w < n ==> #[trigger] r@[w] == demand(links, graph.supplies(), w) && -i64::MAX <= r@[w],
            network.wf(),
            network.node_count() == n + 2,
            network@.len() == m + 2 * u,
            network.links() =~= inner + supply_arcs(demanded, none, none, u as int, n as int),
    {
        let needed = r[u];
        let ghost before = network.links();
        network.add_directed_edge(source, u, if needed > 0 { needed } else { 0 });
        network.add_directed_edge(u, sink, if needed < 0 { -needed } else { 0 });
        proof {
            let arcs = supply_arcs(demanded, none, none, u as int, n as int);
            let more = supply_arcs(demanded, none, none, u + 1, n as int);
            let feed = Link { from: n as int, to: u as int, flow: 0, lower: 0, upper: positive(demanded[u as int]), cost: 0 };
            let drain = Link {
                from: u as int,
                to: n + 1,
                flow: 0,
                lower: 0,
                upper: positive(-demanded[u as int]),
                cost: 0,
            };
            assert(more == arcs.push(feed).push(drain));
            assert(network.links() =~= before.push(feed).push(drain));
            assert(inner + more =~= (inner + arcs).push(feed).push(drain));
        }
    }
    network
}

/// Looks for a flow that respects the bounds and meets the supplies, by
/// a maximum flow on the feasibility network. Where there is one, stores
/// it in `graph`; where there is none, leaves the flows as they are. The
/// excesses are brought up to date in both cases.
pub fn find_feasible_flow(graph: &mut Graph) -> (feasible: bool)
    requires
        old(graph).wf(),
        old(graph).settleable(),
        fits(old(graph)),
        supply_sum(old(graph).b@) == 0,
    ensures
        final(graph).wf(),
        final(graph).same_problem(old(graph)),
        final(graph)@.len() == old(graph)@.len(),
        final(graph).settled(),
        feasible ==> final(graph).balanced() && is_feasible(
            final(graph).links(),
            final(graph).supplies(),
            final(graph).node_count() as int,
        ),
        !feasible ==> final(graph).links() == old(graph).links() && forall|other: Seq<Link>|
            same_network(other, old(graph).links()) ==> !#[trigger] is_feasible(
                other,
                old(graph).supplies(),
                old(graph).node_count() as int,
            ),
{
    let n = graph.num_nodes();
    let m = graph.num_edges();
    let ghost links = graph.links();
    let ghost b = graph.supplies();
    let ghost demanded = demands(links, b, n as int);
    let r = compute_demands(graph);
    let mut network = build_feasibility_network(graph, &r);
    let ghost stated = network;
    let source = n;
    let sink = n + 1;
    proof {
        graph.lemma_links_within_bounds();
        assert forall|e: int| 0 <= e < network@.len() implies 0 <= (#[trigger] network@[e]).upper by {
            assert(network.links()[e] == network@[e].link());
            let whole = feasibility_network(links, b, n as int);
            let none = Seq::new(n as nat, |u: int| 0int);
            lemma_supply_arcs_len(demanded, none, none, n as int, n as int);
            if e < m {
                assert(whole[e] == shifted(at_lower(links))[e]);
                assert(links[e].lower <= links[e].flow <= links[e].upper);
            } else {
                let j = e - m;
                let u = j / 2;
                lemma_supply_arcs_index(demanded, none, none, n as int, n as int, u);
                assert(j == 2 * u || j == 2 * u + 1);
                assert(whole[e] == supply_arcs(demanded, none, none, n as int, n as int)[j]);
            }
        }
        let none = Seq::new(n as nat, |u: int| 0int);
        lemma_supply_arcs_len(demanded, none, none, n as int, n as int);
    }
    let mut solver = Dinic::default();
    solver.solve(source, sink, &mut network);
    let ghost flow = network.links();
    proof {
        lemma_capacity_sum_same_network(flow, stated.links());
        assert forall|i: int| 0 <= i < network@.len() implies 0 <= (#[trigger] network@[i]).flow <= network@[i].upper by {
            assert(flow[i] == network@[i].link());
        }
    }
    let value = network.maximum_flow(source);

    let mut total: i128 = 0;
    for u in 0..n
        invariant
            r@.len() == n,
            total == sum_to(positives(ints(r@)), u as int),
            0 <= total <= u * 0x8000_0000_0000_0000,
    {
        if r[u] > 0 {
            total = total + r[u] as i128;
        }
    }
    proof {
        assert(ints(r@) =~= demanded);
        lemma_supply_sum(graph.b@, b, n as int);
        assert(graph.b@.take(n as int) =~= graph.b@);
    }
    if (value as i128) < total {
        proof {
            assert forall|other: Seq<Link>| same_network(other, links) implies !#[trigger] is_feasible(
                other,
                b,
                n as int,
            ) by {
                if is_feasible(other, b, n as int) {
                    let witness = lemma_feasible_gives_flow(links, other, b, n as int);
                    lemma_same_network_symmetric(flow, stated.links());
                    lemma_same_network_transitive(witness, stated.links(), flow);
                    assert(is_flow(witness, n + 2, n as int, n + 1));
                    assert(net_out(witness, n as int) <= net_out(flow, n as int));
                }
            }
        }
        graph.settle();
        proof {
            assert(graph.links() =~= links);
        }
        return false;
    }

    for edge_id in 0..m
        invariant
            graph.wf(),
            network.wf(),
            flow == network.links(),
            n == graph.num_nodes,
            m == graph.edges@.len(),
            network@.len() == m + 2 * n,
            same_network(flow, feasibility_network(links, b, n as int)),
            is_flow(flow, n + 2, n as int, n + 1),
            graph.num_nodes == old(graph).num_nodes,
            graph.b == old(graph).b,
            graph.lowers == old(graph).lowers,
            graph.is_reversed == old(graph).is_reversed,
            same_network(graph.links(), links),
            forall|e: int| 0 <= e < edge_id ==> #[trigger] shifted(graph.links())[e] == flow[e],
    {
        let carried = network.get_edge(edge_id).unwrap().flow;
        let ghost before = graph.links();
        proof {
            let whole = feasibility_network(links, b, n as int);
            assert(whole[edge_id as int] == shifted(at_lower(links))[edge_id as int]);
            assert(flow[edge_id as int] == network@[edge_id as int].link());
            assert(flow[edge_id as int].upper == whole[edge_id as int].upper);
            assert(0 <= flow[edge_id as int].flow <= flow[edge_id as int].upper);
            assert(before[edge_id as int].upper == links[edge_id as int].upper);
            assert(before[edge_id as int] == graph.edge_at(edge_id as int).link());
        }
        let room = graph.edges[edge_id].upper;
        graph.edges[edge_id].flow = if graph.is_reversed[edge_id] {
            room - carried
        } else {
            carried
        };
        proof {
            let whole = feasibility_network(links, b, n as int);
            assert forall|e: int| 0 <= e < m implies (#[trigger] graph.links()[e]).from == before[e].from && graph.links()[e].to
                == before[e].to && graph.links()[e].lower == before[e].lower && graph.links()[e].upper
                == before[e].upper && graph.links()[e].cost == before[e].cost by {
                assert(graph.links()[e] == graph.edge_at(e).link());
            }
            lemma_same_network_transitive(graph.links(), before, links);
            assert forall|e: int| 0 <= e < edge_id + 1 implies #[trigger] shifted(graph.links())[e] == flow[e] by {
                if e < edge_id {
                    assert(shifted(before)[e] == flow[e]);
                    assert(graph.links()[e] == graph.edge_at(e).link());
                } else {
                    assert(graph.links()[e] == graph.edge_at(e).link());
                    assert(whole[e] == shifted(at_lower(links))[e]);
                    assert(flow[e].from == whole[e].from);
                    assert(graph.links()[e].from == links[e].from);
                }
            }
        }
    }
    proof {
        let after = graph.links();
        assert(shifted(after) =~= flow.take(m as int));
        lemma_at_lower_same_network(after, links);
        graph.lemma_links_within_bounds();
        assert forall|u: int| 0 <= u < n implies #[trigger] net_out(after, u) == b[u] by {
            lemma_saturating_flow_meets_demands(links, flow, b, n as int, u);
            lemma_net_out_splits(after, u);
        }
        assert(graph.supplies() =~= b);
        assert(meets_supplies(after, b, n as int));
        graph.lemma_settleable_same_problem(old(graph));
    }
    let ghost filled = graph.links();
    graph.settle();
    proof {
        assert(graph.links() =~= filled);
        assert(graph.supplies() =~= b);
        assert forall|u: int| 0 <= u < graph.excesses@.len() implies #[trigger] graph.excesses@[u] == 0 by {
            assert(net_out(filled, u) == b[u]);
        }
    }
    true
}

/// Being the same network is symmetric.
pub proof fn lemma_same_network_symmetric(a: Seq<Link>, b: Seq<Link>)
    requires
        same_network(a, b),
    ensures
        same_network(b, a),
{
    assert forall|i: int| 0 <= i < b.len() implies (#[trigger] b[i]).from == a[i].from && b[i].to == a[i].to && b[i].lower
        == a[i].lower && b[i].upper == a[i].upper && b[i].cost == a[i].cost by {
        assert(a[i].from == b[i].from);
    }
}

/// Once an extension has been taken away again, the graph states the
/// problem that it stated before the extension, within the same limits.
pub proof fn lemma_extension_shed(graph: &Graph, solved: &Graph, extended: &Graph, before: &Graph)
    requires
        extended@.len() >= before@.len(),
        extended@.take(before@.len() as int) == before@,
        extended.b@.len() >= before.b@.len(),
        forall|u: int| 0 <= u < before.b@.len() ==> #[trigger] extended.b@[u] == before.b@[u],
        solved.b@ == extended.b@,
        solved@.len() == extended@.len(),
        same_network(solved.links(), extended.links()),
        graph@ == solved@.take(before@.len() as int),
        graph.b@ == solved.b@.take(before.b@.len() as int),
        graph.node_count() == before.node_count(),
        before.settleable(),
        fits(before),
    ensures
        graph.same_problem(before),
        graph.settleable(),
        fits(graph),
{
    assert(extended.b@.take(before.b@.len() as int) =~= before.b@);
    graph.lemma_extension_removed(solved, extended, before);
    graph.lemma_settleable_same_problem(before);
    lemma_fits_same_problem(graph, before);
}

} // verus!
