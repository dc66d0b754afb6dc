use crate::network::{endpoints_below, net_out, same_network, with_flow, within_bounds, Link};
use vstd::prelude::*;

verus! {

/// Every node below `n` sends out exactly its supply: `net_out == b`.
pub open spec fn meets_supplies(links: Seq<Link>, b: Seq<int>, n: int) -> bool {
    &&& b.len() == n
    &&& forall|u: int| 0 <= u < n ==> #[trigger] net_out(links, u) == b[u]
}

/// `links` carries a flow that respects the bounds of every edge and
/// meets the supply of every node.
pub open spec fn is_feasible(links: Seq<Link>, b: Seq<int>, n: int) -> bool {
    &&& endpoints_below(links, n)
    &&& within_bounds(links)
    &&& meets_supplies(links, b, n)
}

/// Cost of the flow: the sum of `cost * flow` over all edges.
pub open spec fn total_cost(links: Seq<Link>) -> int
    decreases links.len(),
{
    if links.len() == 0 {
        0
    } else {
        total_cost(links.drop_last()) + links.last().cost * links.last().flow
    }
}

/// Reduced cost of an edge under the node potentials `pi`.
pub open spec fn reduced_cost(l: Link, pi: Seq<int>) -> int {
    l.cost - pi[l.from] + pi[l.to]
}

/// Complementary slackness: an edge with positive reduced cost carries its
/// lower bound, an edge with negative reduced cost its upper bound.
pub open spec fn is_slack(links: Seq<Link>, pi: Seq<int>) -> bool {
    forall|i: int|
        0 <= i < links.len() ==> (reduced_cost(#[trigger] links[i], pi) > 0 ==> links[i].flow == links[i].lower)
            && (reduced_cost(links[i], pi) < 0 ==> links[i].flow == links[i].upper)
}

/// Some node potentials make the flow satisfy complementary slackness.
pub open spec fn has_optimality_certificate(links: Seq<Link>, n: int) -> bool {
    exists|pi: Seq<int>| pi.len() == n && #[trigger] is_slack(links, pi)
}

/// `links` carries a feasible flow of the least cost that its network admits
/// for the supplies `b`.
pub open spec fn is_minimum_cost_flow(links: Seq<Link>, b: Seq<int>, n: int) -> bool {
    &&& is_feasible(links, b, n)
    &&& forall|other: Seq<Link>|
        same_network(other, links) && #[trigger] is_feasible(other, b, n) ==> total_cost(links) <= total_cost(other)
}

/// Sum of `reduced cost * flow` over all edges.
pub open spec fn total_reduced_cost(links: Seq<Link>, pi: Seq<int>) -> int
    decreases links.len(),
{
    if links.len() == 0 {
        0
    } else {
        total_reduced_cost(links.drop_last(), pi) + reduced_cost(links.last(), pi) * links.last().flow
    }
}

/// Sum of `potential * net outflow` over the nodes below `k`.
pub open spec fn potential_value(links: Seq<Link>, pi: Seq<int>, k: int) -> int
    decreases k,
{
    if k <= 0 {
        0
    } else {
        potential_value(links, pi, k - 1) + pi[k - 1] * net_out(links, k - 1)
    }
}

proof fn lemma_potential_value_empty(pi: Seq<int>, k: int)
    ensures
        potential_value(Seq::<Link>::empty(), pi, k) == 0,
    decreases k,
{
    if k > 0 {
        lemma_potential_value_empty(pi, k - 1);
    }
}

proof fn lemma_potential_value_last(links: Seq<Link>, pi: Seq<int>, k: int)
    requires
        links.len() > 0,
        0 <= k,
    ensures
        potential_value(links, pi, k) == potential_value(links.drop_last(), pi, k) + (if 0 <= links.last().from < k {
            pi[links.last().from] * links.last().flow
        } else {
            0
        }) - (if 0 <= links.last().to < k {
            pi[links.last().to] * links.last().flow
        } else {
            0
        }),
    decreases k,
{
    if k > 0 {
        lemma_potential_value_last(links, pi, k - 1);
        let l = links.last();
        let p = pi[k - 1];
        let rest = net_out(links.drop_last(), k - 1);
        let here = (if l.from == k - 1 { l.flow } else { 0 }) - (if l.to == k - 1 { l.flow } else { 0 });
        assert(net_out(links, k - 1) == rest + here);
        assert(p * (rest + here) == p * rest + p * here) by (nonlinear_arith);
        assert(p * here == (if l.from == k - 1 { p * l.flow } else { 0 }) - (if l.to == k - 1 {
            p * l.flow
        } else {
            0
        })) by (nonlinear_arith)
            requires
                here == (if l.from == k - 1 { l.flow } else { 0 }) - (if l.to == k - 1 { l.flow } else { 0 }),
        ;
    }
}

/// The cost of a flow is its reduced cost plus what the potentials make of
/// the net outflows.
proof fn lemma_cost_splits(links: Seq<Link>, pi: Seq<int>, n: int)
    requires
        endpoints_below(links, n),
        pi.len() == n,
    ensures
        total_cost(links) == total_reduced_cost(links, pi) + potential_value(links, pi, n),
    decreases links.len(),
{
    if links.len() == 0 {
        assert(links =~= Seq::<Link>::empty());
        lemma_potential_value_empty(pi, n);
    } else {
        assert(endpoints_below(links.drop_last(), n)) by {
            assert forall|i: int| 0 <= i < links.drop_last().len() implies 0 <= (#[trigger] links.drop_last()[i]).from
                < n && 0 <= links.drop_last()[i].to < n by {
                assert(links.drop_last()[i] == links[i]);
            }
        }
        lemma_cost_splits(links.drop_last(), pi, n);
        lemma_potential_value_last(links, pi, n);
        let l = links.last();
        assert(l == links[links.len() - 1]);
        assert((l.cost - pi[l.from] + pi[l.to]) * l.flow == l.cost * l.flow - pi[l.from] * l.flow + pi[l.to] * l.flow)
            by (nonlinear_arith);
    }
}

/// Flows that meet the same supplies get the same value from the potentials.
proof fn lemma_potential_value_of_supplies(a: Seq<Link>, c: Seq<Link>, b: Seq<int>, pi: Seq<int>, n: int, k: int)
    requires
        meets_supplies(a, b, n),
        meets_supplies(c, b, n),
        0 <= k <= n,
    ensures
        potential_value(a, pi, k) == potential_value(c, pi, k),
    decreases k,
{
    if k > 0 {
        lemma_potential_value_of_supplies(a, c, b, pi, n, k - 1);
    }
}

/// Under complementary slackness no flow within the bounds has a smaller
/// reduced cost.
proof fn lemma_reduced_cost_least(links: Seq<Link>, other: Seq<Link>, pi: Seq<int>)
    requires
        same_network(other, links),
        within_bounds(other),
        within_bounds(links),
        is_slack(links, pi),
    ensures
        total_reduced_cost(links, pi) <= total_reduced_cost(other, pi),
    decreases links.len(),
{
    if links.len() > 0 {
        let shorter = links.drop_last();
        let shorter_other = other.drop_last();
        assert forall|i: int| 0 <= i < shorter.len() implies shorter[i] == links[i] && shorter_other[i] == other[i] by {}
        assert(same_network(shorter_other, shorter)) by {
            assert forall|i: int| 0 <= i < shorter_other.len() implies (#[trigger] shorter_other[i]).from == shorter[i].from
                && shorter_other[i].to == shorter[i].to && shorter_other[i].lower == shorter[i].lower
                && shorter_other[i].upper == shorter[i].upper && shorter_other[i].cost == shorter[i].cost by {
                assert(other[i].from == links[i].from);
            }
        }
        assert(within_bounds(shorter)) by {
            assert forall|i: int| 0 <= i < shorter.len() implies (#[trigger] shorter[i]).lower <= shorter[i].flow
                <= shorter[i].upper by {
                assert(links[i].lower <= links[i].flow);
            }
        }
        assert(within_bounds(shorter_other)) by {
            assert forall|i: int| 0 <= i < shorter_other.len() implies (#[trigger] shorter_other[i]).lower
                <= shorter_other[i].flow <= shorter_other[i].upper by {
                assert(other[i].lower <= other[i].flow);
            }
        }
        assert(is_slack(shorter, pi)) by {
            assert forall|i: int| 0 <= i < shorter.len() implies (reduced_cost(#[trigger] shorter[i], pi) > 0
                ==> shorter[i].flow == shorter[i].lower) && (reduced_cost(shorter[i], pi) < 0 ==> shorter[i].flow
                == shorter[i].upper) by {
                assert(reduced_cost(links[i], pi) > 0 ==> links[i].flow == links[i].lower);
            }
        }
        lemma_reduced_cost_least(shorter, shorter_other, pi);
        let l = links[links.len() - 1];
        let o = other[other.len() - 1];
        assert(links.last() == l);
        assert(other.last() == o);
        assert(o.from == l.from && o.to == l.to && o.cost == l.cost && o.lower == l.lower && o.upper == l.upper);
        assert(l.lower <= l.flow <= l.upper);
        assert(o.lower <= o.flow <= o.upper);
        let rc = reduced_cost(l, pi);
        assert(reduced_cost(o, pi) == rc);
        assert(rc > 0 ==> l.flow == l.lower);
        assert(rc < 0 ==> l.flow == l.upper);
        assert(rc * l.flow <= rc * o.flow) by (nonlinear_arith)
            requires
                rc > 0 ==> l.flow <= o.flow,
                rc < 0 ==> l.flow >= o.flow,
        ;
    }
}

/// A feasible flow that satisfies complementary slackness for some node
/// potentials has minimum cost.
pub proof fn lemma_slack_flow_is_minimum(links: Seq<Link>, b: Seq<int>, pi: Seq<int>, n: int)
    requires
        is_feasible(links, b, n),
        pi.len() == n,
        is_slack(links, pi),
    ensures
        is_minimum_cost_flow(links, b, n),
{
    assert forall|other: Seq<Link>| same_network(other, links) && #[trigger] is_feasible(other, b, n) implies total_cost(
        links,
    ) <= total_cost(other) by {
        lemma_cost_splits(links, pi, n);
        lemma_cost_splits(other, pi, n);
        lemma_potential_value_of_supplies(links, other, b, pi, n, n);
        lemma_reduced_cost_least(links, other, pi);
    }
}

/// On one network and for the same supplies, all minimum-cost flows cost the same.
pub proof fn lemma_minimum_costs_agree(a: Seq<Link>, c: Seq<Link>, b: Seq<int>, n: int)
    requires
        same_network(a, c),
        is_minimum_cost_flow(a, b, n),
        is_minimum_cost_flow(c, b, n),
    ensures
        total_cost(a) == total_cost(c),
{
    assert(same_network(c, a));
    assert(is_feasible(a, b, n));
    assert(is_feasible(c, b, n));
}

/// Changing the flow of one edge changes the cost by the cost of the edge
/// times the change.
pub proof fn lemma_total_cost_with_flow(links: Seq<Link>, i: int, flow: int)
    requires
        0 <= i < links.len(),
    ensures
        total_cost(with_flow(links, i, flow)) == total_cost(links) + links[i].cost * (flow - links[i].flow),
    decreases links.len(),
{
    let updated = with_flow(links, i, flow);
    if i == links.len() - 1 {
        assert(updated.drop_last() =~= links.drop_last());
        let c = links[i].cost;
        let f = links[i].flow;
        assert(c * flow == c * f + c * (flow - f)) by (nonlinear_arith);
    } else {
        assert(updated.drop_last() =~= with_flow(links.drop_last(), i, flow));
        lemma_total_cost_with_flow(links.drop_last(), i, flow);
    }
}

/// Absolute value.
pub open spec fn size(x: int) -> int {
    if x < 0 {
        -x
    } else {
        x
    }
}

/// Sum over all edges of the greatest cost that the bounds of the edge
/// allow the flow on the edge to have, in magnitude.
pub open spec fn cost_limit(links: Seq<Link>) -> int
    decreases links.len(),
{
    if links.len() == 0 {
        0
    } else {
        let l = links.last();
        cost_limit(links.drop_last()) + size(l.cost) * (if size(l.lower) > size(l.upper) {
            size(l.lower)
        } else {
            size(l.upper)
        })
    }
}

/// No flow within the bounds costs less than the negated cost limit.
pub proof fn lemma_total_cost_limited(links: Seq<Link>)
    requires
        within_bounds(links),
    ensures
        -cost_limit(links) <= total_cost(links),
    decreases links.len(),
{
    if links.len() > 0 {
        assert forall|i: int| 0 <= i < links.drop_last().len() implies (#[trigger] links.drop_last()[i]).lower
            <= links.drop_last()[i].flow <= links.drop_last()[i].upper by {
            assert(links.drop_last()[i] == links[i]);
        }
        lemma_total_cost_limited(links.drop_last());
        let l = links.last();
        assert(l == links[links.len() - 1]);
        let room = if size(l.lower) > size(l.upper) {
            size(l.lower)
        } else {
            size(l.upper)
        };
        assert(size(l.flow) <= room);
        assert(-(size(l.cost) * room) <= l.cost * l.flow) by (nonlinear_arith)
            requires
                size(l.flow) <= room,
                size(l.cost) >= 0,
                size(l.cost) == l.cost || size(l.cost) == -l.cost,
                size(l.flow) == l.flow || size(l.flow) == -l.flow,
                size(l.flow) >= 0,
        ;
    }
}

/// The cost limit depends on the costs and the bounds alone.
pub proof fn lemma_cost_limit_same_network(a: Seq<Link>, b: Seq<Link>)
    requires
        same_network(a, b),
    ensures
        cost_limit(a) == cost_limit(b),
    decreases a.len(),
{
    if a.len() > 0 {
        assert(same_network(a.drop_last(), b.drop_last())) by {
            assert forall|i: int| 0 <= i < a.drop_last().len() implies (#[trigger] a.drop_last()[i]).from == b.drop_last()[i].from
                && a.drop_last()[i].to == b.drop_last()[i].to && a.drop_last()[i].lower == b.drop_last()[i].lower
                && a.drop_last()[i].upper == b.drop_last()[i].upper && a.drop_last()[i].cost == b.drop_last()[i].cost by {
                assert(a[i].from == b[i].from);
            }
        }
        lemma_cost_limit_same_network(a.drop_last(), b.drop_last());
        assert(a.last().lower == b.last().lower) by {
            assert(a[a.len() - 1].from == b[a.len() - 1].from);
        }
    }
}

} // verus!
