use crate::counting::{lemma_occurrences_bounded, lemma_occurrences_overwrite, occurrences};
use crate::minimum_cost_flow::graph::Graph;
use crate::minimum_cost_flow::optimality::{
    cost_limit, is_slack, lemma_cost_limit_same_network, lemma_total_cost_limited, lemma_total_cost_with_flow,
    reduced_cost, total_cost,
};
use crate::network::{lemma_net_out_with_flow, lemma_same_network_transitive, net_out, same_network, with_flow, Link};
use vstd::prelude::*;

verus! {

/// Edge `e` can take more flow in the direction `forward`: along the edge
/// where it is not full, back along the edge where it carries more than
/// its lower bound.
pub open spec fn has_arc(links: Seq<Link>, e: int, forward: bool) -> bool {
    0 <= e < links.len() && (if forward {
        links[e].flow < links[e].upper
    } else {
        links[e].flow > links[e].lower
    })
}

/// Node that the residual arc of edge `e` in the direction `forward` leaves.
pub open spec fn arc_tail(links: Seq<Link>, e: int, forward: bool) -> int {
    if forward {
        links[e].from
    } else {
        links[e].to
    }
}

/// Node that the residual arc of edge `e` in the direction `forward` enters.
pub open spec fn arc_head(links: Seq<Link>, e: int, forward: bool) -> int {
    if forward {
        links[e].to
    } else {
        links[e].from
    }
}

/// Cost of the residual arc of edge `e` in the direction `forward`.
pub open spec fn arc_cost(links: Seq<Link>, e: int, forward: bool) -> int {
    if forward {
        links[e].cost
    } else {
        -links[e].cost
    }
}

/// The labels `row` come from the labels `prev` by one round of label
/// correction over the first `upto` edges: no label was raised, no
/// residual arc of these edges leads from a label of `prev` to a label of
/// `row` that is greater than the sum of that label and the cost of the
/// arc, and every label that was lowered is such a sum, for the arc that
/// `preds` names.
pub open spec fn is_round(
    links: Seq<Link>,
    n: int,
    prev: Seq<i128>,
    row: Seq<i128>,
    preds: Seq<(usize, bool)>,
    upto: int,
) -> bool {
    &&& prev.len() == n
    &&& row.len() == n
    &&& preds.len() == n
    &&& forall|v: int| 0 <= v < n ==> #[trigger] row[v] <= prev[v]
    &&& forall|e: int, forward: bool|
        0 <= e < upto && #[trigger] has_arc(links, e, forward) ==> row[arc_head(links, e, forward)] <= prev[arc_tail(
            links,
            e,
            forward,
        )] + arc_cost(links, e, forward)
    &&& forall|v: int|
        0 <= v < n && (#[trigger] row[v]) < prev[v] ==> {
            let (e, forward) = preds[v];
            &&& has_arc(links, e as int, forward)
            &&& arc_head(links, e as int, forward) == v
            &&& row[v] == prev[arc_tail(links, e as int, forward)] + arc_cost(links, e as int, forward)
        }
}

/// Two to the power of 63: the costs are less than this in magnitude.
pub open spec fn cost_range() -> int {
    0x8000_0000_0000_0000
}

/// One round of label correction: every label becomes the least of what
/// it was and the sums of the old label at the tail and the cost, over the
/// residual arcs that enter its node. Says whether a label was lowered.
fn relax_round(graph: &Graph, prev: &Vec<i128>, Ghost(floor): Ghost<int>) -> (out: (Vec<i128>, Vec<(usize, bool)>, bool))
    requires
        graph.wf(),
        prev@.len() == graph.node_count(),
        floor - cost_range() >= i128::MIN,
        forall|v: int| 0 <= v < prev@.len() ==> floor <= #[trigger] prev@[v] <= 0,
    ensures
        is_round(graph.links(), graph.node_count() as int, prev@, out.0@, out.1@, graph.links().len() as int),
        forall|v: int| 0 <= v < out.0@.len() ==> floor - cost_range() <= #[trigger] out.0@[v] <= 0,
        out.2 ==> exists|v: int| 0 <= v < out.0@.len() && (#[trigger] out.0@[v]) < prev@[v],
        !out.2 ==> out.0@ == prev@,
{
    let n = graph.num_nodes();
    let m = graph.num_edges();
    let ghost links = graph.links();
    let mut row: Vec<i128> = Vec::new();
    let mut preds: Vec<(usize, bool)> = Vec::new();
    for v in 0..n
        invariant
            prev@.len() == n,
            row@.len() == v,
            preds@.len() == v,
            forall|w: int| 0 <= w < v ==> #[trigger] row@[w] == prev@[w],
    {
        row.push(prev[v]);
        preds.push((usize::MAX, false));
    }
    let mut changed = false;
    let ghost mut lowered: int = 0;
    for edge_id in 0..m
        invariant
            graph.wf(),
            links == graph.links(),
            n == graph.num_nodes,
            m == graph.edges@.len(),
            prev@.len() == n,
            floor - cost_range() >= i128::MIN,
            forall|v: int| 0 <= v < n ==> floor <= #[trigger] prev@[v] <= 0,
            forall|v: int| 0 <= v < n ==> floor - cost_range() <= #[trigger] row@[v] <= 0,
            is_round(links, n as int, prev@, row@, preds@, edge_id as int),
            changed ==> 0 <= lowered < n && row@[lowered] < prev@[lowered],
            !changed ==> row@ =~= prev@,
    {
        let edge = graph.get_edge(edge_id).unwrap();
        proof {
            assert(links[edge_id as int] == edge.link());
            assert(graph.edges@[edge_id as int].from < graph.num_nodes);
        }
        if edge.flow < edge.upper {
            let through = prev[edge.from] + edge.cost as i128;
            if through < row[edge.to] {
                row[edge.to] = through;
                preds[edge.to] = (edge_id, true);
                changed = true;
                proof {
                    lowered = edge.to as int;
                }
            }
        }
        if edge.flow > edge.lower {
            let through = prev[edge.to] - edge.cost as i128;
            if through < row[edge.from] {
                row[edge.from] = through;
                preds[edge.from] = (edge_id, false);
                changed = true;
                proof {
                    lowered = edge.from as int;
                }
            }
        }
        proof {
            assert forall|e: int, forward: bool| 0 <= e < edge_id + 1 && #[trigger] has_arc(links, e, forward) implies row@[arc_head(
                links,
                e,
                forward,
            )] <= prev@[arc_tail(links, e, forward)] + arc_cost(links, e, forward) by {
                assert(0 <= links[e].from < n && 0 <= links[e].to < n) by {
                    assert(links[e] == graph.edge_at(e).link());
                    assert(graph.edges@[e].from < graph.num_nodes);
                }
            }
        }
    }
    proof {
        if changed {
            assert(row@[lowered] < prev@[lowered]);
            assert(exists|v: int| 0 <= v < row@.len() && (#[trigger] row@[v]) < prev@[v]);
        }
    }
    (row, preds, changed)
}

/// No residual arc leads from a label to a label that is greater than the
/// sum of that label and the cost of the arc.
pub open spec fn are_settled(links: Seq<Link>, labels: Seq<i128>) -> bool {
    forall|e: int, forward: bool| #[trigger]
        has_arc(links, e, forward) ==> labels[arc_head(links, e, forward)] <= labels[arc_tail(links, e, forward)]
            + arc_cost(links, e, forward)
}

/// The negated labels as node potentials.
pub open spec fn potentials_from(labels: Seq<i128>) -> Seq<int> {
    Seq::new(labels.len(), |u: int| -(labels[u] as int))
}

/// A flow within the bounds with settled labels satisfies complementary
/// slackness for the negated labels.
pub proof fn lemma_settled_is_slack(links: Seq<Link>, labels: Seq<i128>, n: int)
    requires
        labels.len() == n,
        crate::network::endpoints_below(links, n),
        crate::network::within_bounds(links),
        are_settled(links, labels),
    ensures
        is_slack(links, potentials_from(labels)),
{
    let pi = potentials_from(labels);
    assert forall|i: int| 0 <= i < links.len() implies (reduced_cost(#[trigger] links[i], pi) > 0 ==> links[i].flow
        == links[i].lower) && (reduced_cost(links[i], pi) < 0 ==> links[i].flow == links[i].upper) by {
        assert(0 <= links[i].from < n && 0 <= links[i].to < n);
        assert(links[i].lower <= links[i].flow <= links[i].upper);
        if links[i].flow < links[i].upper {
            assert(has_arc(links, i, true));
        }
        if links[i].flow > links[i].lower {
            assert(has_arc(links, i, false));
        }
    }
}

/// Every row of labels but the first comes from the row before it by one
/// round of label correction.
pub open spec fn is_history(links: Seq<Link>, n: int, rows: Seq<Vec<i128>>, preds: Seq<Vec<(usize, bool)>>) -> bool {
    &&& rows.len() >= 1
    &&& preds.len() == rows.len()
    &&& rows[0]@.len() == n
    &&& forall|k: int|
        1 <= k < rows.len() ==> is_round(links, n, rows[k - 1]@, rows[k]@, (#[trigger] preds[k])@, links.len() as int)
}

/// The label of node `v` was lowered in round `k`.
pub open spec fn was_lowered(rows: Seq<Vec<i128>>, k: int, v: int) -> bool {
    rows[k]@[v] < rows[k - 1]@[v]
}

/// The labels of a node do not rise from round to round.
pub proof fn lemma_labels_fall(links: Seq<Link>, n: int, rows: Seq<Vec<i128>>, preds: Seq<Vec<(usize, bool)>>, i: int, j: int, v: int)
    requires
        is_history(links, n, rows, preds),
        0 <= i <= j < rows.len(),
        0 <= v < n,
    ensures
        rows[j]@[v] <= rows[i]@[v],
        rows[i]@.len() == n,
    decreases j - i,
{
    lemma_row_len(links, n, rows, preds, i);
    if i < j {
        lemma_labels_fall(links, n, rows, preds, i, j - 1, v);
        assert(is_round(links, n, rows[j - 1]@, rows[j]@, preds[j]@, links.len() as int));
    }
}

pub proof fn lemma_row_len(links: Seq<Link>, n: int, rows: Seq<Vec<i128>>, preds: Seq<Vec<(usize, bool)>>, k: int)
    requires
        is_history(links, n, rows, preds),
        0 <= k < rows.len(),
    ensures
        rows[k]@.len() == n,
{
    if k > 0 {
        assert(is_round(links, n, rows[k - 1]@, rows[k]@, preds[k]@, links.len() as int));
    }
}

/// A label that was lowered in a round after the first was lowered by an
/// arc whose tail had its label lowered in the round before.
pub proof fn lemma_tail_was_lowered(links: Seq<Link>, n: int, rows: Seq<Vec<i128>>, preds: Seq<Vec<(usize, bool)>>, k: int, v: int)
    requires
        is_history(links, n, rows, preds),
        crate::network::endpoints_below(links, n),
        2 <= k < rows.len(),
        0 <= v < n,
        was_lowered(rows, k, v),
    ensures
        was_lowered(rows, k - 1, arc_tail(links, preds[k]@[v].0 as int, preds[k]@[v].1)),
{
    assert(is_round(links, n, rows[k - 1]@, rows[k]@, preds[k]@, links.len() as int));
    assert(is_round(links, n, rows[k - 2]@, rows[k - 1]@, preds[k - 1]@, links.len() as int));
    let (e, forward) = preds[k]@[v];
    let u = arc_tail(links, e as int, forward);
    assert(has_arc(links, e as int, forward));
    assert(0 <= links[e as int].from < n && 0 <= links[e as int].to < n);
    assert(rows[k - 1]@[u] <= rows[k - 2]@[u]);
}

/// Corrects labels round after round, from labels that are all zero,
/// until a round lowers no label or there have been as many rounds as
/// there are nodes. Returns the labels after every round with the arcs
/// that lowered them, and says whether the last round lowered no label.
fn label_rounds(graph: &Graph) -> (out: (Vec<Vec<i128>>, Vec<Vec<(usize, bool)>>, bool))
    requires
        graph.wf(),
        graph.node_count() < usize::MAX,
    ensures
        is_history(graph.links(), graph.node_count() as int, out.0@, out.1@),
        out.2 ==> are_settled(graph.links(), out.0@[out.0@.len() - 1]@),
        !out.2 ==> out.0@.len() == graph.node_count() + 1 && graph.node_count() >= 1 && exists|v: int|
            0 <= v < graph.node_count() && #[trigger] was_lowered(out.0@, graph.node_count() as int, v),
{
    let n = graph.num_nodes();
    let ghost links = graph.links();
    let mut rows: Vec<Vec<i128>> = Vec::new();
    let mut preds: Vec<Vec<(usize, bool)>> = Vec::new();
    let mut first: Vec<i128> = Vec::new();
    let mut unused: Vec<(usize, bool)> = Vec::new();
    for v in 0..n
        invariant
            first@.len() == v,
            unused@.len() == v,
            forall|w: int| 0 <= w < v ==> #[trigger] first@[w] == 0,
    {
        first.push(0);
        unused.push((usize::MAX, false));
    }
    rows.push(first);
    preds.push(unused);
    proof {
        graph.lemma_links_within_bounds();
    }
    if n == 0 {
        proof {
            assert forall|e: int, forward: bool| #[trigger] has_arc(links, e, forward) implies false by {
                assert(0 <= links[e].from < 0);
            }
        }
        return (rows, preds, true);
    }
    let mut k: usize = 1;
    let mut lowering = true;
    while lowering && k <= n
        invariant
            graph.wf(),
            links == graph.links(),
            n == graph.num_nodes,
            n >= 1,
            n < usize::MAX,
            1 <= k <= n + 1,
            crate::network::endpoints_below(links, n as int),
            rows@.len() == k,
            is_history(links, n as int, rows@, preds@),
            forall|v: int| 0 <= v < n ==> -(k - 1) * cost_range() <= #[trigger] rows@[k - 1]@[v] <= 0,
            !lowering ==> are_settled(links, rows@[k - 1]@),
            lowering && k > 1 ==> exists|v: int| 0 <= v < n && #[trigger] was_lowered(rows@, k - 1, v),
        decreases n + 1 - k, lowering as int,
    {
        proof {
            lemma_row_len(links, n as int, rows@, preds@, k - 1);
        }
        let (row, arcs, changed) = relax_round(graph, &rows[k - 1], Ghost(-(k - 1) * cost_range()));
        let ghost lowered: int = if changed {
            choose|v: int| 0 <= v < row@.len() && (#[trigger] row@[v]) < rows@[k - 1]@[v]
        } else {
            0
        };
        let ghost before = rows@;
        let ghost before_preds = preds@;
        rows.push(row);
        preds.push(arcs);
        proof {
            assert forall|l: int| 1 <= l < rows@.len() implies is_round(
                links,
                n as int,
                rows@[l - 1]@,
                rows@[l]@,
                (#[trigger] preds@[l])@,
                links.len() as int,
            ) by {
                if l < k {
                    assert(rows@[l] == before[l]);
                    assert(rows@[l - 1] == before[l - 1]);
                    assert(preds@[l] == before_preds[l]);
                    assert(is_round(links, n as int, before[l - 1]@, before[l]@, before_preds[l]@, links.len() as int));
                } else {
                    assert(rows@[l - 1] == before[k - 1]);
                }
            }
            assert(rows@[0] == before[0]);
        }
        if !changed {
            lowering = false;
            proof {
                assert forall|e: int, forward: bool| #[trigger] has_arc(links, e, forward) implies rows@[k as int]@[arc_head(
                    links,
                    e,
                    forward,
                )] <= rows@[k as int]@[arc_tail(links, e, forward)] + arc_cost(links, e, forward) by {
                    assert(is_round(links, n as int, rows@[k - 1]@, rows@[k as int]@, preds@[k as int]@, links.len() as int));
                }
            }
        } else {
            proof {
                assert(rows@[k as int] == row);
                assert(rows@[k - 1] == before[k - 1]);
                assert(0 <= lowered < n);
                assert(was_lowered(rows@, k as int, lowered));
            }
        }
        k += 1;
        proof {
            if lowering {
                assert(was_lowered(rows@, k - 1, lowered));
            }
        }
    }
    (rows, preds, !lowering)
}

/// Follows the arcs that lowered the labels back from the label of `start`
/// in the last round, round by round, until a node comes up for the
/// second time. Returns the two rounds in which it came up, the later one
/// second, and the nodes that came up, each at the index of its round.
fn find_cycle(graph: &Graph, rows: &Vec<Vec<i128>>, preds: &Vec<Vec<(usize, bool)>>, start: usize) -> (out: (
    usize,
    usize,
    Vec<usize>,
))
    requires
        graph.wf(),
        graph.node_count() >= 1,
        graph.node_count() < usize::MAX,
        is_history(graph.links(), graph.node_count() as int, rows@, preds@),
        rows@.len() == graph.node_count() + 1,
        start < graph.node_count(),
        was_lowered(rows@, graph.node_count() as int, start as int),
    ensures
        is_cycle(graph.links(), graph.node_count() as int, rows@, preds@, out.2@, out.0 as int, out.1 as int),
{
    let n = graph.num_nodes();
    let ghost links = graph.links();
    let mut path: Vec<usize> = vec![0usize; n + 1];
    let mut seen: Vec<bool> = vec![false; n];
    let mut round_of: Vec<usize> = vec![0usize; n];
    let mut k: usize = n;
    let mut w: usize = start;
    proof {
        graph.lemma_links_within_bounds();
        crate::counting::lemma_occurrences_none(seen@, true);
    }
    loop
        invariant
            graph.wf(),
            links == graph.links(),
            n == graph.num_nodes,
            n >= 1,
            crate::network::endpoints_below(links, n as int),
            is_history(links, n as int, rows@, preds@),
            rows@.len() == n + 1,
            path@.len() == n + 1,
            seen@.len() == n,
            round_of@.len() == n,
            k <= n,
            w < n,
            k >= 1 ==> was_lowered(rows@, k as int, w as int),
            occurrences(seen@, true) == n - k,
            forall|x: int| 0 <= x < n && #[trigger] seen@[x] ==> k < round_of@[x] <= n && path@[round_of@[x] as int] == x,
            forall|l: int| k < l <= n ==> (#[trigger] path@[l]) < n && seen@[path@[l] as int] && round_of@[path@[l] as int] == l,
            forall|l: int| k < l <= n ==> was_lowered(rows@, l, (#[trigger] path@[l]) as int),
            forall|l: int|
                k + 1 < l <= n ==> arc_tail(
                    links,
                    (#[trigger] preds@[l])@[path@[l] as int].0 as int,
                    preds@[l]@[path@[l] as int].1,
                ) == path@[l - 1],
            k < n ==> arc_tail(links, preds@[k + 1]@[path@[k + 1] as int].0 as int, preds@[k + 1]@[path@[k + 1] as int].1) == w,
        decreases k,
    {
        if seen[w] {
            let j = round_of[w];
            path[k] = w;
            proof {
                assert forall|a: int, b: int| k < a < b <= j implies path@[a] != path@[b] by {
                    assert(round_of@[path@[a] as int] == a);
                    assert(round_of@[path@[b] as int] == b);
                }
            }
            return (k, j, path);
        }
        proof {
            if k == 0 {
                crate::counting::lemma_occurrences_full(seen@, true);
                assert(seen@[w as int]);
            }
            lemma_occurrences_overwrite(seen@, w as int, false, true);
            crate::counting::lemma_occurrences_flip(seen@, w as int);
            assert(is_round(links, n as int, rows@[k - 1]@, rows@[k as int]@, preds@[k as int]@, links.len() as int));
        }
        seen[w] = true;
        round_of[w] = k;
        path[k] = w;
        let (e, forward) = preds[k][w];
        let edge = graph.get_edge(e).unwrap();
        proof {
            assert(links[e as int] == edge.link());
            assert(0 <= links[e as int].from < n && 0 <= links[e as int].to < n);
            if k >= 2 {
                lemma_tail_was_lowered(links, n as int, rows@, preds@, k as int, w as int);
            }
        }
        w = if forward {
            edge.from
        } else {
            edge.to
        };
        k -= 1;
    }
}

/// The nodes of `path` from round `i` to round `j` lie on a cycle of
/// residual arcs: the node of each round after `i` had its label lowered
/// in that round by an arc from the node of the round before, the nodes of
/// the rounds after `i` are all different, and the node of round `i` is
/// that of round `j`.
pub open spec fn is_cycle(
    links: Seq<Link>,
    n: int,
    rows: Seq<Vec<i128>>,
    preds: Seq<Vec<(usize, bool)>>,
    path: Seq<usize>,
    i: int,
    j: int,
) -> bool {
    &&& 0 <= i < j <= n
    &&& path.len() == n + 1
    &&& path[i] == path[j]
    &&& forall|l: int| i <= l <= j ==> (#[trigger] path[l]) < n
    &&& forall|l: int| i < l <= j ==> was_lowered(rows, l, (#[trigger] path[l]) as int)
    &&& forall|l: int|
        i < l <= j ==> arc_tail(links, (#[trigger] preds[l])@[path[l] as int].0 as int, preds[l]@[path[l] as int].1)
            == path[l - 1]
    &&& forall|a: int, b: int| i < a < b <= j ==> path[a] != path[b]
}

/// Moves one unit of flow around the cycle that `path` describes from
/// round `i` to round `j`: along every arc that lowered the label of a
/// node of the cycle.
fn push_cycle(graph: &mut Graph, rows: &Vec<Vec<i128>>, preds: &Vec<Vec<(usize, bool)>>, path: &Vec<usize>, i: usize, j: usize)
    requires
        old(graph).wf(),
        old(graph).node_count() < usize::MAX,
        is_history(old(graph).links(), old(graph).node_count() as int, rows@, preds@),
        rows@.len() == old(graph).node_count() + 1,
        is_cycle(old(graph).links(), old(graph).node_count() as int, rows@, preds@, path@, i as int, j as int),
    ensures
        final(graph).wf(),
        final(graph).num_nodes == old(graph).num_nodes,
        final(graph).num_edges == old(graph).num_edges,
        final(graph).b == old(graph).b,
        final(graph).excesses == old(graph).excesses,
        same_network(final(graph).links(), old(graph).links()),
        total_cost(final(graph).links()) == total_cost(old(graph).links()) + rows@[j as int]@[path@[j as int] as int]
            - rows@[i as int]@[path@[i as int] as int],
        forall|u: int| #[trigger] net_out(final(graph).links(), u) == net_out(old(graph).links(), u),
{
    let n = graph.num_nodes();
    let ghost start = old(graph).links();
    proof {
        old(graph).lemma_links_within_bounds();
    }
    let mut l: usize = i + 1;
    while l <= j
        invariant
            graph.wf(),
            graph.num_nodes == old(graph).num_nodes,
            graph.num_edges == old(graph).num_edges,
            graph.b == old(graph).b,
            graph.excesses == old(graph).excesses,
            n == graph.num_nodes,
            n < usize::MAX,
            start == old(graph).links(),
            crate::network::endpoints_below(start, n as int),
            same_network(graph.links(), start),
            is_history(start, n as int, rows@, preds@),
            rows@.len() == n + 1,
            is_cycle(start, n as int, rows@, preds@, path@, i as int, j as int),
            i < l <= j + 1,
            total_cost(graph.links()) == total_cost(start) + rows@[l - 1]@[path@[l - 1] as int]
                - rows@[i as int]@[path@[i as int] as int],
            forall|u: int|
                #[trigger] net_out(graph.links(), u) == net_out(start, u) + (if u == path@[i as int] {
                    1int
                } else {
                    0
                }) - (if u == path@[l - 1] {
                    1int
                } else {
                    0
                }),
            forall|q: int|
                l <= q <= j ==> has_arc(
                    graph.links(),
                    (#[trigger] preds@[q])@[path@[q] as int].0 as int,
                    preds@[q]@[path@[q] as int].1,
                ),
        decreases j + 1 - l,
    {
        let ghost now = graph.links();
        let w = path[l];
        proof {
            assert(path@[l as int] < n);
            assert(was_lowered(rows@, l as int, path@[l as int] as int));
            assert(is_round(start, n as int, rows@[l - 1]@, rows@[l as int]@, preds@[l as int]@, start.len() as int));
            assert(has_arc(now, preds@[l as int]@[path@[l as int] as int].0 as int, preds@[l as int]@[path@[l as int] as int].1));
        }
        let (e, forward) = preds[l][w];
        let edge = graph.get_edge(e).unwrap();
        proof {
            assert(now[e as int] == edge.link());
            assert(now[e as int].from == start[e as int].from);
        }
        let flow = if forward {
            edge.flow + 1
        } else {
            edge.flow - 1
        };
        graph.set_edge_flow(e, flow);
        proof {
            let after = graph.links();
            assert(after == with_flow(now, e as int, flow as int));
            assert(same_network(after, now)) by {
                assert forall|x: int| 0 <= x < after.len() implies (#[trigger] after[x]).from == now[x].from && after[x].to
                    == now[x].to && after[x].lower == now[x].lower && after[x].upper == now[x].upper && after[x].cost
                    == now[x].cost by {}
            }
            lemma_same_network_transitive(after, now, start);
            lemma_total_cost_with_flow(now, e as int, flow as int);
            let c = now[e as int].cost;
            assert(c * (flow - edge.flow) == arc_cost(start, e as int, forward)) by {
                if forward {
                    assert(c * 1 == c);
                } else {
                    assert(c * (-1) == -c) by (nonlinear_arith);
                }
            }
            assert(arc_tail(start, e as int, forward) == path@[l - 1]);
            assert(arc_head(start, e as int, forward) == w);
            assert forall|u: int|
                #[trigger] net_out(after, u) == net_out(start, u) + (if u == path@[i as int] {
                    1int
                } else {
                    0
                }) - (if u == w {
                    1int
                } else {
                    0
                }) by {
                lemma_net_out_with_flow(now, e as int, flow as int, u);
                assert(net_out(now, u) == net_out(start, u) + (if u == path@[i as int] {
                    1int
                } else {
                    0
                }) - (if u == path@[l - 1] {
                    1int
                } else {
                    0
                }));
            }
            assert forall|q: int| l + 1 <= q <= j implies has_arc(
                after,
                (#[trigger] preds@[q])@[path@[q] as int].0 as int,
                preds@[q]@[path@[q] as int].1,
            ) by {
                let (eq, fq) = preds@[q]@[path@[q] as int];
                assert(has_arc(now, eq as int, fq));
                assert(was_lowered(rows@, q, path@[q] as int));
                assert(is_round(start, n as int, rows@[q - 1]@, rows@[q]@, preds@[q]@, start.len() as int));
                assert(arc_head(start, eq as int, fq) == path@[q]);
                assert(path@[l as int] != path@[q]);
                if eq == e {
                    assert(fq != forward);
                }
            }
        }
        l += 1;
    }
}

/// Moves flow around cycles of negative cost in the residual graph, one
/// unit at a time, until label correction finds none any more. Returns
/// the labels, which then are settled: negated, they are node potentials
/// for which the flow satisfies complementary slackness.
///
/// Every cycle lowers the cost of the flow, so that the search comes to an
/// end. The net outflow of every node stays as it is.
pub fn cancel_negative_cycles(graph: &mut Graph) -> (labels: Vec<i128>)
    requires
        old(graph).wf(),
        old(graph).node_count() < usize::MAX,
    ensures
        final(graph).wf(),
        final(graph).num_nodes == old(graph).num_nodes,
        final(graph).num_edges == old(graph).num_edges,
        final(graph).b == old(graph).b,
        final(graph).excesses == old(graph).excesses,
        same_network(final(graph).links(), old(graph).links()),
        forall|u: int| #[trigger] net_out(final(graph).links(), u) == net_out(old(graph).links(), u),
        labels@.len() == final(graph).node_count(),
        are_settled(final(graph).links(), labels@),
{
    let n = graph.num_nodes();
    let ghost limit = cost_limit(graph.links());
    let mut labels: Vec<i128> = Vec::new();
    let mut searching = true;
    proof {
        graph.lemma_links_within_bounds();
        lemma_total_cost_limited(graph.links());
    }
    while searching
        invariant
            graph.wf(),
            graph.num_nodes == old(graph).num_nodes,
            graph.num_edges == old(graph).num_edges,
            graph.b == old(graph).b,
            graph.excesses == old(graph).excesses,
            n == graph.num_nodes,
            n < usize::MAX,
            same_network(graph.links(), old(graph).links()),
            limit == cost_limit(graph.links()),
            0 <= total_cost(graph.links()) + limit,
            forall|u: int| #[trigger] net_out(graph.links(), u) == net_out(old(graph).links(), u),
            !searching ==> labels@.len() == n && are_settled(graph.links(), labels@),
        decreases total_cost(graph.links()) + limit, searching as int,
    {
        let ghost before = graph.links();
        let (mut rows, preds, converged) = label_rounds(graph);
        if converged {
            let ghost last = rows@[rows@.len() - 1];
            proof {
                lemma_row_len(before, n as int, rows@, preds@, rows@.len() - 1);
            }
            labels = rows.pop().unwrap();
            searching = false;
        } else {
            let mut start: usize = 0;
            proof {
                lemma_row_len(before, n as int, rows@, preds@, n as int);
                lemma_row_len(before, n as int, rows@, preds@, n - 1);
            }
            while start < n && rows[n][start] >= rows[n - 1][start]
                invariant
                    n >= 1,
                    rows@.len() == n + 1,
                    rows@[n as int]@.len() == n,
                    rows@[n - 1]@.len() == n,
                    is_history(before, n as int, rows@, preds@),
                    start <= n,
                    forall|x: int| 0 <= x < start ==> !was_lowered(rows@, n as int, x),
                decreases n - start,
            {
                proof {
                    lemma_row_len(before, n as int, rows@, preds@, n as int);
                    lemma_row_len(before, n as int, rows@, preds@, n - 1);
                }
                start += 1;
            }
            proof {
                lemma_row_len(before, n as int, rows@, preds@, n as int);
                lemma_row_len(before, n as int, rows@, preds@, n - 1);
                let v = choose|v: int| 0 <= v < n && #[trigger] was_lowered(rows@, n as int, v);
                assert(start < n);
            }
            let (i, j, path) = find_cycle(graph, &rows, &preds, start);
            push_cycle(graph, &rows, &preds, &path, i, j);
            proof {
                let w = path@[j as int] as int;
                assert(was_lowered(rows@, j as int, w));
                lemma_labels_fall(before, n as int, rows@, preds@, i as int, j - 1, w);
                lemma_cost_limit_same_network(graph.links(), before);
                graph.lemma_links_within_bounds();
                lemma_total_cost_limited(graph.links());
                lemma_same_network_transitive(graph.links(), before, old(graph).links());
            }
        }
    }
    labels
}

} // verus!
