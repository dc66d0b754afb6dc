use crate::arith::{sat_neg, sat_sub};
use crate::counting::{lemma_occurrences_overwrite, occurrences};
use crate::minimum_cost_flow::csr::certify;
use crate::minimum_cost_flow::graph::Graph;
use crate::minimum_cost_flow::network_simplex_pivot_rules::{answers, violates, PivotRule};
use crate::minimum_cost_flow::primal_network_simplex::{copy_flows, potentials_of};
use crate::minimum_cost_flow::spanning_tree_structure::{
    exchanged, flipped, names, EdgeState, InternalEdge, SpanningTreeStructure,
};
use crate::minimum_cost_flow::status::Status;
use crate::minimum_cost_flow::threading::{
    entry_ok, kids_ok, lemma_tallied_before, lemma_tallied_completed, lemma_tallied_in_whole, lemma_tallied_is_below,
    lemma_tallied_one_in_whole, lemma_tallied_same, lemma_tallied_split, lemma_whole_completed, lemma_whole_same,
    parents_of, tallied, tops, whole,
};
use std::collections::VecDeque;
use vstd::prelude::*;

verus! {

/// Minimum-cost flow by the dual network simplex method: keeps the
/// optimality conditions on a spanning tree and lets tree edges whose
/// flow is out of bounds leave the tree, one after the other.
pub struct DualNetworkSimplex {
    pub st: SpanningTreeStructure,
    pub sink: usize,
}

impl Default for DualNetworkSimplex {
    fn default() -> (solver: Self)
        ensures
            solver.st.wf(),
    {
        DualNetworkSimplex { st: SpanningTreeStructure::default(), sink: 0 }
    }
}

/// `distances` and `prev` are what a search along the edges of `st` from
/// `source` has found: every node that was reached hangs by an edge
/// that leads to it from a node that was reached, at the distance of that
/// node plus the cost of the edge; where no cost is negative, no edge
/// from a node that was reached is a shortcut; every node that was not
/// reached has the distance of such nodes, the sum of all costs and one;
/// and every edge from a node that was reached leads to a node that was
/// reached, unless the distance through the edge is not less than that,
/// which is never so where no cost is negative and the sum of all costs
/// and one fits an `i64`.
pub open spec fn is_search_result(
    st: &SpanningTreeStructure,
    source: int,
    distances: Seq<i64>,
    prev: Seq<Option<usize>>,
) -> bool {
    &&& distances.len() == st.num_nodes
    &&& prev.len() == st.num_nodes
    &&& distances[source] == 0
    &&& prev[source].is_none()
    &&& forall|w: int|
        0 <= w < st.num_nodes && (#[trigger] prev[w]).is_some() ==> {
            let e = prev[w].unwrap() as int;
            &&& e < st.num_edges
            &&& st.edges@[e].to == w
            &&& st.edges@[e].from != w
            &&& SpanningTreeStructure::is_reached(source, prev, st.edges@[e].from as int)
            &&& distances[w] == crate::arith::clamp(distances[st.edges@[e].from as int] + st.edges@[e].cost)
        }
    &&& st.costs_nonnegative() ==> forall|e: int|
        0 <= e < st.num_edges && SpanningTreeStructure::is_reached(source, prev, (#[trigger] st.edges@[e]).from as int)
            ==> distances[st.edges@[e].to as int] <= crate::arith::clamp(
            distances[st.edges@[e].from as int] + st.edges@[e].cost,
        )
    &&& forall|w: int|
        0 <= w < st.num_nodes && !SpanningTreeStructure::is_reached(source, prev, w) ==> #[trigger] distances[w]
            == st.far()
    &&& forall|e: int|
        0 <= e < st.num_edges && SpanningTreeStructure::is_reached(source, prev, (#[trigger] st.edges@[e]).from as int)
            ==> SpanningTreeStructure::is_reached(source, prev, st.edges@[e].to as int) || st.far()
            <= crate::arith::clamp(distances[st.edges@[e].from as int] + st.edges@[e].cost)
    &&& st.costs_fit() ==> forall|e: int|
        0 <= e < st.num_edges && SpanningTreeStructure::is_reached(source, prev, (#[trigger] st.edges@[e]).from as int)
            ==> SpanningTreeStructure::is_reached(source, prev, st.edges@[e].to as int)
}

/// The edges of `before`, those in the tree by which the search result
/// `prev` has reached a node.
pub open spec fn tree_edges(before: &SpanningTreeStructure, prev: Seq<Option<usize>>) -> Seq<InternalEdge> {
    Seq::new(
        before.num_edges as nat,
        |e: int|
            if prev[before.edges@[e].to as int] == Some(e as usize) {
                InternalEdge { state: EdgeState::Tree, ..before.edges@[e] }
            } else {
                before.edges@[e]
            },
    )
}

/// The tree of `st` is the one that the search result `distances` and
/// `prev` describes on `before`: the edges by which the nodes were
/// reached are in the tree and no other edge has changed, every node that
/// was reached hangs below the tail of its edge, the root hangs nowhere,
/// and the potential of every node is its negated distance.
pub open spec fn hangs_by(
    st: &SpanningTreeStructure,
    before: &SpanningTreeStructure,
    distances: Seq<i64>,
    prev: Seq<Option<usize>>,
) -> bool {
    &&& st.edges@ == tree_edges(before, prev)
    &&& forall|w: int|
        0 <= w < before.num_nodes ==> (#[trigger] st.nodes@[w]).potential == crate::arith::clamp(-distances[w])
    &&& forall|w: int|
        0 <= w < before.num_nodes && w != before.root ==> (#[trigger] st.nodes@[w]).parent == (match prev[w] {
            Some(e) => before.edges@[e as int].from,
            None => before.nodes@[w].parent,
        }) && st.nodes@[w].parent_edge_id == (match prev[w] {
            Some(e) => e,
            None => before.nodes@[w].parent_edge_id,
        })
    &&& st.nodes@[before.root as int].parent == usize::MAX
    &&& st.nodes@[before.root as int].parent_edge_id == usize::MAX
}

/// `st` is `before` with the edges `grown`, after the excess of the root
/// has been moved along the tree path from the root to `sink`.
pub open spec fn shipped(
    st: &SpanningTreeStructure,
    before: &SpanningTreeStructure,
    sink: usize,
    grown: Seq<InternalEdge>,
) -> bool {
    let supply = before.excesses@[before.root as int];
    &&& st.edges@ == crate::minimum_cost_flow::spanning_tree_structure::climbed(
        grown,
        st.nodes@,
        sink as int,
        before.root as int,
        true,
        supply as int,
        crate::arith::clamp(-supply),
        before.num_nodes as nat,
    )
    &&& st.excesses@ == before.excesses@.update(before.root as int, 0).update(
        sink as int,
        crate::arith::clamp(before.excesses@.update(before.root as int, 0)[sink as int] + supply) as i64,
    )
}

/// Makes the shortest paths from the root the spanning tree: every node
/// that the root reaches hangs below the node from which it was reached,
/// the tree is threaded depth first, and the potentials are the negated
/// distances. Says whether `sink` is in the tree. The thread from the
/// root comes round; and where every count of successors was zero
/// before, every node on the thread counts itself and the successors of
/// its children.
#[verifier::spinoff_prover]
#[verifier::rlimit(100)]
pub(crate) fn grow_shortest_path_tree(st: &mut SpanningTreeStructure, sink: usize) -> (reached: bool)
    requires
        old(st).wf(),
        old(st).root < old(st).num_nodes,
        sink < old(st).num_nodes,
    ensures
        final(st).wf(),
        final(st).same_graph(old(st)),
        final(st).root == old(st).root,
        final(st).excesses == old(st).excesses,
        !reached ==> *final(st) == *old(st),
        exists|distances: Seq<i64>, prev: Seq<Option<usize>>|
            {
                &&& #[trigger] is_search_result(old(st), old(st).root as int, distances, prev)
                &&& reached == prev[sink as int].is_some()
                &&& reached ==> hangs_by(final(st), old(st), distances, prev)
            },
        reached ==> exists|len: nat| #[trigger] final(st).comes_round(final(st).root, len),
        reached && (forall|x: int| 0 <= x < old(st).num_nodes ==> #[trigger] old(st).num_successors@[x] == 0)
            ==> exists|len: nat| #[trigger]
            final(st).comes_round(final(st).root, len) && final(st).counts_agree(final(st).root, len),
{
    let n = st.num_nodes;
    let root = st.root;
    let (distances, prev_edge_id) = st.shortest_path(root);
    proof {
        assert(is_search_result(old(st), root as int, distances@, prev_edge_id@));
    }

    // there is no s-t path
    if prev_edge_id[sink].is_none() {
        return false;
    }

    // make tree structure
    let mut children: Vec<Vec<usize>> = Vec::new();
    for u in 0..n
        invariant
            children@.len() == u,
            forall|w: int| 0 <= w < u ==> (#[trigger] children@[w])@.len() == 0,
    {
        children.push(Vec::new());
    }
    for w in 0..n
        invariant
            st.wf(),
            st.same_graph(old(st)),
            st.root == root,
            st.excesses == old(st).excesses,
            n == st.num_nodes,
            root < n,
            prev_edge_id@.len() == n,
            distances@.len() == n,
            children@.len() == n,
            is_search_result(old(st), root as int, distances@, prev_edge_id@),
            forall|e: int|
                0 <= e < st.num_edges ==> #[trigger] st.edges@[e] == (if old(st).edges@[e].to < w
                    && prev_edge_id@[old(st).edges@[e].to as int] == Some(e as usize) {
                    InternalEdge { state: EdgeState::Tree, ..old(st).edges@[e] }
                } else {
                    old(st).edges@[e]
                }),
            forall|x: int|
                0 <= x < n ==> (#[trigger] st.nodes@[x]).potential == old(st).nodes@[x].potential,
            forall|x: int|
                0 <= x < n ==> (#[trigger] st.nodes@[x]).parent == (if x < w && prev_edge_id@[x].is_some() {
                    old(st).edges@[prev_edge_id@[x].unwrap() as int].from
                } else {
                    old(st).nodes@[x].parent
                }) && st.nodes@[x].parent_edge_id == (if x < w && prev_edge_id@[x].is_some() {
                    prev_edge_id@[x].unwrap()
                } else {
                    old(st).nodes@[x].parent_edge_id
                }),
            forall|x: int|
                0 <= x < n && (#[trigger] prev_edge_id@[x]).is_some() ==> prev_edge_id@[x].unwrap() < st.num_edges,
            forall|x: int, k: int|
                0 <= x < n && 0 <= k < (#[trigger] children@[x])@.len() ==> (#[trigger] children@[x]@[k]) < n,
            st.num_successors == old(st).num_successors,
            forall|x: int, k: int|
                0 <= x < n && 0 <= k < (#[trigger] children@[x])@.len() ==> (#[trigger] children@[x]@[k]) < w
                    && prev_edge_id@[children@[x]@[k] as int].is_some() && old(st).edges@[prev_edge_id@[children@[x]@[k] as int].unwrap() as int].from
                    == x,
            forall|x: int, k: int, l: int|
                0 <= x < n && 0 <= k < l < children@[x]@.len() ==> (#[trigger] children@[x]@[k]) < (
                #[trigger] children@[x]@[l]),
    {
        if let Some(edge_id) = prev_edge_id[w] {
            let edge = st.edges[edge_id];
            st.edges[edge_id].state = EdgeState::Tree;
            st.nodes[edge.to].parent = edge.from;
            st.nodes[edge.to].parent_edge_id = edge_id;
            let ghost before = children@;
            children[edge.from].push(edge.to);
            proof {
                assert forall|x: int, k: int| 0 <= x < n && 0 <= k < (#[trigger] children@[x])@.len() implies (
                #[trigger] children@[x]@[k]) < n && children@[x]@[k] < w + 1 && prev_edge_id@[children@[x]@[k] as int].is_some()
                    && old(st).edges@[prev_edge_id@[children@[x]@[k] as int].unwrap() as int].from == x by {
                    if x == edge.from {
                        if k < before[x]@.len() {
                            assert(children@[x]@[k] == before[x]@[k]);
                        }
                    } else {
                        assert(children@[x] == before[x]);
                    }
                }
                assert forall|x: int, k: int, l: int| 0 <= x < n && 0 <= k < l < children@[x]@.len() implies (
                #[trigger] children@[x]@[k]) < (#[trigger] children@[x]@[l]) by {
                    if x == edge.from {
                        assert(children@[x]@[k] == before[x]@[k]);
                        if l < before[x]@.len() {
                            assert(children@[x]@[l] == before[x]@[l]);
                        }
                    } else {
                        assert(children@[x] == before[x]);
                    }
                }
            }
        }
    }
    st.nodes[root].parent = usize::MAX;
    st.nodes[root].parent_edge_id = usize::MAX;
    let ghost hung = (st.nodes@, st.edges@);
    let ghost parents = parents_of(hung.0);
    proof {
        assert forall|x: int, k: int| 0 <= x < n && 0 <= k < (#[trigger] children@[x])@.len() implies (
        #[trigger] children@[x]@[k]) < n && children@[x]@[k] != root && children@[x]@[k] != x && parents[children@[x]@[k] as int]
            == x by {
            let c = children@[x]@[k] as int;
            assert(prev_edge_id@[c].is_some());
            assert(old(st).edges@[prev_edge_id@[c].unwrap() as int].from != c);
        }
        assert(kids_ok(children@, parents, root));
    }
    for u in 0..n
        invariant
            st.wf(),
            st.same_graph(old(st)),
            st.root == root,
            st.excesses == old(st).excesses,
            n == st.num_nodes,
            st.nodes@ == hung.0,
            st.edges@ == hung.1,
            st.num_successors == old(st).num_successors,
    {
        st.last_descendent_dft[u] = u;
    }

    let mut prev_node = usize::MAX;
    let mut stack: VecDeque<(usize, usize)> = VecDeque::new();
    stack.push_back((root, usize::MAX));
    let mut seen: Vec<bool> = vec![false; n];
    let ghost mut order: Seq<usize> = Seq::empty();
    let ghost mut complete: Seq<bool> = Seq::new(n as nat, |x: int| false);
    let ghost zero = forall|x: int| 0 <= x < n ==> #[trigger] old(st).num_successors@[x] == 0;
    proof {
        assert(stack@ =~= seq![(root, usize::MAX)]);
        crate::counting::lemma_occurrences_bounded(seen@, false);
        crate::counting::lemma_occurrences_all(complete, false);
        assert(entry_ok(stack@, parents, seen@, complete, root, 0));
    }
    while stack.len() > 0
        invariant
            order.len() + occurrences(seen@, false) <= n,
            order.len() == 0 ==> stack@.len() == 1 && stack@[0].0 == root && !seen@[root as int] && prev_node
                == usize::MAX,
            order.len() > 0 ==> order[0] == root && prev_node == order[order.len() - 1],
            forall|i: int| 0 <= i < order.len() ==> (#[trigger] order[i]) < n && seen@[order[i] as int],
            forall|i: int, j: int| 0 <= i < j < order.len() ==> #[trigger] order[i] != #[trigger] order[j],
            forall|i: int| 0 <= i < order.len() - 1 ==> #[trigger] linked(st.next_node_dft@, order, i),
            parents == parents_of(hung.0),
            parents[root as int] == usize::MAX,
            kids_ok(children@, parents, root),
            complete.len() == n,
            forall|x: int| 0 <= x < n && #[trigger] complete[x] ==> seen@[x],
            forall|j: int| 0 <= j < stack@.len() ==> #[trigger] entry_ok(stack@, parents, seen@, complete, root, j),
            forall|i: int, j: int| 0 <= i < j < stack@.len() ==> (#[trigger] stack@[i]).0 != (#[trigger] stack@[j]).0,
            forall|i: int|
                0 <= i < order.len() && !complete[(#[trigger] order[i]) as int] ==> exists|j: int|
                    0 <= j < stack@.len() && (#[trigger] stack@[j]).0 == order[i],
            forall|x: int| 0 <= x < n && #[trigger] seen@[x] ==> exists|i: int| 0 <= i < order.len() && #[trigger] order[i] == x,
            forall|j: int|
                0 <= j < order.len() ==> parents[(#[trigger] order[j]) as int] == usize::MAX || exists|i: int|
                    0 <= i < j && #[trigger] order[i] == parents[order[j] as int],
            zero ==> forall|x: int|
                0 <= x < n ==> #[trigger] st.num_successors@[x] == (if complete[x] {
                    1int
                } else {
                    0
                }) + tallied(order, parents, st.num_successors@, complete, x, 0, order.len() as int),
            zero ==> whole(order, parents, st.num_successors@, complete, order.len() as int) + occurrences(complete, false)
                == n,
            st.wf(),
            st.same_graph(old(st)),
            st.root == root,
            st.excesses == old(st).excesses,
            st.nodes@ == hung.0,
            st.edges@ == hung.1,
            n == st.num_nodes,
            n < usize::MAX,
            root < n,
            seen@.len() == n,
            children@.len() == n,
            names(prev_node, n),
            forall|i: int| 0 <= i < stack@.len() ==> (#[trigger] stack@[i]).0 < n && names(stack@[i].1, n),
            forall|x: int, k: int|
                0 <= x < n && 0 <= k < (#[trigger] children@[x])@.len() ==> (#[trigger] children@[x]@[k]) < n,
        decreases occurrences(seen@, false), stack@.len(),
    {
        let ghost waiting = stack@;
        let ghost top = waiting.len() - 1;
        let (u, parent) = stack.pop_back().unwrap();
        proof {
            assert(waiting[top] == (u, parent));
            assert(entry_ok(waiting, parents, seen@, complete, root, top));
            assert forall|i: int| 0 <= i < stack@.len() implies (#[trigger] stack@[i]).0 < n && names(stack@[i].1, n)
                && stack@[i] == waiting[i] && stack@[i].0 != u by {
                assert(stack@[i] == waiting[i]);
                assert(waiting[i].0 != waiting[top].0);
            }
            assert forall|j: int| 0 <= j < stack@.len() implies #[trigger] entry_ok(
                stack@,
                parents,
                seen@,
                complete,
                root,
                j,
            ) by {
                assert(entry_ok(waiting, parents, seen@, complete, root, j));
                if waiting[j].1 != usize::MAX {
                    let i = choose|i: int| 0 <= i < j && (#[trigger] waiting[i]).0 == waiting[j].1;
                    assert(stack@[i] == waiting[i]);
                }
            }
        }
        if seen[u] {
            let ghost counts = st.num_successors@;
            let ghost len = order.len() as int;
            proof {
                if zero {
                    lemma_tallied_one_in_whole(order, parents, counts, complete, u as int, len);
                    if parent != usize::MAX {
                        lemma_tallied_in_whole(order, parents, counts, complete, u as int, parent as int, len);
                    }
                    crate::counting::lemma_occurrences_bounded(complete, false);
                }
            }
            if st.num_successors[u] < usize::MAX {
                st.num_successors[u] += 1;
            }
            if parent != usize::MAX {
                st.last_descendent_dft[parent] = st.last_descendent_dft[u];
                let above = st.nodes[u].parent;
                proof {
                    assert(above == parents[u as int]);
                }
                if above != usize::MAX && st.num_successors[above] <= usize::MAX - st.num_successors[u] {
                    st.num_successors[above] += st.num_successors[u];
                }
            }
            proof {
                let after = st.num_successors@;
                let done = complete.update(u as int, true);
                crate::counting::lemma_occurrences_overwrite(complete, u as int, false, true);
                let at = choose|i: int| 0 <= i < order.len() && #[trigger] order[i] == u;
                if zero {
                    assert(after[u as int] == counts[u as int] + 1);
                    assert(parent != usize::MAX ==> after[parent as int] == counts[parent as int] + after[u as int]);
                    assert forall|x: int| 0 <= x < n implies #[trigger] after[x] == (if done[x] {
                        1int
                    } else {
                        0
                    }) + tallied(order, parents, after, done, x, 0, len) by {
                        lemma_tallied_same(order, parents, counts, complete, order, after, complete, x, 0, len);
                        lemma_tallied_completed(order, parents, after, complete, u as int, x, len);
                    }
                    lemma_whole_same(order, parents, counts, complete, order, after, complete, len);
                    lemma_tallied_same(order, parents, counts, complete, order, after, complete, u as int, 0, len);
                    lemma_whole_completed(order, parents, after, complete, u as int, len);
                }
                assert forall|j: int| 0 <= j < stack@.len() implies #[trigger] entry_ok(
                    stack@,
                    parents,
                    seen@,
                    done,
                    root,
                    j,
                ) by {
                    assert(entry_ok(stack@, parents, seen@, complete, root, j));
                    if stack@[j].1 == u {
                        let i = choose|i: int| 0 <= i < j && (#[trigger] stack@[i]).0 == stack@[j].1;
                        assert(stack@[i].0 != u);
                    }
                }
                assert forall|i: int| 0 <= i < order.len() && !done[(#[trigger] order[i]) as int] implies exists|j: int|
                    0 <= j < stack@.len() && (#[trigger] stack@[j]).0 == order[i] by {
                    let j = choose|j: int| 0 <= j < waiting.len() && (#[trigger] waiting[j]).0 == order[i];
                    assert(j != top);
                    assert(stack@[j] == waiting[j]);
                }
                complete = done;
            }
        } else {
            let ghost threaded = st.next_node_dft@;
            let ghost visited = seen@;
            let ghost len = order.len() as int;
            proof {
                lemma_occurrences_overwrite(seen@, u as int, false, true);
            }
            seen[u] = true;
            st.prev_node_dft[u] = prev_node;
            if prev_node != usize::MAX {
                st.next_node_dft[prev_node] = u;
            }
            proof {
                let longer = order.push(u);
                if order.len() == 0 {
                    assert(waiting[0] == (u, parent));
                }
                assert forall|i: int| 0 <= i < longer.len() - 1 implies #[trigger] linked(
                    st.next_node_dft@,
                    longer,
                    i,
                ) by {
                    if i < order.len() - 1 {
                        assert(linked(threaded, order, i));
                        assert(order[i] != order[order.len() - 1]);
                    }
                }
                assert forall|x: int| 0 <= x < n && #[trigger] seen@[x] implies exists|i: int|
                    0 <= i < longer.len() && #[trigger] longer[i] == x by {
                    if x == u {
                        assert(longer[len] == u);
                    } else {
                        assert(visited[x]);
                        let i = choose|i: int| 0 <= i < order.len() && #[trigger] order[i] == x;
                        assert(longer[i] == x);
                    }
                }
                assert forall|j: int| 0 <= j < longer.len() implies parents[(#[trigger] longer[j]) as int] == usize::MAX
                    || exists|i: int| 0 <= i < j && #[trigger] longer[i] == parents[longer[j] as int] by {
                    if j < len {
                        assert(longer[j] == order[j]);
                        if parents[order[j] as int] != usize::MAX {
                            let i = choose|i: int| 0 <= i < j && #[trigger] order[i] == parents[order[j] as int];
                            assert(longer[i] == order[i]);
                        }
                    } else if parent != usize::MAX {
                        assert(visited[parent as int]);
                        let i = choose|i: int| 0 <= i < order.len() && #[trigger] order[i] == parent;
                        assert(longer[i] == parent);
                    }
                }
                if zero {
                    assert forall|x: int| 0 <= x < n implies #[trigger] st.num_successors@[x] == (if complete[x] {
                        1int
                    } else {
                        0
                    }) + tallied(longer, parents, st.num_successors@, complete, x, 0, len + 1) by {
                        lemma_tallied_same(
                            order,
                            parents,
                            st.num_successors@,
                            complete,
                            longer,
                            st.num_successors@,
                            complete,
                            x,
                            0,
                            len,
                        );
                    }
                    lemma_whole_same(
                        order,
                        parents,
                        st.num_successors@,
                        complete,
                        longer,
                        st.num_successors@,
                        complete,
                        len,
                    );
                    assert(!tops(parents, complete, u as int));
                }
                order = longer;
            }
            prev_node = u;
            let ghost under = stack@;
            stack.push_back((u, parent));
            let ghost base = under.len() as int;
            proof {
                assert forall|j: int| 0 <= j < stack@.len() implies #[trigger] entry_ok(
                    stack@,
                    parents,
                    seen@,
                    complete,
                    root,
                    j,
                ) by {
                    if j < base {
                        assert(stack@[j] == under[j]);
                        assert(entry_ok(under, parents, visited, complete, root, j));
                        if under[j].1 != usize::MAX {
                            let i = choose|i: int| 0 <= i < j && (#[trigger] under[i]).0 == under[j].1;
                            assert(stack@[i] == under[i]);
                        }
                    } else {
                        if parent != usize::MAX {
                            let i = choose|i: int| 0 <= i < top && (#[trigger] waiting[i]).0 == parent;
                            assert(stack@[i] == waiting[i]);
                        }
                    }
                }
                assert forall|i: int, j: int| 0 <= i < j < stack@.len() implies (#[trigger] stack@[i]).0 != (
                #[trigger] stack@[j]).0 by {
                    assert(stack@[i] == under[i]);
                    if j < base {
                        assert(stack@[j] == under[j]);
                    }
                }
                // no child of `u` is on the stack or was visited
                assert forall|k: int, i: int|
                    0 <= k < children@[u as int]@.len() && 0 <= i <= base implies (#[trigger] stack@[i]).0 != (
                #[trigger] children@[u as int]@[k]) by {
                    let c = children@[u as int]@[k];
                    if i < base {
                        assert(stack@[i] == under[i]);
                        assert(entry_ok(under, parents, visited, complete, root, i));
                    }
                }
                assert forall|k: int| 0 <= k < children@[u as int]@.len() implies !seen@[(
                #[trigger] children@[u as int]@[k]) as int] by {
                    let c = children@[u as int]@[k] as int;
                    if visited[c] {
                        let i = choose|i: int| 0 <= i < len && #[trigger] order[i] == c;
                        let h = choose|h: int| 0 <= h < i && #[trigger] order[h] == parents[order[i] as int];
                        assert(visited[order[h] as int]);
                    }
                }
                assert forall|i: int| 0 <= i < order.len() && !complete[(#[trigger] order[i]) as int] implies exists|j: int|
                    0 <= j < stack@.len() && (#[trigger] stack@[j]).0 == order[i] by {
                    if i < len {
                        let j = choose|j: int| 0 <= j < waiting.len() && (#[trigger] waiting[j]).0 == order[i];
                        assert(visited[order[i] as int]);
                        assert(j != top);
                        assert(stack@[j] == waiting[j]);
                    } else {
                        assert(stack@[base].0 == u);
                    }
                }
            }
            let mut k = children[u].len();
            while k > 0
                invariant
                    parents == parents_of(hung.0),
                    kids_ok(children@, parents, root),
                    complete.len() == n,
                    forall|x: int| 0 <= x < n && #[trigger] complete[x] ==> seen@[x],
                    base == under.len(),
                    forall|i: int| 0 <= i <= base ==> #[trigger] stack@[i] == (if i < base {
                        under[i]
                    } else {
                        (u, parent)
                    }),
                    seen@[u as int],
                    !complete[u as int],
                    base < stack@.len(),
                    stack@[base] == (u, parent),
                    forall|j: int| 0 <= j < stack@.len() ==> #[trigger] entry_ok(stack@, parents, seen@, complete, root, j),
                    forall|i: int, j: int|
                        0 <= i < j < stack@.len() ==> (#[trigger] stack@[i]).0 != (#[trigger] stack@[j]).0,
                    forall|j: int|
                        base < j < stack@.len() ==> exists|l: int|
                            k <= l < children@[u as int]@.len() && (#[trigger] stack@[j]).0 == children@[u as int]@[l],
                    forall|l: int, i: int|
                        0 <= l < children@[u as int]@.len() && 0 <= i <= base ==> (#[trigger] stack@[i]).0 != (
                        #[trigger] children@[u as int]@[l]),
                    forall|l: int| 0 <= l < children@[u as int]@.len() ==> !seen@[(#[trigger] children@[u as int]@[l]) as int],
                    forall|i: int|
                        0 <= i < order.len() && !complete[(#[trigger] order[i]) as int] ==> exists|j: int|
                            0 <= j < stack@.len() && (#[trigger] stack@[j]).0 == order[i],
                    st.wf(),
                    st.same_graph(old(st)),
                    st.root == root,
                    st.excesses == old(st).excesses,
                    st.nodes@ == hung.0,
                    st.edges@ == hung.1,
                    n == st.num_nodes,
                    root < n,
                    u < n,
                    seen@.len() == n,
                    children@.len() == n,
                    k <= children@[u as int]@.len(),
                    names(prev_node, n),
                    forall|i: int| 0 <= i < stack@.len() ==> (#[trigger] stack@[i]).0 < n && names(stack@[i].1, n),
                    forall|x: int, j: int|
                        0 <= x < n && 0 <= j < (#[trigger] children@[x])@.len() ==> (#[trigger] children@[x]@[j]) < n,
                decreases k,
            {
                k -= 1;
                let child = children[u][k];
                proof {
                    assert(children@[u as int]@[k as int] < n);
                }
                let ghost before = stack@;
                stack.push_back((child, u));
                proof {
                    let m = before.len() as int;
                    assert forall|i: int| 0 <= i < stack@.len() implies (#[trigger] stack@[i]).0 < n && names(
                        stack@[i].1,
                        n,
                    ) by {
                        if i < before.len() {
                            assert(stack@[i] == before[i]);
                        }
                    }
                    assert forall|j: int| 0 <= j < stack@.len() implies #[trigger] entry_ok(
                        stack@,
                        parents,
                        seen@,
                        complete,
                        root,
                        j,
                    ) by {
                        if j < m {
                            assert(stack@[j] == before[j]);
                            assert(entry_ok(before, parents, seen@, complete, root, j));
                            if before[j].1 != usize::MAX {
                                let i = choose|i: int| 0 <= i < j && (#[trigger] before[i]).0 == before[j].1;
                                assert(stack@[i] == before[i]);
                            }
                        } else {
                            assert(stack@[j] == (child, u));
                            assert(stack@[base].0 == u);
                            assert(!seen@[child as int]);
                        }
                    }
                    assert forall|i: int| 0 <= i <= base implies #[trigger] stack@[i] == (if i < base {
                        under[i]
                    } else {
                        (u, parent)
                    }) by {
                        assert(stack@[i] == before[i]);
                    }
                    assert forall|i: int, j: int| 0 <= i < j < stack@.len() implies (#[trigger] stack@[i]).0 != (
                    #[trigger] stack@[j]).0 by {
                        assert(stack@[i] == before[i]);
                        if j < m {
                            assert(stack@[j] == before[j]);
                        } else if i > base {
                            let l = choose|l: int|
                                k < l < children@[u as int]@.len() && (#[trigger] before[i]).0 == children@[u as int]@[l];
                            assert(children@[u as int]@[k as int] < children@[u as int]@[l]);
                        }
                    }
                    assert forall|j: int| base < j < stack@.len() implies exists|l: int|
                        k <= l < children@[u as int]@.len() && (#[trigger] stack@[j]).0 == children@[u as int]@[l] by {
                        if j < m {
                            assert(stack@[j] == before[j]);
                            let l = choose|l: int|
                                k < l < children@[u as int]@.len() && (#[trigger] before[j]).0 == children@[u as int]@[l];
                            assert(stack@[j].0 == children@[u as int]@[l]);
                        } else {
                            assert(stack@[j].0 == children@[u as int]@[k as int]);
                        }
                    }
                    assert forall|l: int, i: int|
                        0 <= l < children@[u as int]@.len() && 0 <= i <= base implies (#[trigger] stack@[i]).0 != (
                    #[trigger] children@[u as int]@[l]) by {
                        assert(stack@[i] == before[i]);
                    }
                    assert forall|i: int| 0 <= i < order.len() && !complete[(#[trigger] order[i]) as int] implies exists|j: int|
                        0 <= j < stack@.len() && (#[trigger] stack@[j]).0 == order[i] by {
                        let j = choose|j: int| 0 <= j < before.len() && (#[trigger] before[j]).0 == order[i];
                        assert(stack@[j] == before[j]);
                    }
                }
            }
        }
    }
    let ghost counted = st.num_successors@;
    let ghost threaded = st.next_node_dft@;
    if prev_node != usize::MAX {
        st.next_node_dft[prev_node] = root;
    }
    proof {
        assert forall|i: int| 0 <= i < order.len() - 1 implies #[trigger] linked(st.next_node_dft@, order, i) by {
            assert(linked(threaded, order, i));
            assert(order[i] != order[order.len() - 1]);
        }
        assert(st.next_node_dft@[order[order.len() - 1] as int] == root);
    }
    let ghost thread = st.next_node_dft@;

    proof {
        assert forall|i: int| 0 <= i < order.len() implies complete[(#[trigger] order[i]) as int] by {
            if !complete[order[i] as int] {
                let j = choose|j: int| 0 <= j < stack@.len() && (#[trigger] stack@[j]).0 == order[i];
            }
        }
    }
    // determine potentials
    for u in 0..n
        invariant
            st.next_node_dft@ == thread,
            st.num_successors@ == counted,
            st.wf(),
            st.same_graph(old(st)),
            st.root == root,
            st.excesses == old(st).excesses,
            n == st.num_nodes,
            distances@.len() == n,
            hung.0.len() == n,
            st.edges@ == hung.1,
            forall|x: int|
                0 <= x < n ==> (#[trigger] st.nodes@[x]).parent == hung.0[x].parent && st.nodes@[x].parent_edge_id
                    == hung.0[x].parent_edge_id,
            forall|x: int| 0 <= x < u ==> (#[trigger] st.nodes@[x]).potential == crate::arith::clamp(-distances@[x]),
    {
        st.nodes[u].potential = sat_neg(distances[u]);
    }
    proof {
        lemma_thread_along(st, order, order.len());
        assert(st.comes_round(root, order.len()));
        if zero {
            let len = order.len();
            assert(parents_of(st.nodes@) =~= parents);
            assert forall|k: nat| k < len implies st.num_successors@[(#[trigger] st.thread_at(root, k)) as int] == 1
                + st.counts_below(root, len, st.thread_at(root, k) as int, k + 1) by {
                assert forall|j: nat| j < len implies #[trigger] st.thread_at(order[0], j) == order[j as int] by {
                    lemma_thread_along(st, order, j);
                }
                lemma_thread_along(st, order, k);
                let x = order[k as int] as int;
                assert(complete[x]);
                lemma_tallied_is_below(st, order, complete, x, k as int + 1);
                lemma_tallied_split(order, parents, st.num_successors@, complete, x, 0, k as int + 1, len as int);
                lemma_tallied_before(order, parents, st.num_successors@, complete, k as int, k as int + 1);
            }
            assert(st.counts_agree(root, len));
        }
    }
    proof {
        assert(st.edges@ =~= tree_edges(old(st), prev_edge_id@));
        assert(hangs_by(st, old(st), distances@, prev_edge_id@));
    }
    true
}

/// The marks after a walk along the thread from `now` on that marks every
/// node it comes to and passes over the part under `skip`, from `skip`
/// itself to its last descendant; the walk ends after `steps` nodes, where
/// the thread ends, or where it comes to the root.
pub open spec fn marked(st: &SpanningTreeStructure, marks: Seq<bool>, now: usize, skip: usize, steps: nat) -> Seq<
    bool,
>
    decreases steps,
{
    if steps == 0 || now >= st.num_nodes {
        marks
    } else {
        let here = marks.update(now as int, true);
        let next = st.next_node_dft@[now as int];
        let onward = if next == skip && next != usize::MAX {
            let last = st.last_descendent_dft@[next as int];
            if last == usize::MAX {
                st.root
            } else {
                st.next_node_dft@[last as int]
            }
        } else {
            next
        };
        if onward == st.root {
            here
        } else {
            marked(st, here, onward, skip, (steps - 1) as nat)
        }
    }
}

/// The nodes of the tree that do not lie below `t2_now_root`, marked.
pub open spec fn upper_tree(st: &SpanningTreeStructure, t2_now_root: usize) -> Seq<bool> {
    marked(st, Seq::new(st.num_nodes as nat, |u: int| false), st.root, t2_now_root, st.num_nodes as nat)
}

/// Marks the nodes of the tree that do not lie below `t2_now_root`: the
/// nodes that the thread from the root visits when it passes over the
/// subtree of `t2_now_root`.
pub(crate) fn mark_upper_tree(st: &SpanningTreeStructure, t2_now_root: usize) -> (is_t1_node: Vec<bool>)
    requires
        st.wf(),
    ensures
        is_t1_node@.len() == st.num_nodes,
        is_t1_node@ == upper_tree(st, t2_now_root),
{
    let n = st.num_nodes;
    let mut is_t1_node: Vec<bool> = vec![false; n];
    proof {
        assert(is_t1_node@ =~= Seq::new(n as nat, |u: int| false));
    }
    let mut now = st.root;
    let mut steps: usize = 0;
    while now != usize::MAX && steps < n
        invariant_except_break
            marked(st, is_t1_node@, now, t2_now_root, (n - steps) as nat) == upper_tree(st, t2_now_root),
        invariant
            st.wf(),
            n == st.num_nodes,
            is_t1_node@.len() == n,
            names(now, n),
            steps <= n,
        ensures
            is_t1_node@.len() == n,
            is_t1_node@ == upper_tree(st, t2_now_root),
        decreases n - steps,
    {
        let ghost before = is_t1_node@;
        let ghost here = now;
        proof {
            assert(marked(st, before, here, t2_now_root, (n - steps) as nat) == upper_tree(st, t2_now_root));
        }
        steps += 1;
        is_t1_node[now] = true;
        now = st.next_node_dft[now];
        if now == t2_now_root && now != usize::MAX {
            let last = st.last_descendent_dft[now];
            if last == usize::MAX {
                break;
            }
            now = st.next_node_dft[last];
        }
        if now == st.root {
            break;
        }
    }
    is_t1_node
}

/// Edge `edge` leads at its lower bound from a marked node to one that is
/// not, or at its upper bound from one that is not marked to a marked one.
pub open spec fn leads_down(marks: Seq<bool>, edge: InternalEdge) -> bool {
    (marks[edge.from as int] && !marks[edge.to as int] && edge.flow <= 0) || (!marks[edge.from as int]
        && marks[edge.to as int] && edge.flow >= edge.upper)
}

/// What it costs to let edge `edge` enter: its reduced cost at the lower
/// bound, the negated reduced cost else.
pub open spec fn entry_price(st: &SpanningTreeStructure, edge: InternalEdge) -> int {
    if edge.state == EdgeState::Lower {
        st.reduced(edge)
    } else {
        crate::arith::clamp(-st.reduced(edge))
    }
}

impl DualNetworkSimplex {
    /// Edge `e` may take the place of edge `leaving` in the tree: it is
    /// outside the tree, has capacity, joins the part under `t2_now_root`
    /// to the rest, and leads the other way than `leaving` does.
    pub open spec fn may_enter(&self, leaving: int, t2_now_root: usize, e: int) -> bool {
        let marks = upper_tree(&self.st, t2_now_root);
        let edge = self.st.edges@[e];
        &&& edge.state != EdgeState::Tree
        &&& edge.upper != 0
        &&& marks[edge.from as int] != marks[edge.to as int]
        &&& leads_down(marks, self.st.edges@[leaving]) != leads_down(marks, edge)
    }

    /// The end of edge `e` that becomes the root of the part under
    /// `t2_now_root` when `e` enters the tree.
    pub open spec fn lower_end(&self, t2_now_root: usize, e: int) -> usize {
        let edge = self.st.edges@[e];
        let down = leads_down(upper_tree(&self.st, t2_now_root), edge);
        if (down && edge.state == EdgeState::Lower) || (!down && edge.state == EdgeState::Upper) {
            edge.to
        } else {
            edge.from
        }
    }

    /// Solves the problem that `graph` states, with `pivot` to select
    /// the leaving edges, and stores flows and excesses in `graph`.
    pub fn solve<Pivot: PivotRule>(&mut self, pivot: &mut Pivot, graph: &mut Graph) -> (status: Status)
        requires
            old(graph).solvable(),
            old(pivot).wf(),
        ensures
            final(graph).solved(old(graph), status),
            final(pivot).wf(),
    {
        if graph.is_unbalance() {
            return Status::Unbalanced;
        }
        let (source, sink, artificial_nodes, artificial_edges) = graph.construct_extend_network_one_supply_one_demand();
        let ghost extended = *graph;
        self.st.build(graph);
        self.st.root = source;
        self.sink = sink;

        if self.make_initial_spanning_tree_structure() {
            self.run(pivot);
        }

        copy_flows(&self.st, graph);
        let ghost solved = *graph;
        proof {
            solved.lemma_prefix_endpoints(&extended, old(graph));
        }
        graph.remove_artificial_sub_graph(artificial_nodes.as_slice(), artificial_edges.as_slice());
        proof {
            crate::minimum_cost_flow::feasibility::lemma_extension_shed(graph, &solved, &extended, old(graph));
        }
        let potentials = potentials_of(&self.st);
        certify(graph, &potentials)
    }

    /// Lets tree edges whose flow is out of bounds leave the tree for as
    /// long as `pivot` selects one and an edge can enter in its place.
    /// Says whether it ended because `pivot` found no edge any more.
    fn run<Pivot: PivotRule>(&mut self, pivot: &mut Pivot) -> (calm: Ghost<bool>)
        requires
            old(self).st.wf(),
            old(pivot).wf(),
        ensures
            final(self).st.wf(),
            final(self).st.same_graph(&old(self).st),
            final(self).sink == old(self).sink,
            final(pivot).wf(),
            calm@ ==> forall|e: int|
                0 <= e < final(self).st.num_edges ==> !violates(Self::calculate_violation, &final(self).st, e),
    {
        let mut budget: usize = usize::MAX;
        let mut pivoting = true;
        let ghost mut calm = false;
        while pivoting && budget > 0
            invariant
                self.st.wf(),
                self.st.same_graph(&old(self).st),
                self.sink == old(self).sink,
                pivot.wf(),
                calm ==> !pivoting && forall|e: int|
                    0 <= e < self.st.num_edges ==> !violates(Self::calculate_violation, &self.st, e),
            decreases budget, pivoting as int,
        {
            budget -= 1;
            proof {
                Self::lemma_answers(&self.st);
            }
            match pivot.find_entering_edge(&self.st, Self::calculate_violation) {
                Some(leaving_edge_id) => {
                    let leaving_edge = self.st.edges[leaving_edge_id];
                    let t2_now_root = if self.st.nodes[leaving_edge.from].parent == leaving_edge.to {
                        leaving_edge.from
                    } else {
                        leaving_edge.to
                    };
                    match self.select_entering_edge_id(leaving_edge_id, t2_now_root) {
                        Some((entering_edge_id, t2_new_root)) => {
                            let delta = Self::calculate_violation(&self.st.edges[leaving_edge_id], &self.st);
                            let apex = self.find_apex(entering_edge_id);

                            // update flow
                            self.st.update_flow_in_cycle(entering_edge_id, delta, apex);
                            self.dual_pivot(leaving_edge_id, entering_edge_id, t2_now_root, t2_new_root);
                        },
                        None => {
                            pivoting = false;
                        },
                    }
                },
                None => {
                    pivoting = false;
                    proof {
                        calm = true;
                    }
                },
            }
        }
        Ghost(calm)
    }

    /// What `calculate_violation` finds for `edge`.
    pub open spec fn violation(edge: InternalEdge) -> int {
        if edge.flow < 0 {
            crate::arith::clamp(-edge.flow)
        } else if edge.flow > edge.upper {
            crate::arith::clamp(edge.flow - edge.upper)
        } else {
            0
        }
    }

    /// By how much the flow of `edge` is out of bounds.
    fn calculate_violation(edge: &InternalEdge, _st: &SpanningTreeStructure) -> (violation: i64)
        ensures
            violation == Self::violation(*edge),
    {
        if edge.flow < 0 {
            sat_neg(edge.flow)
        } else if edge.flow > edge.upper {
            sat_sub(edge.flow, edge.upper)
        } else {
            0
        }
    }

    /// `calculate_violation` may be asked about every edge, and gives one
    /// answer for each.
    proof fn lemma_answers(st: &SpanningTreeStructure)
        ensures
            answers(Self::calculate_violation, st),
    {
    }

    /// Makes the shortest paths from the source the spanning tree, with
    /// all other edges at their lower bound, and ships the excess of the
    /// source along the tree to the sink. Says whether the sink is in the
    /// tree.
    fn make_initial_spanning_tree_structure(&mut self) -> (reached: bool)
        requires
            old(self).st.wf(),
            old(self).st.root < old(self).st.num_nodes,
            old(self).sink < old(self).st.num_nodes,
        ensures
            final(self).st.wf(),
            final(self).st.same_graph(&old(self).st),
            final(self).st.root == old(self).st.root,
            final(self).sink == old(self).sink,
            !reached ==> final(self).st == old(self).st,
            exists|distances: Seq<i64>, prev: Seq<Option<usize>>|
                {
                    &&& #[trigger] is_search_result(&old(self).st, old(self).st.root as int, distances, prev)
                    &&& reached == prev[old(self).sink as int].is_some()
                    &&& reached ==> shipped(
                        &final(self).st,
                        &old(self).st,
                        old(self).sink,
                        tree_edges(&old(self).st, prev),
                    )
                },
            reached && (forall|x: int| 0 <= x < old(self).st.num_nodes ==> #[trigger] old(self).st.num_successors@[x] == 0)
                ==> exists|len: nat| #[trigger]
                final(self).st.comes_round(final(self).st.root, len) && final(self).st.counts_agree(
                    final(self).st.root,
                    len,
                ),
    {
        if !grow_shortest_path_tree(&mut self.st, self.sink) {
            // there is no s-t path
            return false;
        }
        let ghost (distances, prev) = choose|distances: Seq<i64>, prev: Seq<Option<usize>>|
            #[trigger] is_search_result(&old(self).st, old(self).st.root as int, distances, prev)
                && prev[old(self).sink as int].is_some() && hangs_by(&self.st, &old(self).st, distances, prev);
        // send flow from source to sink
        let root = self.st.root;
        let supply = self.st.excesses[root];
        let ghost grown = self.st;
        self.st.update_flow_in_path(root, self.sink, supply);
        proof {
            if forall|x: int| 0 <= x < old(self).st.num_nodes ==> #[trigger] old(self).st.num_successors@[x] == 0 {
                let len = choose|len: nat| #[trigger] grown.comes_round(grown.root, len) && grown.counts_agree(grown.root, len);
                crate::minimum_cost_flow::threading::lemma_round_same(&grown, &self.st, root, len);
            }
        }
        proof {
            assert(shipped(&self.st, &old(self).st, old(self).sink, tree_edges(&old(self).st, prev)));
            assert(is_search_result(&old(self).st, old(self).st.root as int, distances, prev));
        }
        true
    }

    /// Selects, among the edges outside the tree that cross between the
    /// two parts into which the leaving edge splits the tree, in the
    /// direction that brings the flow of the leaving edge back within its
    /// bounds, one of least reduced cost. Returns it with the node that
    /// becomes the root of the part that was cut off.
    fn select_entering_edge_id(&self, leaving_edge_id: usize, t2_now_root: usize) -> (found: Option<(usize, usize)>)
        requires
            self.st.wf(),
            leaving_edge_id < self.st.num_edges,
        ensures
            found.is_none() <==> forall|e: int|
                0 <= e < self.st.num_edges ==> !self.may_enter(leaving_edge_id as int, t2_now_root, e),
            found matches Some((entering, t2_new_root)) ==> {
                &&& entering < self.st.num_edges
                &&& self.may_enter(leaving_edge_id as int, t2_now_root, entering as int)
                &&& t2_new_root == self.lower_end(t2_now_root, entering as int)
                &&& (t2_new_root == self.st.edges@[entering as int].from || t2_new_root
                    == self.st.edges@[entering as int].to)
                &&& forall|e: int|
                    0 <= e < self.st.num_edges && self.may_enter(leaving_edge_id as int, t2_now_root, e) ==> {
                        &&& entry_price(&self.st, self.st.edges@[entering as int]) <= entry_price(
                            &self.st,
                            #[trigger] self.st.edges@[e],
                        )
                        &&& e < entering ==> entry_price(&self.st, self.st.edges@[entering as int]) < entry_price(
                            &self.st,
                            self.st.edges@[e],
                        )
                    }
            },
    {
        let is_t1_node = mark_upper_tree(&self.st, t2_now_root);

        let leaving_edge = self.st.edges[leaving_edge_id];
        // (t1 -> t2 and lower) or (t2 -> t1 and upper)
        let leaving_edge_flow_direction = (is_t1_node[leaving_edge.from] && !is_t1_node[leaving_edge.to]
            && leaving_edge.flow <= 0) || (!is_t1_node[leaving_edge.from] && is_t1_node[leaving_edge.to]
            && leaving_edge.flow >= leaving_edge.upper);

        let mut entering_edge_id: Option<usize> = None;
        let mut t2_new_root: usize = usize::MAX;
        let mut mini_delta: i64 = 0;
        for edge_id in 0..self.st.num_edges
            invariant
                self.st.wf(),
                leaving_edge_id < self.st.num_edges,
                is_t1_node@ == upper_tree(&self.st, t2_now_root),
                is_t1_node@.len() == self.st.num_nodes,
                leaving_edge_flow_direction == leads_down(is_t1_node@, self.st.edges@[leaving_edge_id as int]),
                entering_edge_id.is_none() ==> forall|e: int|
                    0 <= e < edge_id ==> !self.may_enter(leaving_edge_id as int, t2_now_root, e),
                entering_edge_id matches Some(entering) ==> {
                    &&& entering < edge_id
                    &&& self.may_enter(leaving_edge_id as int, t2_now_root, entering as int)
                    &&& t2_new_root == self.lower_end(t2_now_root, entering as int)
                    &&& mini_delta == entry_price(&self.st, self.st.edges@[entering as int])
                    &&& forall|e: int|
                        0 <= e < edge_id && self.may_enter(leaving_edge_id as int, t2_now_root, e) ==> {
                            &&& mini_delta <= entry_price(&self.st, #[trigger] self.st.edges@[e])
                            &&& e < entering ==> mini_delta < entry_price(&self.st, self.st.edges@[e])
                        }
                },
        {
            let edge = self.st.edges[edge_id];
            let crossing = is_t1_node[edge.from] != is_t1_node[edge.to];
            if edge.state != EdgeState::Tree && edge.upper != 0 && crossing {
                let entering_edge_flow_direction = (is_t1_node[edge.from] && !is_t1_node[edge.to] && edge.flow <= 0)
                    || (!is_t1_node[edge.from] && is_t1_node[edge.to] && edge.flow >= edge.upper);
                if leaving_edge_flow_direction != entering_edge_flow_direction {
                    let reduced_cost = if edge.state == EdgeState::Lower {
                        self.st.reduced_cost(&edge)
                    } else {
                        sat_neg(self.st.reduced_cost(&edge))
                    };
                    if reduced_cost < mini_delta || entering_edge_id.is_none() {
                        mini_delta = reduced_cost;
                        entering_edge_id = Some(edge_id);
                        t2_new_root = if (entering_edge_flow_direction && edge.state == EdgeState::Lower) || (
                        !entering_edge_flow_direction && edge.state == EdgeState::Upper) {
                            edge.to
                        } else {
                            edge.from
                        };
                    }
                }
            }
        }
        match entering_edge_id {
            Some(entering) => Some((entering, t2_new_root)),
            None => None,
        }
    }

    /// Exchanges the leaving edge for the entering edge in the tree; or
    /// moves the entering edge to its other bound, where it is its own
    /// leaving edge.
    fn dual_pivot(&mut self, leaving_edge_id: usize, entering_edge_id: usize, t2_now_root: usize, t2_new_root: usize)
        requires
            old(self).st.wf(),
            leaving_edge_id < old(self).st.num_edges,
            entering_edge_id < old(self).st.num_edges,
            t2_now_root < old(self).st.num_nodes,
            t2_new_root == old(self).st.edges@[entering_edge_id as int].from || t2_new_root == old(self).st.edges@[entering_edge_id as int].to,
        ensures
            final(self).st.wf(),
            final(self).st.same_graph(&old(self).st),
            final(self).sink == old(self).sink,
            final(self).st.excesses == old(self).st.excesses,
            final(self).st.edges@ == (if leaving_edge_id == entering_edge_id {
                flipped(old(self).st.edges@, entering_edge_id as int)
            } else if old(self).st.root == usize::MAX {
                old(self).st.edges@
            } else {
                exchanged(old(self).st.edges@, leaving_edge_id as int, entering_edge_id as int)
            }),
            leaving_edge_id == entering_edge_id || old(self).st.root == usize::MAX ==> final(self).st.shape()
                == old(self).st.shape() && final(self).st.root == old(self).st.root,
            final(self).st.root == old(self).st.root || final(self).st.root == t2_now_root,
    {
        if leaving_edge_id == entering_edge_id {
            let state = self.st.edges[entering_edge_id].state;
            self.st.edges[entering_edge_id].state = match state {
                EdgeState::Upper => EdgeState::Lower,
                EdgeState::Lower => EdgeState::Upper,
                EdgeState::Tree => EdgeState::Tree,
            };
            return;
        }
        let root = self.st.root;
        if root == usize::MAX {
            return;
        }

        // drop leaving edge and detach tree
        self.st.detach_tree(root, t2_now_root, leaving_edge_id);

        // if the size of subtree t2 is larger than that of subtree t1, swap t1 and t2.
        let other_side = self.st.edges[entering_edge_id].opposite_side(t2_new_root);
        let (t1_new_root, t2_new_root, t2_now_root, new_attach_node) = if self.st.num_successors[t2_now_root]
            >= (self.st.num_nodes + 1) / 2 {
            (t2_now_root, other_side, root, t2_new_root)
        } else {
            (root, t2_new_root, t2_now_root, other_side)
        };

        // enter entering edge and attach tree
        self.st.re_rooting(t2_now_root, t2_new_root, entering_edge_id);
        self.st.attach_tree(t1_new_root, new_attach_node, t2_new_root, entering_edge_id);
        self.st.root = t1_new_root;
        self.st.nodes[t1_new_root].parent = usize::MAX;
    }

    /// The apex of the cycle that the entering edge closes: the node at
    /// which the tree paths from its two endpoints up to the root meet.
    fn find_apex(&self, entering_edge_id: usize) -> (apex: usize)
        requires
            self.st.wf(),
            entering_edge_id < self.st.num_edges,
        ensures
            apex < self.st.num_nodes,
            apex == meeting(
                &self.st,
                self.st.edges@[entering_edge_id as int].from,
                self.st.edges@[entering_edge_id as int].to,
                self.st.num_nodes as nat,
            ),
    {
        let n = self.st.num_nodes;
        let entering_edge = &self.st.edges[entering_edge_id];
        let mut u = entering_edge.from;
        let mut v = entering_edge.to;
        let mut steps: usize = 0;
        while u != v && steps < n
            invariant_except_break
                meeting(&self.st, u, v, (n - steps) as nat) == meeting(
                    &self.st,
                    self.st.edges@[entering_edge_id as int].from,
                    self.st.edges@[entering_edge_id as int].to,
                    n as nat,
                ),
            invariant
                self.st.wf(),
                n == self.st.num_nodes,
                entering_edge_id < self.st.num_edges,
                u < n,
                v < n,
                steps <= n,
            ensures
                u < n,
                u == meeting(
                    &self.st,
                    self.st.edges@[entering_edge_id as int].from,
                    self.st.edges@[entering_edge_id as int].to,
                    n as nat,
                ),
            decreases n - steps,
        {
            steps += 1;
            let u_num = self.st.num_successors[u];
            let v_num = self.st.num_successors[v];
            if u_num <= v_num {
                let parent = self.st.nodes[u].parent;
                if parent == usize::MAX {
                    break;
                }
                u = parent;
            }
            if v_num <= u_num {
                let parent = self.st.nodes[v].parent;
                if parent == usize::MAX {
                    break;
                }
                v = parent;
            }
        }
        u
    }
}

/// The node at which two walks up the tree meet that begin at `u` and at
/// `v` and go on in turn, the one from the node with fewer successors and
/// both where the counts are equal; or where the walk from `u` stands
/// when a parent is missing or `steps` steps are done.
pub open spec fn meeting(st: &SpanningTreeStructure, u: usize, v: usize, steps: nat) -> usize
    decreases steps,
{
    if u == v || steps == 0 {
        u
    } else {
        let u_num = st.num_successors@[u as int];
        let v_num = st.num_successors@[v as int];
        let above_u = st.nodes@[u as int].parent;
        let above_v = st.nodes@[v as int].parent;
        if u_num <= v_num && above_u == usize::MAX {
            u
        } else {
            let next_u = if u_num <= v_num {
                above_u
            } else {
                u
            };
            if v_num <= u_num && above_v == usize::MAX {
                next_u
            } else {
                meeting(
                    st,
                    next_u,
                    if v_num <= u_num {
                        above_v
                    } else {
                        v
                    },
                    (steps - 1) as nat,
                )
            }
        }
    }
}

/// Node `i + 1` of `order` stands behind node `i` on the thread.
pub open spec fn linked(next: Seq<usize>, order: Seq<usize>, i: int) -> bool {
    next[order[i] as int] == order[i + 1]
}

/// A thread that leads along the nodes of `order`, which are all other
/// nodes than the first from the second on, and from the last of them
/// back to the first, passes these nodes in turn and comes round.
pub proof fn lemma_thread_along(st: &SpanningTreeStructure, order: Seq<usize>, k: nat)
    requires
        st.wf(),
        0 < order.len() <= st.num_nodes,
        k <= order.len(),
        forall|i: int| 0 <= i < order.len() ==> (#[trigger] order[i]) < st.num_nodes,
        forall|i: int| 0 <= i < order.len() - 1 ==> #[trigger] linked(st.next_node_dft@, order, i),
        forall|i: int, j: int| 0 <= i < j < order.len() ==> #[trigger] order[i] != #[trigger] order[j],
        st.next_node_dft@[order[order.len() - 1] as int] == order[0],
    ensures
        k < order.len() ==> st.thread_at(order[0], k) == order[k as int],
        k == order.len() ==> st.thread_at(order[0], k) == order[0],
        k == order.len() ==> st.comes_round(order[0], k),
    decreases k,
{
    if k > 0 {
        lemma_thread_along(st, order, (k - 1) as nat);
        assert(linked(st.next_node_dft@, order, k - 1) || k == order.len());
        if k == order.len() {
            assert forall|j: nat| 0 < j < k implies (#[trigger] st.thread_at(order[0], j)) < st.num_nodes && st.thread_at(
                order[0],
                j,
            ) != order[0] by {
                lemma_thread_along(st, order, j);
                assert(order[j as int] != order[0]);
            }
        }
    }
}

} // verus!
