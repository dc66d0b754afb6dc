use crate::counting::{lemma_occurrences_overwrite, occurrences};
use crate::maximum_flow::cut::{
    has_augmenting_path, is_maximum_flow, is_reachable, is_residual_path, lemma_residual_path_extends,
    lemma_residual_path_stays, residual_step,
};
use std::collections::VecDeque;
use crate::network::{same_network, capacity_sum, lemma_capacity_sum_prefix, lemma_net_out_bounded, net_out, within_bounds, Link};
use vstd::prelude::*;

verus! {

/// A directed edge of a maximum-flow problem, with the flow it carries.
#[derive(PartialEq, Eq, Structural, Debug, Clone, Copy)]
pub struct Edge {
    pub from: usize,
    pub to: usize,
    pub flow: i64,
    pub upper: i64,
}

impl Edge {
    /// The edge as a link of the mathematical network.
    pub open spec fn link(self) -> Link {
        Link { from: self.from as int, to: self.to as int, flow: self.flow as int, lower: 0, upper: self.upper as int, cost: 0 }
    }
}

/// The network that a sequence of edges stands for.
pub open spec fn links_of(edges: Seq<Edge>) -> Seq<Link> {
    Seq::new(edges.len(), |i: int| edges[i].link())
}

/// Builder and result holder of a maximum-flow problem.
pub struct Graph {
    pub num_nodes: usize,
    pub num_edges: usize,
    pub edges: Vec<Edge>,
    pub excesses: Vec<i64>,
}

impl Default for Graph {
    fn default() -> (graph: Self)
        ensures
            graph.wf(),
            graph.node_count() == 0,
            graph.links() == Seq::<Link>::empty(),
    {
        let graph = Graph { num_nodes: 0, num_edges: 0, edges: Vec::new(), excesses: Vec::new() };
        assert(graph.links() =~= Seq::<Link>::empty());
        graph
    }
}

impl Graph {
    /// The counters agree with the stored vectors and every edge joins two nodes.
    pub open spec fn wf(&self) -> bool {
        &&& self.num_nodes == self.excesses.len()
        &&& self.num_edges == self.edges.len()
        &&& forall|i: int| 0 <= i < self.edges.len() ==> (#[trigger] self.edges[i]).from < self.num_nodes && self.edges[i].to < self.num_nodes
    }

    /// Number of nodes.
    pub open spec fn node_count(&self) -> nat {
        self.num_nodes as nat
    }

    /// The edges in the order in which they were added.
    pub open spec fn view(&self) -> Seq<Edge> {
        self.edges@
    }

    /// The network of this graph.
    pub open spec fn links(&self) -> Seq<Link> {
        links_of(self@)
    }

    #[inline]
    pub fn num_nodes(&self) -> (n: usize)
        ensures
            n == self.node_count(),
    {
        self.num_nodes
    }

    #[inline]
    pub fn num_edges(&self) -> (m: usize)
        requires
            self.wf(),
        ensures
            m == self@.len(),
    {
        self.num_edges
    }

    /// Adds one node and returns its index.
    pub fn add_node(&mut self) -> (index: usize)
        requires
            old(self).wf(),
            old(self).node_count() < usize::MAX,
        ensures
            final(self).wf(),
            index == old(self).node_count(),
            final(self).node_count() == old(self).node_count() + 1,
            final(self)@ == old(self)@,
            final(self).excesses@ == old(self).excesses@.push(0),
    {
        self.excesses.push(0);
        self.num_nodes += 1;
        self.num_nodes - 1
    }

    /// Adds `num_nodes` nodes and returns their indices in increasing order.
    pub fn add_nodes(&mut self, num_nodes: usize) -> (indices: Vec<usize>)
        requires
            old(self).wf(),
            old(self).node_count() + num_nodes <= usize::MAX,
        ensures
            final(self).wf(),
            final(self).node_count() == old(self).node_count() + num_nodes,
            final(self)@ == old(self)@,
            final(self).excesses@ == old(self).excesses@ + Seq::new(num_nodes as nat, |i: int| 0i64),
            indices@.len() == num_nodes,
            forall|i: int| 0 <= i < num_nodes ==> indices@[i] == old(self).node_count() + i,
    {
        let first = self.num_nodes;
        let mut indices: Vec<usize> = Vec::new();
        let mut added: usize = 0;
        proof {
            assert(self.excesses@ =~= old(self).excesses@ + Seq::new(0nat, |i: int| 0i64));
        }
        while added < num_nodes
            invariant
                self.excesses@ == old(self).excesses@ + Seq::new(added as nat, |i: int| 0i64),
                added <= num_nodes,
                first + num_nodes <= usize::MAX,
                first == old(self).num_nodes,
                self.num_nodes == first + added,
                self.excesses.len() == self.num_nodes,
                self.num_edges == old(self).num_edges,
                self.edges == old(self).edges,
                old(self).wf(),
                indices@.len() == added,
                forall|i: int| 0 <= i < added ==> indices@[i] == first + i,
            decreases num_nodes - added,
        {
            self.excesses.push(0);
            indices.push(self.num_nodes);
            self.num_nodes += 1;
            added += 1;
            proof {
                assert(self.excesses@ =~= old(self).excesses@ + Seq::new(added as nat, |i: int| 0i64));
            }
        }
        indices
    }

    /// Adds the edge `from -> to` with capacity `upper` and returns its index,
    /// or refuses it when an endpoint is not a node of the graph.
    pub fn add_directed_edge(&mut self, from: usize, to: usize, upper: i64) -> (edge_id: Option<usize>)
        requires
            old(self).wf(),
            old(self)@.len() < usize::MAX,
        ensures
            final(self).wf(),
            final(self).node_count() == old(self).node_count(),
            from < old(self).node_count() && to < old(self).node_count() ==> edge_id == Some(
                old(self)@.len() as usize,
            ) && final(self)@ == old(self)@.push(Edge { from, to, flow: 0, upper }),
            !(from < old(self).node_count() && to < old(self).node_count()) ==> edge_id.is_none()
                && *final(self) == *old(self),
    {
        if from >= self.num_nodes || to >= self.num_nodes {
            return None;
        }
        self.edges.push(Edge { from, to, flow: 0, upper });
        self.num_edges += 1;
        Some(self.num_edges - 1)
    }

    /// The edge with index `edge_id`, if there is one.
    pub fn get_edge(&self, edge_id: usize) -> (edge: Option<Edge>)
        ensures
            edge_id < self@.len() ==> edge == Some(self@[edge_id as int]),
            edge_id >= self@.len() ==> edge.is_none(),
    {
        if edge_id >= self.edges.len() {
            return None;
        }
        let edge = &self.edges[edge_id];
        Some(Edge { from: edge.from, to: edge.to, flow: edge.flow, upper: edge.upper })
    }

    /// The graph states a maximum-flow problem that the solvers accept: two
    /// distinct nodes, capacities that are not negative, and sizes and a
    /// total capacity that the machine integers can hold.
    pub open spec fn solvable(&self, source: usize, sink: usize) -> bool {
        &&& self.wf()
        &&& source < self.node_count()
        &&& sink < self.node_count()
        &&& source != sink
        &&& self.node_count() < usize::MAX
        &&& 2 * self@.len() <= usize::MAX
        &&& forall|e: int| 0 <= e < self@.len() ==> 0 <= (#[trigger] self@[e]).upper
        &&& capacity_sum(self.links()) <= i64::MAX
    }

    /// The graph is `before` with a maximum flow from `source` to `sink` on
    /// its edges: capacities are respected, every other node is in balance,
    /// no augmenting path is left and no flow on this network has a greater value.
    pub open spec fn solves(&self, before: &Graph, source: usize, sink: usize) -> bool {
        &&& self.wf()
        &&& self.node_count() == before.node_count()
        &&& same_network(self.links(), before.links())
        &&& is_maximum_flow(self.links(), self.node_count() as int, source as int, sink as int)
        &&& !has_augmenting_path(self.links(), source as int, sink as int)
    }

    /// The flows fit the capacities and the capacities can be summed in an `i64`.
    pub open spec fn summable(&self) -> bool {
        &&& forall|i: int| 0 <= i < self@.len() ==> 0 <= (#[trigger] self@[i]).flow <= self@[i].upper
        &&& capacity_sum(self.links()) <= i64::MAX
    }

    /// Net flow that leaves `source`: the flow on the edges out of it minus the
    /// flow on the edges into it.
    pub fn maximum_flow(&self, source: usize) -> (flow: i64)
        requires
            self.wf(),
            self.summable(),
        ensures
            flow == net_out(self.links(), source as int),
    {
        let ghost links = self.links();
        let mut flow: i64 = 0;
        let mut edge_index: usize = 0;
        proof {
            assert(links.take(0) =~= Seq::<Link>::empty());
        }
        while edge_index < self.num_edges
            invariant
                self.wf(),
                self.summable(),
                links == self.links(),
                edge_index <= self.num_edges,
                flow == net_out(links.take(edge_index as int), source as int),
            decreases self.num_edges - edge_index,
        {
            let edge = &self.edges[edge_index];
            proof {
                let next = links.take(edge_index + 1);
                assert(next.drop_last() =~= links.take(edge_index as int));
                assert(next.last() == self@[edge_index as int].link());
                assert forall|i: int| 0 <= i < next.len() implies 0 <= (#[trigger] next[i]).flow
                    <= next[i].upper by {
                    assert(next[i] == self@[i].link());
                }
                lemma_net_out_bounded(next, source as int);
                assert forall|i: int| 0 <= i < links.len() implies 0 <= (#[trigger] links[i]).upper by {
                    assert(links[i] == self@[i].link());
                }
                lemma_capacity_sum_prefix(links, edge_index + 1);
            }
            if edge.from == source {
                if edge.to != source {
                    flow += edge.flow;
                }
            } else if edge.to == source {
                flow -= edge.flow;
            }
            edge_index += 1;
        }
        proof {
            assert(links.take(edge_index as int) =~= links);
        }
        flow
    }

    /// The source side of a minimum cut once the flow is a maximum flow:
    /// the nodes that `source` reaches along edges that are not full and
    /// backwards along edges that carry flow, `source` first and then in
    /// the order in which a breadth-first search finds them.
    pub fn minimum_cut(&self, source: usize) -> (cut: Vec<usize>)
        requires
            self.wf(),
            source < self.node_count(),
        ensures
            cut@.len() >= 1,
            cut@[0] == source,
            forall|i: int, j: int| 0 <= i < j < cut@.len() ==> cut@[i] != cut@[j],
            forall|v: int|
                is_reachable(self.links(), source as int, v) <==> exists|i: int|
                    0 <= i < cut@.len() && #[trigger] cut@[i] == v,
    {
        let n = self.num_nodes;
        let m = self.num_edges;
        let ghost links = self.links();
        let mut cut: Vec<usize> = Vec::new();
        let mut visited: Vec<bool> = vec![false; n];
        let mut que: VecDeque<usize> = VecDeque::new();
        que.push_back(source);
        visited[source] = true;
        cut.push(source);
        let ghost mut done: int = 0;
        proof {
            let start = seq![source as int];
            assert(is_residual_path(links, start));
            assert(start[0] == source && start.last() == source);
            assert(que@[0] == source);
        }
        while que.len() > 0
            invariant
                self.wf(),
                links == self.links(),
                n == self.num_nodes,
                m == self.num_edges,
                source < n,
                visited@.len() == n,
                visited@[source as int],
                cut@.len() >= 1,
                cut@[0] == source,
                0 <= done <= cut@.len(),
                que@.len() == cut@.len() - done,
                forall|i: int| 0 <= i < que@.len() ==> #[trigger] que@[i] == cut@[done + i],
                forall|i: int| 0 <= i < cut@.len() ==> #[trigger] cut@[i] < n && visited@[cut@[i] as int],
                forall|i: int, j: int| 0 <= i < j < cut@.len() ==> cut@[i] != cut@[j],
                forall|v: int|
                    0 <= v < n && #[trigger] visited@[v] ==> is_reachable(links, source as int, v) && exists|i: int|
                        0 <= i < cut@.len() && #[trigger] cut@[i] == v,
                forall|i: int, v: int|
                    0 <= i < done && #[trigger] residual_step(links, cut@[i] as int, v) ==> 0 <= v < n && visited@[v],
            decreases occurrences(visited@, false), que@.len(),
        {
            let ghost waiting = que@;
            let ghost unvisited = occurrences(visited@, false);
            let u = que.pop_front().unwrap();
            proof {
                assert(waiting[0] == cut@[done]);
                assert forall|i: int| 0 <= i < que@.len() implies #[trigger] que@[i] == cut@[done + 1 + i] by {
                    assert(que@[i] == waiting[i + 1]);
                }
            }
            for edge_id in 0..m
                invariant
                    self.wf(),
                    links == self.links(),
                    n == self.num_nodes,
                    m == self.num_edges,
                    source < n,
                    u < n,
                    u == cut@[done],
                    visited@.len() == n,
                    visited@[source as int],
                    visited@[u as int],
                    cut@.len() >= 1,
                    cut@[0] == source,
                    0 <= done < cut@.len(),
                    que@.len() == cut@.len() - done - 1,
                    forall|i: int| 0 <= i < que@.len() ==> #[trigger] que@[i] == cut@[done + 1 + i],
                    forall|i: int| 0 <= i < cut@.len() ==> #[trigger] cut@[i] < n && visited@[cut@[i] as int],
                    forall|i: int, j: int| 0 <= i < j < cut@.len() ==> cut@[i] != cut@[j],
                    forall|v: int|
                        0 <= v < n && #[trigger] visited@[v] ==> is_reachable(links, source as int, v) && exists|
                            i: int,
                        | 0 <= i < cut@.len() && #[trigger] cut@[i] == v,
                    forall|i: int, v: int|
                        0 <= i < done && #[trigger] residual_step(links, cut@[i] as int, v) ==> 0 <= v < n
                            && visited@[v],
                    forall|e: int|
                        0 <= e < edge_id ==> ((#[trigger] links[e]).from == u && links[e].flow < links[e].upper
                            ==> visited@[links[e].to]) && (links[e].to == u && links[e].flow > 0
                            ==> visited@[links[e].from]),
                    occurrences(visited@, false) < unvisited || (occurrences(visited@, false) == unvisited
                        && que@.len() == waiting.len() - 1),
            {
                let edge = &self.edges[edge_id];
                proof {
                    assert(links[edge_id as int] == self@[edge_id as int].link());
                }
                let next = if edge.from == u && edge.flow < edge.upper && !visited[edge.to] {
                    Some(edge.to)
                } else if edge.to == u && edge.flow > 0 && !visited[edge.from] {
                    Some(edge.from)
                } else {
                    None
                };
                if let Some(v) = next {
                    let ghost seen = visited@;
                    let ghost listed = cut@;
                    let ghost queued = que@;
                    proof {
                        lemma_occurrences_overwrite(seen, v as int, false, true);
                        assert(residual_step(links, u as int, v as int));
                        let path = choose|path: Seq<int>|
                            #[trigger] is_residual_path(links, path) && path[0] == source && path.last() == u;
                        lemma_residual_path_extends(links, path, v as int);
                    }
                    visited[v] = true;
                    que.push_back(v);
                    cut.push(v);
                    proof {
                        assert(cut@[listed.len() as int] == v);
                        assert forall|i: int| 0 <= i < que@.len() implies #[trigger] que@[i] == cut@[done + 1 + i] by {
                            if i < queued.len() {
                                assert(que@[i] == queued[i]);
                                assert(cut@[done + 1 + i] == listed[done + 1 + i]);
                            }
                        }
                        assert forall|i: int| 0 <= i < cut@.len() implies #[trigger] cut@[i] < n && visited@[cut@[i] as int] by {
                            if i < listed.len() {
                                assert(cut@[i] == listed[i]);
                            }
                        }
                        assert forall|i: int, j: int| 0 <= i < j < cut@.len() implies cut@[i] != cut@[j] by {
                            if j < listed.len() {
                                assert(cut@[i] == listed[i] && cut@[j] == listed[j]);
                            } else {
                                assert(cut@[i] == listed[i]);
                                assert(seen[listed[i] as int]);
                            }
                        }
                        assert forall|w: int| 0 <= w < n && #[trigger] visited@[w] implies is_reachable(
                            links,
                            source as int,
                            w,
                        ) && exists|i: int| 0 <= i < cut@.len() && #[trigger] cut@[i] == w by {
                            if w != v {
                                assert(seen[w]);
                                let i = choose|i: int| 0 <= i < listed.len() && #[trigger] listed[i] == w;
                                assert(cut@[i] == w);
                            }
                        }
                        assert forall|i: int, w: int|
                            0 <= i < done && #[trigger] residual_step(links, cut@[i] as int, w) implies 0 <= w < n
                            && visited@[w] by {
                            assert(cut@[i] == listed[i]);
                            assert(residual_step(links, listed[i] as int, w));
                        }
                    }
                }
            }
            proof {
                assert forall|v: int| #[trigger] residual_step(links, u as int, v) implies 0 <= v < n && visited@[v] by {
                    let e = choose|e: int|
                        0 <= e < links.len() && ((#[trigger] links[e]).from == u && links[e].to == v && links[e].flow
                            < links[e].upper || links[e].to == u && links[e].from == v && links[e].flow > 0);
                    assert(links[e] == self@[e].link());
                }
                done = done + 1;
            }
        }
        proof {
            let inside = visited@;
            assert forall|u: int, v: int|
                0 <= u < inside.len() && inside[u] && #[trigger] residual_step(links, u, v) implies 0 <= v < inside.len()
                && inside[v] by {
                let i = choose|i: int| 0 <= i < cut@.len() && #[trigger] cut@[i] == u;
                assert(residual_step(links, cut@[i] as int, v));
            }
            assert forall|v: int| is_reachable(links, source as int, v) implies exists|i: int|
                0 <= i < cut@.len() && #[trigger] cut@[i] == v by {
                let path = choose|path: Seq<int>|
                    #[trigger] is_residual_path(links, path) && path[0] == source && path.last() == v;
                lemma_residual_path_stays(links, inside, path, path.len() - 1);
            }
            assert forall|v: int| (exists|i: int| 0 <= i < cut@.len() && #[trigger] cut@[i] == v) implies is_reachable(
                links,
                source as int,
                v,
            ) by {
                let i = choose|i: int| 0 <= i < cut@.len() && #[trigger] cut@[i] == v;
                assert(visited@[cut@[i] as int]);
            }
        }
        cut
    }
}

/// Whatever two solvers make of one problem, the flows that they leave
/// have the same value.
pub proof fn lemma_solvers_agree(before: &Graph, first: &Graph, second: &Graph, source: usize, sink: usize)
    requires
        first.solves(before, source, sink),
        second.solves(before, source, sink),
    ensures
        net_out(first.links(), source as int) == net_out(second.links(), source as int),
{
    assert(same_network(before.links(), second.links())) by {
        assert forall|i: int| 0 <= i < before.links().len() implies (#[trigger] before.links()[i]).from == second.links()[i].from
            && before.links()[i].to == second.links()[i].to && before.links()[i].lower == second.links()[i].lower
            && before.links()[i].upper == second.links()[i].upper && before.links()[i].cost == second.links()[i].cost by {
            assert(second.links()[i].from == before.links()[i].from);
        }
    }
    crate::network::lemma_same_network_transitive(first.links(), before.links(), second.links());
    crate::maximum_flow::cut::lemma_maximum_flows_agree(
        first.links(),
        second.links(),
        first.node_count() as int,
        source as int,
        sink as int,
    );
}

} // verus!
