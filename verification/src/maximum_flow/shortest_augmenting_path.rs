use crate::maximum_flow::csr::CSR;
use crate::maximum_flow::dinic::Dinic;
use crate::maximum_flow::graph::Graph;
use crate::maximum_flow::status::Status;
use crate::network::{
    capacity_sum, lemma_capacity_sum_same_network, lemma_net_out_bounded, lemma_net_out_zero_flow,
    lemma_same_network_transitive, net_out, same_network,
};
use vstd::prelude::*;

verus! {

/// Maximum flow by augmenting along admissible arcs and raising the distance
/// label of a node from which no admissible arc leads on.
pub struct ShortestAugmentingPath {
    pub csr: CSR,
    pub current_edge: Vec<usize>,
}

impl Default for ShortestAugmentingPath {
    fn default() -> (solver: Self)
        ensures
            solver.csr.num_nodes == 0,
            solver.csr.num_edges == 0,
            solver.current_edge@.len() == 0,
    {
        ShortestAugmentingPath { csr: CSR::default(), current_edge: Vec::new() }
    }
}

impl ShortestAugmentingPath {
    /// Every node has a current arc among its own arcs, or just behind them.
    pub open spec fn pointers_ok(&self) -> bool {
        &&& self.current_edge@.len() == self.csr.num_nodes
        &&& forall|w: int|
            0 <= w < self.csr.num_nodes ==> self.csr.start@[w] <= #[trigger] self.current_edge@[w]
                <= self.csr.start@[w + 1]
    }

    /// Computes a maximum flow from `source` to `sink` and stores it in `graph`.
    ///
    /// The search with distance labels runs for as long as every round
    /// either augments the flow or raises the label of `source`; what it
    /// leaves to be done, blocking flows complete.
    pub fn solve(&mut self, source: usize, sink: usize, graph: &mut Graph) -> (status: Status)
        requires
            old(graph).solvable(source, sink),
        ensures
            status == Status::Optimal,
            final(graph).solves(old(graph), source, sink),
    {
        self.csr.build(graph);
        let n = self.csr.num_nodes;
        let ghost built = self.csr;
        self.csr.update_distances(source, sink);
        self.current_edge = vec![0usize; n];

        let mut flow: i64 = 0;
        let upper = self.csr.capacity_at(source);
        let ghost total = capacity_sum(graph.links());
        proof {
            assert(self.csr.links() =~= built.links());
            lemma_capacity_sum_same_network(self.csr.links(), graph.links());
            assert forall|w: int| net_out(self.csr.links(), w) == 0 by {
                lemma_net_out_zero_flow(self.csr.links(), w);
            }
        }
        let mut advancing = upper > 0;
        while advancing && self.csr.distances[source] < n
            invariant
                self.csr.wf(),
                self.csr.num_nodes == n,
                self.current_edge@.len() == n,
                source < n,
                sink < n,
                source != sink,
                advancing ==> upper > 0,
                self.csr.distances@[sink as int] == 0,
                same_network(self.csr.links(), graph.links()),
                total == capacity_sum(self.csr.links()),
                total <= i64::MAX,
                flow == net_out(self.csr.links(), source as int),
                0 <= flow,
                forall|w: int| w != source && w != sink ==> #[trigger] net_out(self.csr.links(), w) == 0,
            decreases total - net_out(self.csr.links(), source as int), advancing as int, n - self.csr.distances@[source as int],
        {
            let ghost before = self.csr;
            for u in 0..n
                invariant
                    self.csr == before,
                    self.csr.wf(),
                    self.csr.num_nodes == n,
                    self.current_edge@.len() == n,
                    forall|w: int| 0 <= w < u ==> #[trigger] self.current_edge@[w] == self.csr.start@[w],
            {
                self.current_edge[u] = self.csr.start[u];
            }
            let label = self.csr.distances[source];
            match self.dfs(source, sink, upper) {
                Some(delta) => {
                    proof {
                        self.csr.lemma_links_within_capacity();
                        lemma_net_out_bounded(self.csr.links(), source as int);
                        self.csr.lemma_same_shape_same_network(&before);
                        lemma_capacity_sum_same_network(self.csr.links(), before.links());
                        lemma_same_network_transitive(self.csr.links(), before.links(), graph.links());
                    }
                    flow += delta;
                },
                None => {
                    proof {
                        assert(self.csr.links() =~= before.links());
                    }
                    if self.csr.distances[source] <= label {
                        advancing = false;
                    }
                },
            }
        }

        let ghost searched = self.csr;
        let mut finisher = Dinic::default();
        core::mem::swap(&mut finisher.csr, &mut self.csr);
        core::mem::swap(&mut finisher.current_edge, &mut self.current_edge);
        finisher.run(source, sink);
        core::mem::swap(&mut finisher.csr, &mut self.csr);
        core::mem::swap(&mut finisher.current_edge, &mut self.current_edge);
        proof {
            self.csr.lemma_same_shape_same_network(&searched);
            lemma_same_network_transitive(self.csr.links(), searched.links(), graph.links());
        }
        self.csr.set_flow(graph);
        Status::Optimal
    }

    /// Searches from `u` for a path to `sink` along admissible arcs, each
    /// node going on from its current arc, and pushes along the path it
    /// finds as much as the path admits, at most `upper`. A node from which
    /// the search comes back empty-handed gets a new label: one more than
    /// the least label at the end of an arc with residual capacity.
    fn dfs(&mut self, u: usize, sink: usize, upper: i64) -> (pushed: Option<i64>)
        requires
            old(self).csr.wf(),
            old(self).pointers_ok(),
            u < old(self).csr.num_nodes,
            sink < old(self).csr.num_nodes,
            old(self).csr.distances@[sink as int] == 0,
            old(self).csr.distances@[u as int] < old(self).csr.num_nodes,
            upper > 0,
        ensures
            final(self).csr.wf(),
            final(self).pointers_ok(),
            final(self).csr.same_shape(&old(self).csr),
            final(self).csr.distances@[sink as int] == 0,
            match pushed {
                Some(delta) => {
                    &&& 0 < delta <= upper
                    &&& final(self).csr.distances@[u as int] == old(self).csr.distances@[u as int]
                    &&& forall|w: int|
                        #[trigger] net_out(final(self).csr.links(), w) == net_out(old(self).csr.links(), w) + (if w
                            == u {
                            delta as int
                        } else {
                            0
                        }) - (if w == sink {
                            delta as int
                        } else {
                            0
                        })
                },
                None => {
                    &&& u != sink
                    &&& final(self).csr.inside_edge_list@ == old(self).csr.inside_edge_list@
                },
            },
            forall|a: int|
                0 <= a < old(self).csr.inside_edge_list@.len() && old(self).csr.distances@[old(self).csr.tail(a)] > old(
                    self,
                ).csr.distances@[u as int] ==> #[trigger] final(self).csr.inside_edge_list@[a] == old(
                    self,
                ).csr.inside_edge_list@[a],
            forall|w: int|
                0 <= w < old(self).csr.num_nodes && old(self).csr.distances@[w] > old(self).csr.distances@[u as int]
                    ==> #[trigger] final(self).csr.distances@[w] == old(self).csr.distances@[w],
        decreases old(self).csr.distances@[u as int],
    {
        if u == sink {
            return Some(upper);
        }
        let ghost level = self.csr.distances@[u as int];
        proof {
            assert(self.csr.start@[u as int] <= self.csr.start@[u + 1]);
            assert(self.csr.start@[u + 1] <= self.csr.start@[self.csr.num_nodes as int]);
        }
        let first = self.csr.start[u];
        let last = self.csr.start[u + 1];
        let mut i = self.current_edge[u];
        while i < last
            invariant
                self.csr.wf(),
                old(self).csr.wf(),
                self.pointers_ok(),
                self.csr.same_shape(&old(self).csr),
                self.csr.inside_edge_list@ == old(self).csr.inside_edge_list@,
                u < self.csr.num_nodes,
                sink < self.csr.num_nodes,
                u != sink,
                upper > 0,
                level == old(self).csr.distances@[u as int],
                level < self.csr.num_nodes,
                self.csr.distances@[sink as int] == 0,
                self.csr.distances@[u as int] == level,
                first == self.csr.start@[u as int],
                last == self.csr.start@[u + 1],
                first <= i <= last,
                first <= last <= self.csr.inside_edge_list@.len(),
                forall|w: int|
                    0 <= w < self.csr.num_nodes && old(self).csr.distances@[w] > level
                        ==> #[trigger] self.csr.distances@[w] == old(self).csr.distances@[w],
            decreases last - i,
        {
            self.current_edge[u] = i;
            proof {
                self.csr.lemma_tail(u as int, i as int);
            }
            let to = self.csr.inside_edge_list[i].to;
            let residual_capacity = self.csr.inside_edge_list[i].residual_capacity();
            if self.csr.is_admissible_edge(u, i) {
                let ghost before = self.csr;
                let limit = if upper < residual_capacity {
                    upper
                } else {
                    residual_capacity
                };
                if let Some(delta) = self.dfs(to, sink, limit) {
                    let ghost below = self.csr;
                    proof {
                        assert(before.arc_ok(i as int));
                        assert(below.inside_edge_list@[i as int] == before.inside_edge_list@[i as int]);
                        below.lemma_tail(u as int, i as int);
                    }
                    self.csr.push_flow(i, delta);
                    proof {
                        let back = before.inside_edge_list@[i as int].rev as int;
                        assert(before.arc_ok(back));
                        assert(before.links() =~= old(self).csr.links());
                        assert forall|a: int|
                            0 <= a < self.csr.inside_edge_list@.len() && old(self).csr.distances@[old(self).csr.tail(a)]
                                > level implies #[trigger] self.csr.inside_edge_list@[a] == old(
                            self,
                        ).csr.inside_edge_list@[a] by {
                            assert(old(self).csr.arc_ok(a));
                            assert(before.tail(a) == old(self).csr.tail(a));
                            assert(below.inside_edge_list@[a] == before.inside_edge_list@[a]);
                        }
                        assert forall|w: int|
                            #[trigger] net_out(self.csr.links(), w) == net_out(old(self).csr.links(), w) + (if w == u {
                                delta as int
                            } else {
                                0
                            }) - (if w == sink {
                                delta as int
                            } else {
                                0
                            }) by {
                            assert(net_out(self.csr.links(), w) == net_out(below.links(), w) + (if w == u {
                                delta as int
                            } else {
                                0
                            }) - (if w == to {
                                delta as int
                            } else {
                                0
                            }));
                            assert(net_out(below.links(), w) == net_out(before.links(), w) + (if w == to {
                                delta as int
                            } else {
                                0
                            }) - (if w == sink {
                                delta as int
                            } else {
                                0
                            }));
                        }
                    }
                    return Some(delta);
                }
            }
            i += 1;
        }

        // no admissible arc is left: the node gets a new label
        self.csr.distances[u] = self.csr.num_nodes;
        for a in first..last
            invariant
                self.csr.wf(),
                self.pointers_ok(),
                self.csr.same_shape(&old(self).csr),
                self.csr.inside_edge_list@ == old(self).csr.inside_edge_list@,
                u < self.csr.num_nodes,
                u != sink,
                sink < self.csr.num_nodes,
                level == old(self).csr.distances@[u as int],
                self.csr.distances@[sink as int] == 0,
                first == self.csr.start@[u as int],
                last == self.csr.start@[u + 1],
                first <= last <= self.csr.inside_edge_list@.len(),
                forall|w: int|
                    0 <= w < self.csr.num_nodes && old(self).csr.distances@[w] > level
                        ==> #[trigger] self.csr.distances@[w] == old(self).csr.distances@[w],
        {
            proof {
                self.csr.lemma_tail(u as int, a as int);
            }
            let to = self.csr.inside_edge_list[a].to;
            if self.csr.inside_edge_list[a].residual_capacity() > 0 {
                let label = self.csr.distances[to] + 1;
                if label < self.csr.distances[u] {
                    self.csr.distances[u] = label;
                }
            }
        }
        None
    }
}

} // verus!
