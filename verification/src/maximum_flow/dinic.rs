use crate::maximum_flow::csr::CSR;
use crate::maximum_flow::cut::{
    has_augmenting_path, is_flow, is_maximum_flow, lemma_saturated_cut_blocks_paths, lemma_saturated_cut_is_maximum,
};
use crate::maximum_flow::graph::Graph;
use crate::maximum_flow::status::Status;
use crate::network::{
    capacity_sum, lemma_capacity_sum_same_network, lemma_net_out_bounded, lemma_net_out_zero_flow,
    lemma_same_network_transitive, net_out, same_network,
};
use vstd::prelude::*;

verus! {

/// Maximum flow by blocking flows in layered networks.
pub struct Dinic {
    pub csr: CSR,
    pub current_edge: Vec<usize>,
}

impl Default for Dinic {
    fn default() -> (solver: Self)
        ensures
            solver.csr.num_nodes == 0,
            solver.csr.num_edges == 0,
            solver.current_edge@.len() == 0,
    {
        Dinic { csr: CSR::default(), current_edge: Vec::new() }
    }
}

impl Dinic {
    /// Every node has a current arc among its own arcs, or just behind them.
    pub open spec fn pointers_ok(&self) -> bool {
        &&& self.current_edge@.len() == self.csr.num_nodes
        &&& forall|w: int|
            0 <= w < self.csr.num_nodes ==> self.csr.start@[w] <= #[trigger] self.current_edge@[w]
                <= self.csr.start@[w + 1]
    }

    /// Every node below `level`, the sink apart, has at or behind its
    /// current arc an arc with residual capacity that leads one level down.
    pub open spec fn productive(&self, sink: int, level: int) -> bool {
        forall|w: int|
            0 <= w < self.csr.num_nodes && w != sink && self.csr.distances@[w] < level
                ==> #[trigger] self.has_open_descent(w)
    }

    /// At or behind the current arc of `w`, some arc with residual capacity
    /// leads from `w` one level down.
    #[verifier::opaque]
    pub open spec fn has_open_descent(&self, w: int) -> bool {
        exists|a: int| self.csr.descends(w, a) && self.current_edge@[w] <= a
    }

    /// Computes a maximum flow from `source` to `sink` and stores it in `graph`.
    pub fn solve(&mut self, source: usize, sink: usize, graph: &mut Graph) -> (status: Status)
        requires
            old(graph).solvable(source, sink),
        ensures
            status == Status::Optimal,
            final(graph).solves(old(graph), source, sink),
    {
        self.csr.build(graph);
        self.current_edge = vec![0usize; graph.num_nodes()];
        let ghost built = self.csr;
        proof {
            lemma_capacity_sum_same_network(self.csr.links(), graph.links());
            assert forall|w: int| net_out(self.csr.links(), w) == 0 by {
                lemma_net_out_zero_flow(self.csr.links(), w);
            }
        }
        self.run(source, sink);
        proof {
            self.csr.lemma_same_shape_same_network(&built);
            lemma_same_network_transitive(self.csr.links(), built.links(), graph.links());
        }
        self.csr.set_flow(graph);
        Status::Optimal
    }

    /// Raises the flow that the residual graph carries to a maximum flow,
    /// one blocking flow after the other, until the source cannot reach the
    /// sink in the residual graph any more.
    pub fn run(&mut self, source: usize, sink: usize)
        requires
            old(self).csr.wf(),
            old(self).current_edge@.len() == old(self).csr.num_nodes,
            source < old(self).csr.num_nodes,
            sink < old(self).csr.num_nodes,
            source != sink,
            forall|w: int| w != source && w != sink ==> #[trigger] net_out(old(self).csr.links(), w) == 0,
        ensures
            final(self).csr.wf(),
            final(self).csr.same_shape(&old(self).csr),
            final(self).current_edge@.len() == old(self).current_edge@.len(),
            is_maximum_flow(final(self).csr.links(), final(self).csr.num_nodes as int, source as int, sink as int),
            !has_augmenting_path(final(self).csr.links(), source as int, sink as int),
    {
        let n = self.csr.num_nodes;
        let upper = self.csr.capacity_at(source);
        let ghost total = capacity_sum(self.csr.links());
        let mut searching = true;
        while searching
            invariant
                self.csr.wf(),
                self.csr.same_shape(&old(self).csr),
                self.csr.num_nodes == n,
                self.current_edge@.len() == n,
                source < n,
                sink < n,
                source != sink,
                total == capacity_sum(self.csr.links()),
                forall|w: int| w != source && w != sink ==> #[trigger] net_out(self.csr.links(), w) == 0,
                forall|a: int|
                    self.csr.leaves(source as int, a) ==> (#[trigger] self.csr.inside_edge_list@[a]).upper <= upper,
                !searching ==> {
                    &&& self.csr.distances@[sink as int] == 0
                    &&& self.csr.distances@[source as int] == n
                    &&& self.csr.labels_closed(source as int)
                },
            decreases total - net_out(self.csr.links(), source as int), searching as int,
        {
            let ghost unlabelled = self.csr;
            self.csr.update_distances(source, sink);
            proof {
                assert(self.csr.links() =~= unlabelled.links());
            }
            if self.csr.distances[source] >= n {
                searching = false;
            } else {
                let ghost before = self.csr;
                for u in 0..n
                    invariant
                        self.csr == before,
                        self.csr.wf(),
                        self.csr.num_nodes == n,
                        self.current_edge@.len() == n,
                        forall|w: int| 0 <= w < u ==> #[trigger] self.current_edge@[w] == self.csr.start@[w],
                {
                    self.current_edge[u] = self.csr.start[u];
                }
                proof {
                    assert forall|w: int|
                        0 <= w < n && w != sink && self.csr.distances@[w] < n implies #[trigger] self.has_open_descent(
                        w,
                    ) by {
                        assert(self.csr.has_descent(w));
                        reveal(CSR::has_descent);
                        reveal(Dinic::has_open_descent);
                        let a = choose|a: int| self.csr.descends(w, a);
                        assert(self.csr.arc_ok(a));
                    }
                    assert(upper > 0) by {
                        assert(self.csr.has_descent(source as int));
                        reveal(CSR::has_descent);
                        let a = choose|a: int| self.csr.descends(source as int, a);
                        assert(self.csr.arc_ok(a));
                        assert(self.csr.leaves(source as int, a));
                    }
                }
                let pushed = self.dfs(source, sink, upper);
                proof {
                    self.csr.lemma_links_within_capacity();
                    lemma_net_out_bounded(self.csr.links(), source as int);
                    self.csr.lemma_same_shape_same_network(&before);
                    lemma_capacity_sum_same_network(self.csr.links(), before.links());
                }
                if pushed.is_none() {
                    searching = false;
                }
            }
        }
        proof {
            let side = self.csr.unreaching();
            self.csr.lemma_unreaching_is_closed(source as int);
            self.csr.lemma_closed_set_is_cut(side, source as int, sink as int);
            self.csr.lemma_links_within_capacity();
            assert(is_flow(self.csr.links(), n as int, source as int, sink as int));
            lemma_saturated_cut_is_maximum(self.csr.links(), side, n as int, source as int, sink as int);
            lemma_saturated_cut_blocks_paths(self.csr.links(), side, source as int, sink as int);
        }
    }

    /// Pushes up to `upper` from `u` to `sink` along admissible arcs, each
    /// node going on from its current arc, and relabels `u` as exhausted
    /// when it cannot pass on all of `upper`.
    fn dfs(&mut self, u: usize, sink: usize, upper: i64) -> (pushed: Option<i64>)
        requires
            old(self).csr.wf(),
            old(self).pointers_ok(),
            u < old(self).csr.num_nodes,
            sink < old(self).csr.num_nodes,
            old(self).csr.distances@[sink as int] == 0,
            old(self).csr.distances@[u as int] < old(self).csr.num_nodes,
            upper >= 0,
        ensures
            final(self).csr.wf(),
            final(self).pointers_ok(),
            final(self).csr.same_shape(&old(self).csr),
            final(self).csr.distances@[sink as int] == 0,
            pushed matches Some(res) && 0 <= res <= upper && {
                &&& forall|w: int|
                    #[trigger] net_out(final(self).csr.links(), w) == net_out(old(self).csr.links(), w) + (if w == u {
                        res as int
                    } else {
                        0
                    }) - (if w == sink {
                        res as int
                    } else {
                        0
                    })
                &&& (upper > 0 && old(self).productive(sink as int, old(self).csr.distances@[u as int] + 1) ==> res
                    > 0)
            },
            forall|a: int|
                0 <= a < old(self).csr.inside_edge_list@.len() && old(self).csr.distances@[old(self).csr.tail(a)] > old(self).csr.distances@[u as int] ==> #[trigger] final(self).csr.inside_edge_list@[a] == old(self).csr.inside_edge_list@[a],
            forall|w: int|
                0 <= w < old(self).csr.num_nodes ==> #[trigger] final(self).csr.distances@[w] == old(self).csr.distances@[w] || final(self).csr.distances@[w] == old(self).csr.num_nodes,
            forall|w: int|
                0 <= w < old(self).csr.num_nodes && w != u && old(self).csr.distances@[w] >= old(self).csr.distances@[u as int] ==> #[trigger] final(self).csr.distances@[w] == old(self).csr.distances@[w],
        decreases old(self).csr.distances@[u as int],
    {
        if u == sink {
            return Some(upper);
        }
        let ghost level = self.csr.distances@[u as int];
        let ghost promising = upper > 0 && self.productive(sink as int, level + 1);
        let ghost goal: int = if promising {
            choose|a: int| self.csr.descends(u as int, a) && self.current_edge@[u as int] <= a
        } else {
            0
        };
        proof {
            if promising {
                assert(self.has_open_descent(u as int));
                reveal(Dinic::has_open_descent);
            }
            assert(self.csr.start@[u as int] <= self.csr.start@[u + 1]);
            assert(self.csr.start@[u + 1] <= self.csr.start@[self.csr.num_nodes as int]);
            if promising {
                assert(self.csr.arc_ok(goal));
            }
        }
        let mut res: i64 = 0;
        let mut i = self.current_edge[u];
        let last = self.csr.start[u + 1];
        let mut full = false;
        while i < last && !full
            invariant
                self.csr.wf(),
                old(self).csr.wf(),
                self.pointers_ok(),
                self.csr.same_shape(&old(self).csr),
                u < self.csr.num_nodes,
                sink < self.csr.num_nodes,
                u != sink,
                level == old(self).csr.distances@[u as int],
                level < self.csr.num_nodes,
                self.csr.distances@[sink as int] == 0,
                self.csr.distances@[u as int] == level,
                last == self.csr.start@[u + 1],
                self.csr.start@[u as int] <= i <= last,
                last <= self.csr.inside_edge_list@.len(),
                0 <= res <= upper,
                full ==> res == upper,
                promising == (upper > 0 && old(self).productive(sink as int, level + 1)),
                promising ==> old(self).csr.descends(u as int, goal) && goal < last,
                old(self).pointers_ok(),
                promising && res == 0 ==> {
                    &&& i <= goal
                    &&& !full
                    &&& self.csr.inside_edge_list@ == old(self).csr.inside_edge_list@
                    &&& self.csr.distances@ == old(self).csr.distances@
                    &&& forall|w: int| 0 <= w < self.csr.num_nodes && w != u ==> #[trigger] self.current_edge@[w] == old(self).current_edge@[w]
                },
                forall|w: int|
                    #[trigger] net_out(self.csr.links(), w) == net_out(old(self).csr.links(), w) + (if w == u {
                        res as int
                    } else {
                        0
                    }) - (if w == sink {
                        res as int
                    } else {
                        0
                    }),
                forall|a: int|
                    0 <= a < self.csr.inside_edge_list@.len() && old(self).csr.distances@[old(self).csr.tail(a)] > level
                        ==> #[trigger] self.csr.inside_edge_list@[a] == old(self).csr.inside_edge_list@[a],
                forall|w: int|
                    0 <= w < self.csr.num_nodes ==> #[trigger] self.csr.distances@[w] == old(self).csr.distances@[w]
                        || self.csr.distances@[w] == self.csr.num_nodes,
                forall|w: int|
                    0 <= w < self.csr.num_nodes && old(self).csr.distances@[w] >= level
                        ==> #[trigger] self.csr.distances@[w] == old(self).csr.distances@[w],
            decreases last - i, !full as int,
        {
            self.current_edge[u] = i;
            proof {
                self.csr.lemma_tail(u as int, i as int);
            }
            let v = self.csr.inside_edge_list[i].to;
            let residual_capacity = self.csr.inside_edge_list[i].residual_capacity();
            if self.csr.is_admissible_edge(u, i) {
                let ghost before = *self;
                let limit = if residual_capacity < upper - res {
                    residual_capacity
                } else {
                    upper - res
                };
                proof {
                    if promising && res == 0 {
                        assert forall|w: int|
                            0 <= w < self.csr.num_nodes && w != sink && self.csr.distances@[w] < self.csr.distances@[v as int]
                                + 1 implies #[trigger] self.has_open_descent(w) by {
                            assert(old(self).has_open_descent(w));
                            reveal(Dinic::has_open_descent);
                            let a = choose|a: int| old(self).csr.descends(w, a) && old(self).current_edge@[w] <= a;
                            assert(self.csr.descends(w, a));
                        }
                    }
                }
                if let Some(d) = self.dfs(v, sink, limit) {
                    let ghost below = self.csr;
                    proof {
                        assert(before.csr.arc_ok(i as int));
                        assert(before.csr.tail(i as int) == u);
                        assert(below.inside_edge_list@[i as int] == before.csr.inside_edge_list@[i as int]);
                        below.lemma_tail(u as int, i as int);
                    }
                    self.csr.push_flow(i, d);
                    res += d;
                    if res == upper {
                        full = true;
                    }
                    proof {
                        let back = before.csr.inside_edge_list@[i as int].rev as int;
                        assert(before.csr.arc_ok(back));
                        assert(old(self).csr.arc_ok(i as int));
                        assert(old(self).csr.arc_ok(back));
                        assert forall|a: int|
                            0 <= a < self.csr.inside_edge_list@.len() && old(self).csr.distances@[old(self).csr.tail(a)]
                                > level implies #[trigger] self.csr.inside_edge_list@[a] == old(self).csr.inside_edge_list@[a] by {
                            assert(old(self).csr.arc_ok(a));
                            assert(before.csr.inside_edge_list@[a] == old(self).csr.inside_edge_list@[a]);
                            assert(before.csr.tail(a) == old(self).csr.tail(a));
                            assert(below.inside_edge_list@[a] == before.csr.inside_edge_list@[a]);
                        }
                        assert forall|w: int|
                            #[trigger] net_out(self.csr.links(), w) == net_out(old(self).csr.links(), w) + (if w == u {
                                res as int
                            } else {
                                0
                            }) - (if w == sink {
                                res as int
                            } else {
                                0
                            }) by {
                            assert(net_out(self.csr.links(), w) == net_out(below.links(), w) + (if w == u {
                                d as int
                            } else {
                                0
                            }) - (if w == v {
                                d as int
                            } else {
                                0
                            }));
                            assert(net_out(below.links(), w) == net_out(before.csr.links(), w) + (if w == v {
                                d as int
                            } else {
                                0
                            }) - (if w == sink {
                                d as int
                            } else {
                                0
                            }));
                        }
                    }
                }
            }
            if !full {
                i += 1;
            }
        }
        if full {
            return Some(res);
        }
        self.current_edge[u] = self.csr.start[u + 1];
        let ghost pushed_through = self.csr;
        self.csr.distances[u] = self.csr.num_nodes;
        proof {
            assert(self.csr.links() =~= pushed_through.links());
        }
        Some(res)
    }
}

} // verus!
