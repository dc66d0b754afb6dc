use crate::counting::{lemma_fewer_unset, occurrences};
use crate::maximum_flow::csr::CSR;
use crate::maximum_flow::cut::{is_flow, lemma_saturated_cut_blocks_paths, lemma_saturated_cut_is_maximum};
use crate::maximum_flow::graph::Graph;
use crate::maximum_flow::status::Status;
use crate::network::{lemma_same_network_transitive, same_network, capacity_sum, lemma_capacity_sum_same_network, lemma_net_out_bounded, lemma_net_out_zero_flow, net_out};
use vstd::prelude::*;

verus! {

/// Maximum flow by repeated depth-first search for an augmenting path.
pub struct FordFulkerson {
    pub csr: CSR,
}

impl Default for FordFulkerson {
    fn default() -> (solver: Self)
        ensures
            solver.csr.num_nodes == 0,
            solver.csr.num_edges == 0,
    {
        FordFulkerson { csr: CSR::default() }
    }
}

impl FordFulkerson {
    /// Computes a maximum flow from `source` to `sink` and stores it in `graph`.
    pub fn solve(&mut self, source: usize, sink: usize, graph: &mut Graph) -> (status: Status)
        requires
            old(graph).solvable(source, sink),
        ensures
            status == Status::Optimal,
            final(graph).solves(old(graph), source, sink),
    {
        self.csr.build(graph);
        let n = self.csr.num_nodes;
        let mut visited: Vec<bool> = vec![false; n];
        let upper = self.csr.capacity_at(source);
        let mut flow: i64 = 0;
        let ghost total = capacity_sum(graph.links());
        proof {
            lemma_capacity_sum_same_network(self.csr.links(), graph.links());
            assert forall|w: int| net_out(self.csr.links(), w) == 0 by {
                lemma_net_out_zero_flow(self.csr.links(), w);
            }
        }
        let mut searching = upper > 0;
        while searching
            invariant
                self.csr.wf(),
                self.csr.num_nodes == n,
                source < n,
                sink < n,
                source != sink,
                visited@.len() == n,
                upper > 0 || !searching,
                same_network(self.csr.links(), graph.links()),
                total == capacity_sum(self.csr.links()),
                total <= i64::MAX,
                flow == net_out(self.csr.links(), source as int),
                forall|w: int| w != source && w != sink ==> #[trigger] net_out(self.csr.links(), w) == 0,
                !searching && upper > 0 ==> {
                    &&& !visited@[sink as int]
                    &&& visited@[source as int]
                    &&& self.csr.closed_under_residual(Set::new(|w: int| 0 <= w < n && visited@[w]))
                },
                forall|a: int|
                    self.csr.leaves(source as int, a) ==> (#[trigger] self.csr.inside_edge_list@[a]).upper <= upper,
            decreases total - net_out(self.csr.links(), source as int), searching as int,
        {
            for w in 0..n
                invariant
                    visited@.len() == n,
                    forall|x: int| 0 <= x < w ==> !#[trigger] visited@[x],
            {
                visited[w] = false;
            }
            let ghost before = self.csr;
            match self.dfs(source, sink, upper, &mut visited) {
                Some(delta) => {
                    proof {
                        self.csr.lemma_links_within_capacity();
                        lemma_net_out_bounded(self.csr.links(), source as int);
                        self.csr.lemma_same_shape_same_network(&before);
                        lemma_capacity_sum_same_network(self.csr.links(), before.links());
                        lemma_same_network_transitive(self.csr.links(), before.links(), graph.links());
                    }
                    flow += delta;
                },
                None => {
                    proof {
                        assert(self.csr.links() =~= before.links());
                        let side = Set::new(|w: int| 0 <= w < n && visited@[w]);
                        assert forall|a: int|
                            0 <= a < self.csr.inside_edge_list@.len() && side.contains(self.csr.tail(a))
                                && self.csr.residual(a) > 0 implies side.contains(
                            (#[trigger] self.csr.inside_edge_list@[a]).to as int,
                        ) by {
                            assert(self.csr.arc_ok(a));
                        }
                    }
                    searching = false;
                },
            }
        }
        proof {
            let side = if upper > 0 {
                Set::new(|w: int| 0 <= w < n && visited@[w])
            } else {
                Set::new(|w: int| w == source)
            };
            if upper <= 0 {
                assert forall|a: int|
                    0 <= a < self.csr.inside_edge_list@.len() && side.contains(self.csr.tail(a)) && self.csr.residual(a)
                        > 0 implies side.contains((#[trigger] self.csr.inside_edge_list@[a]).to as int) by {
                    assert(self.csr.arc_ok(a));
                    assert(self.csr.leaves(source as int, a));
                }
            }
            self.csr.lemma_closed_set_is_cut(side, source as int, sink as int);
            self.csr.lemma_links_within_capacity();
            assert(is_flow(self.csr.links(), n as int, source as int, sink as int));
            lemma_saturated_cut_is_maximum(self.csr.links(), side, n as int, source as int, sink as int);
            lemma_saturated_cut_blocks_paths(self.csr.links(), side, source as int, sink as int);
        }
        self.csr.set_flow(graph);
        Status::Optimal
    }

    /// Searches depth-first from `u` for a path to `sink` along arcs with
    /// residual capacity, through nodes not yet visited, and pushes along
    /// the path it finds as much as the path admits, at most `flow`.
    #[verifier::rlimit(40)]
    fn dfs(&mut self, u: usize, sink: usize, flow: i64, visited: &mut Vec<bool>) -> (pushed: Option<i64>)
        requires
            old(self).csr.wf(),
            u < old(self).csr.num_nodes,
            sink < old(self).csr.num_nodes,
            flow > 0,
            old(visited)@.len() == old(self).csr.num_nodes,
            u != sink ==> !old(visited)@[u as int],
            !old(visited)@[sink as int],
        ensures
            final(self).csr.wf(),
            final(self).csr.same_shape(&old(self).csr),
            final(visited)@.len() == old(visited)@.len(),
            forall|w: int| 0 <= w < old(visited)@.len() && old(visited)@[w] ==> final(visited)@[w],
            !final(visited)@[sink as int],
            match pushed {
                Some(d) => {
                    &&& 0 < d <= flow
                    &&& forall|w: int|
                        #[trigger] net_out(final(self).csr.links(), w) == net_out(old(self).csr.links(), w) + (if w
                            == u {
                            d as int
                        } else {
                            0
                        }) - (if w == sink {
                            d as int
                        } else {
                            0
                        })
                    &&& forall|a: int|
                        0 <= a < old(self).csr.inside_edge_list@.len() && (old(visited)@[old(self).csr.tail(a)]
                            || old(visited)@[old(self).csr.inside_edge_list@[a].to as int])
                            ==> #[trigger] final(self).csr.inside_edge_list@[a] == old(self).csr.inside_edge_list@[a]
                },
                None => {
                    &&& final(self).csr.inside_edge_list@ == old(self).csr.inside_edge_list@
                    &&& u != sink
                    &&& final(visited)@[u as int]
                    &&& forall|a: int|
                        0 <= a < old(self).csr.inside_edge_list@.len() && final(visited)@[old(self).csr.tail(a)]
                            && !old(visited)@[old(self).csr.tail(a)] && old(self).csr.residual(a) > 0
                            ==> final(visited)@[(#[trigger] old(self).csr.inside_edge_list@[a]).to as int]
                },
            },
        decreases occurrences(old(visited)@, false),
    {
        if u == sink {
            return Some(flow);
        }
        visited[u] = true;
        proof {
            assert(self.csr.start@[u as int] <= self.csr.start@[u + 1]);
            assert(self.csr.start@[u + 1] <= self.csr.start@[self.csr.num_nodes as int]);
        }
        let first = self.csr.start[u];
        let last = self.csr.start[u + 1];
        for edge_id in first..last
            invariant
                self.csr.same_shape(&old(self).csr),
                self.csr.inside_edge_list@ == old(self).csr.inside_edge_list@,
                self.csr.wf(),
                u < self.csr.num_nodes,
                sink < self.csr.num_nodes,
                u != sink,
                flow > 0,
                first == self.csr.start@[u as int],
                last == self.csr.start@[u + 1],
                first <= last <= self.csr.inside_edge_list@.len(),
                visited@.len() == old(visited)@.len(),
                visited@.len() == self.csr.num_nodes,
                !old(visited)@[u as int],
                visited@[u as int],
                !visited@[sink as int],
                forall|w: int| 0 <= w < old(visited)@.len() && old(visited)@[w] ==> visited@[w],
                forall|a: int|
                    0 <= a < self.csr.inside_edge_list@.len() && visited@[self.csr.tail(a)] && !old(visited)@[self.csr.tail(
                        a,
                    )] && self.csr.tail(a) != u && self.csr.residual(a) > 0
                        ==> visited@[(#[trigger] self.csr.inside_edge_list@[a]).to as int],
                forall|a: int|
                    first <= a < edge_id && self.csr.residual(a) > 0
                        ==> visited@[(#[trigger] self.csr.inside_edge_list@[a]).to as int],
        {
            proof {
                self.csr.lemma_tail(u as int, edge_id as int);
            }
            let to = self.csr.inside_edge_list[edge_id].to;
            let residual = self.csr.inside_edge_list[edge_id].residual_capacity();
            if !visited[to] && residual != 0 {
                let ghost seen = visited@;
                let ghost before = self.csr;
                proof {
                    lemma_fewer_unset(old(visited)@, visited@, u as int);
                }
                let limit = if flow < residual { flow } else { residual };
                if let Some(d) = self.dfs(to, sink, limit, visited) {
                    proof {
                        assert(self.csr.inside_edge_list@[edge_id as int] == before.inside_edge_list@[edge_id as int]);
                    }
                    let ghost pushed_below = self.csr;
                    self.csr.push_flow(edge_id, d);
                    proof {
                        assert(pushed_below.tail(edge_id as int) == u) by {
                            pushed_below.lemma_tail(u as int, edge_id as int);
                        }
                        assert(pushed_below.inside_edge_list@[edge_id as int].to == to);
                        assert(before.links() =~= old(self).csr.links());
                        assert forall|w: int|
                            #[trigger] net_out(self.csr.links(), w) == net_out(old(self).csr.links(), w) + (if w
                                == u {
                                d as int
                            } else {
                                0
                            }) - (if w == sink {
                                d as int
                            } else {
                                0
                            }) by {
                            assert(net_out(self.csr.links(), w) == net_out(pushed_below.links(), w) + (if w == u {
                                d as int
                            } else {
                                0
                            }) - (if w == to {
                                d as int
                            } else {
                                0
                            }));
                            assert(net_out(pushed_below.links(), w) == net_out(before.links(), w) + (if w == to {
                                d as int
                            } else {
                                0
                            }) - (if w == sink {
                                d as int
                            } else {
                                0
                            }));
                        }
                        assert forall|a: int|
                            0 <= a < before.inside_edge_list@.len() && (old(visited)@[before.tail(a)] || old(visited)@[before.inside_edge_list@[a].to as int]) implies #[trigger] self.csr.inside_edge_list@[a]
                            == before.inside_edge_list@[a] by {
                            assert(before.arc_ok(a));
                            assert(before.arc_ok(edge_id as int));
                            assert(before.arc_ok(before.inside_edge_list@[edge_id as int].rev as int));
                        }
                    }
                    return Some(d);
                }
            }
        }
        proof {
            assert forall|a: int|
                0 <= a < self.csr.inside_edge_list@.len() && visited@[self.csr.tail(a)] && !old(visited)@[self.csr.tail(a)]
                    && self.csr.residual(a) > 0 implies visited@[(#[trigger] self.csr.inside_edge_list@[a]).to as int] by {
                assert(self.csr.arc_ok(a));
            }
        }
        None
    }
}

} // verus!
