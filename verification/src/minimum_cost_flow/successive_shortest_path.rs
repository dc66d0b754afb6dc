use crate::arith::{sat_add, sat_neg, sat_sub};
use crate::minimum_cost_flow::csr::{certify, is_path_tree, Paths, CSR};
use crate::minimum_cost_flow::graph::{supply_sum, Graph};
use crate::minimum_cost_flow::status::Status;
use vstd::prelude::*;

verus! {

/// Minimum-cost flow by sending, from every node with an excess, flow along
/// shortest paths to nodes with a deficit.
pub struct SuccessiveShortestPath {
    pub csr: CSR,
}

impl Default for SuccessiveShortestPath {
    fn default() -> (solver: Self)
        ensures
            solver.csr.num_nodes == 0,
            solver.csr.num_edges == 0,
    {
        SuccessiveShortestPath { csr: CSR::default() }
    }
}

impl SuccessiveShortestPath {
    /// Solves the problem that `graph` states and stores flows and excesses in `graph`.
    pub fn solve(&mut self, graph: &mut Graph) -> (status: Status)
        requires
            old(graph).solvable(),
        ensures
            final(graph).solved(old(graph), status),
    {
        if graph.is_unbalance() {
            return Status::Unbalanced;
        }
        self.csr.build(graph);
        let ghost built = self.csr;

        let n = self.csr.num_nodes;
        for s in 0..n
            invariant
                self.csr.wf(),
                self.csr.same_shape(&built),
                n == self.csr.num_nodes,
        {
            let mut searching = true;
            while searching && self.csr.excesses[s] > 0
                invariant
                    self.csr.wf(),
                    self.csr.same_shape(&built),
                    n == self.csr.num_nodes,
                    s < n,
                decreases self.csr.excesses@[s as int], searching as int,
            {
                match self.calculate_distance(s) {
                    Some((t, visited, dist, prev)) => {
                        // update potentials
                        let reach = match dist[t] {
                            Some(d) => d,
                            None => 0,
                        };
                        let ghost searched = self.csr;
                        for u in 0..n
                            invariant
                                self.csr.wf(),
                                self.csr.same_shape(&built),
                                self.csr.inside_edge_list == searched.inside_edge_list,
                                self.csr.excesses == searched.excesses,
                                n == self.csr.num_nodes,
                                visited@.len() == n,
                                dist@.len() == n,
                        {
                            if visited[u] {
                                if let Some(d) = dist[u] {
                                    self.csr.potentials[u] = sat_add(sat_sub(self.csr.potentials[u], d), reach);
                                }
                            }
                        }
                        // update flow
                        proof {
                            let paths = Paths { dist, prev, visited, target: Some(t) };
                            let rank = choose|rank: Seq<int>| #[trigger] is_path_tree(&searched, s as int, paths.visited@, paths.prev@, rank);
                            assert(is_path_tree(&self.csr, s as int, visited@, prev@, rank));
                        }
                        self.update_flow(s, t, prev, Ghost(visited@));
                    },
                    None => {
                        searching = false;
                    },
                }
            }
        }

        proof {
            self.csr.lemma_models_same_shape(&built, graph);
        }
        self.csr.set_flow(graph);
        proof {
            graph.lemma_settleable_same_problem(old(graph));
            crate::minimum_cost_flow::feasibility::lemma_fits_same_problem(graph, old(graph));
        }
        certify(graph, &self.csr.potentials)
    }

    /// Searches from `s` along arcs with residual capacity for the nearest
    /// node with a deficit. Returns that node, the nodes settled on the way,
    /// the distances found and the arcs by which the nodes were reached; or
    /// nothing when no node with a deficit can be reached.
    pub fn calculate_distance(&mut self, s: usize) -> (found: Option<(usize, Vec<bool>, Vec<Option<i64>>, Vec<Option<usize>>)>)
        requires
            old(self).csr.wf(),
            s < old(self).csr.num_nodes,
        ensures
            *final(self) == *old(self),
            match found {
                Some((t, visited, dist, prev)) => final(self).csr.found(
                    s as int,
                    &(Paths { dist, prev, visited, target: Some(t) }),
                    false,
                    true,
                ),
                None => exists|paths: Paths|
                    paths.target.is_none() && #[trigger] final(self).csr.found(s as int, &paths, false, true),
            },
    {
        let paths = self.csr.shortest_paths(s, false, true);
        match paths.target {
            Some(t) => {
                let ghost whole = paths;
                let Paths { dist, prev, visited, target } = paths;
                proof {
                    assert(whole == (Paths { dist, prev, visited, target: Some(t) }));
                }
                Some((t, visited, dist, prev))
            },
            None => None,
        }
    }

    /// Pushes along the tree path from `s` to `t` as much as the excess of
    /// `s`, the deficit of `t` and the arcs of the path allow.
    fn update_flow(&mut self, s: usize, t: usize, prev: Vec<Option<usize>>, Ghost(visited): Ghost<Seq<bool>>)
        requires
            old(self).csr.wf(),
            s < old(self).csr.num_nodes,
            t < old(self).csr.num_nodes,
            old(self).csr.excesses@[s as int] > 0,
            old(self).csr.excesses@[t as int] < 0,
            exists|rank: Seq<int>| #[trigger] is_path_tree(&old(self).csr, s as int, visited, prev@, rank),
            visited[t as int],
        ensures
            final(self).csr.wf(),
            final(self).csr.same_shape(&old(self).csr),
            final(self).csr.potentials == old(self).csr.potentials,
            0 <= final(self).csr.excesses@[s as int] < old(self).csr.excesses@[s as int],
    {
        let ghost rank = choose|rank: Seq<int>| #[trigger] is_path_tree(&old(self).csr, s as int, visited, prev@, rank);
        let n = self.csr.num_nodes;

        // calculate delta
        let deficit = sat_neg(self.csr.excesses[t]);
        let mut delta = if self.csr.excesses[s] < deficit {
            self.csr.excesses[s]
        } else {
            deficit
        };
        let ghost mut on_path: Seq<bool> = Seq::new(n as nat, |w: int| false);
        {
            let mut v = t;
            while prev[v].is_some()
                invariant
                    self.csr.wf(),
                    *self == *old(self),
                    n == self.csr.num_nodes,
                    v < n,
                    s < n,
                    t < n,
                    is_path_tree(&self.csr, s as int, visited, prev@, rank),
                    visited[v as int],
                    0 < delta <= self.csr.excesses@[s as int],
                    on_path.len() == n,
                    !on_path[s as int],
                    forall|w: int| 0 <= w < n && #[trigger] on_path[w] ==> rank[w] > rank[v as int],
                    forall|w: int|
                        0 <= w < n && on_path[w] && (#[trigger] prev@[w]) == prev@[w] ==> {
                            &&& visited[w]
                            &&& prev@[w] matches Some(e)
                            &&& delta <= self.csr.residual(e as int)
                            &&& (on_path[self.csr.tail(e as int)] || self.csr.tail(e as int) == v)
                        },
                    on_path[t as int] || v == t,
                decreases rank[v as int],
            {
                let edge_idx = prev[v].unwrap();
                proof {
                    assert(prev@[v as int] == prev@[v as int]);
                    assert(self.csr.arc_ok(edge_idx as int));
                    assert(self.csr.arc_ok(self.csr.inside_edge_list@[edge_idx as int].rev as int));
                }
                let residual = self.csr.inside_edge_list[edge_idx].residual_capacity();
                if residual < delta {
                    delta = residual;
                }
                let rev = self.csr.inside_edge_list[edge_idx].rev;
                let u = self.csr.inside_edge_list[rev].to;
                proof {
                    let marked = on_path.update(v as int, true);
                    assert forall|w: int| 0 <= w < n && marked[w] && (#[trigger] prev@[w]) == prev@[w] implies {
                        &&& visited[w]
                        &&& prev@[w] matches Some(e)
                        &&& delta <= self.csr.residual(e as int)
                        &&& (marked[self.csr.tail(e as int)] || self.csr.tail(e as int) == u)
                    } by {
                        if w != v {
                            assert(on_path[w]);
                        }
                    }
                    on_path = marked;
                }
                v = u;
            }
            proof {
                assert(v == s) by {
                    if v != s {
                        assert(prev@[v as int] == prev@[v as int]);
                    }
                }
            }
        }

        // update flow
        {
            let mut v = t;
            while prev[v].is_some()
                invariant
                    self.csr.wf(),
                    old(self).csr.wf(),
                    self.csr.same_shape(&old(self).csr),
                    self.csr.potentials == old(self).csr.potentials,
                    self.csr.excesses == old(self).csr.excesses,
                    n == self.csr.num_nodes,
                    v < n,
                    s < n,
                    t < n,
                    is_path_tree(&old(self).csr, s as int, visited, prev@, rank),
                    visited[v as int],
                    0 < delta <= self.csr.excesses@[s as int],
                    on_path.len() == n,
                    forall|w: int|
                        0 <= w < n && on_path[w] && (#[trigger] prev@[w]) == prev@[w] ==> {
                            &&& visited[w]
                            &&& prev@[w] matches Some(e)
                            &&& delta <= old(self).csr.residual(e as int)
                            &&& (on_path[old(self).csr.tail(e as int)] || old(self).csr.tail(e as int) == s)
                        },
                    on_path[v as int] || v == s,
                    forall|a: int|
                        0 <= a < self.csr.inside_edge_list@.len() && visited[old(self).csr.tail(a)] && rank[old(self).csr.tail(a)] < rank[v as int] ==> #[trigger] self.csr.inside_edge_list@[a] == old(self).csr.inside_edge_list@[a],
                decreases rank[v as int],
            {
                let edge_idx = prev[v].unwrap();
                proof {
                    assert(prev@[v as int] == prev@[v as int]);
                    assert(old(self).csr.arc_ok(edge_idx as int));
                    let back = old(self).csr.inside_edge_list@[edge_idx as int].rev as int;
                    assert(old(self).csr.arc_ok(back));
                    assert(self.csr.inside_edge_list@[edge_idx as int] == old(self).csr.inside_edge_list@[edge_idx as int]);
                    assert(old(self).csr.tail(back) == v);
                }
                let ghost before = self.csr;
                // push
                let rev = self.csr.inside_edge_list[edge_idx].rev;
                self.csr.add_flow(edge_idx, delta);
                let u = self.csr.inside_edge_list[rev].to;
                proof {
                    assert forall|a: int|
                        0 <= a < self.csr.inside_edge_list@.len() && visited[old(self).csr.tail(a)] && rank[old(self).csr.tail(a)] < rank[u as int] implies #[trigger] self.csr.inside_edge_list@[a] == old(self).csr.inside_edge_list@[a] by {
                        assert(before.inside_edge_list@[a] == old(self).csr.inside_edge_list@[a]);
                    }
                }
                v = u;
            }
        }

        self.csr.excesses[t] = sat_add(self.csr.excesses[t], delta);
        self.csr.excesses[s] -= delta;
    }
}

} // verus!
