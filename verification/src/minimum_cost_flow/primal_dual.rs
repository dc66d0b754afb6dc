use crate::arith::{sat_add, sat_sub};
use crate::counting::{lemma_occurrences_all, lemma_occurrences_overwrite, lemma_occurrences_positive, occurrences};
use crate::minimum_cost_flow::csr::{certify, Paths, CSR};
use crate::minimum_cost_flow::graph::Graph;
use crate::minimum_cost_flow::pushing::{lemma_load_moved, load};
use crate::minimum_cost_flow::status::Status;
use std::collections::VecDeque;
use vstd::prelude::*;

verus! {

/// Minimum-cost flow by turns of a dual step, which makes the arcs of the
/// shortest paths from the source tight, and a primal step, which sends a
/// maximum flow along tight arcs.
pub struct PrimalDual {
    pub csr: CSR,
    // maximum flow (blocking flows)
    pub que: VecDeque<usize>,
    pub distances: Vec<usize>,
    pub current_edge: Vec<usize>,
}

impl Default for PrimalDual {
    fn default() -> (solver: Self)
        ensures
            solver.csr.num_nodes == 0,
            solver.csr.num_edges == 0,
            solver.que@.len() == 0,
            solver.distances@.len() == 0,
            solver.current_edge@.len() == 0,
    {
        PrimalDual { csr: CSR::default(), que: VecDeque::new(), distances: Vec::new(), current_edge: Vec::new() }
    }
}

impl PrimalDual {
    /// The residual graph is well formed, every node has a distance label
    /// of at most `num_nodes` and a current arc among its own arcs, or
    /// just behind them.
    pub open spec fn wf(&self) -> bool {
        &&& self.csr.wf()
        &&& self.distances@.len() == self.csr.num_nodes
        &&& self.current_edge@.len() == self.csr.num_nodes
        &&& forall|w: int| 0 <= w < self.csr.num_nodes ==> #[trigger] self.distances@[w] <= self.csr.num_nodes
        &&& forall|w: int|
            0 <= w < self.csr.num_nodes ==> self.csr.start@[w] <= #[trigger] self.current_edge@[w]
                <= self.csr.start@[w + 1]
    }

    /// Arc `a` out of `v` carries flow and its reverse has reduced cost zero:
    /// the reverse arc is a tight arc with residual capacity into `v`.
    pub open spec fn enters_tightly(&self, v: int, a: int) -> bool {
        let arc = self.csr.inside_edge_list@[a];
        arc.flow > 0 && crate::arith::clamp(-self.csr.reduced(v, arc)) == 0
    }

    /// Every labelled node other than `source` has labelled all nodes from
    /// which a tight arc with residual capacity leads to it.
    pub open spec fn labels_closed(&self, source: int) -> bool {
        forall|a: int|
            0 <= a < self.csr.inside_edge_list@.len() && self.distances@[self.csr.tail(a)] < self.csr.num_nodes
                && self.csr.tail(a) != source && self.enters_tightly(self.csr.tail(a), a)
                ==> self.distances@[(#[trigger] self.csr.inside_edge_list@[a]).to as int] < self.csr.num_nodes
    }

    /// Every node from which a tight arc with residual capacity leads to a
    /// labelled node is labelled, with at most one more than that node.
    pub open spec fn labels_near(&self) -> bool {
        forall|a: int|
            0 <= a < self.csr.inside_edge_list@.len() && self.distances@[self.csr.tail(a)] < self.csr.num_nodes
                && self.enters_tightly(self.csr.tail(a), a) ==> self.distances@[(
            #[trigger] self.csr.inside_edge_list@[a]).to as int] <= self.distances@[self.csr.tail(a)] + 1
                && self.distances@[self.csr.inside_edge_list@[a].to as int] < self.csr.num_nodes
    }

    /// Some tight arc with residual capacity leads from `w` one level down.
    pub open spec fn has_way_down(&self, w: int) -> bool {
        leads_down(&self.csr, self.distances@, w)
    }

    /// Solves the problem that `graph` states and stores flows and excesses in `graph`.
    pub fn solve(&mut self, graph: &mut Graph) -> (status: Status)
        requires
            old(graph).solvable(),
        ensures
            final(graph).solved(old(graph), status),
    {
        if graph.is_unbalance() {
            return Status::Unbalanced;
        }
        // turns the problem into one with a single node in excess and a single node in deficit
        let (source, sink, artificial_nodes, artificial_edges) = graph.construct_extend_network_one_supply_one_demand();
        let ghost extended = *graph;
        self.csr.build(graph);
        let ghost built = self.csr;

        let n = self.csr.num_nodes;
        self.distances = vec![0usize; n];
        self.current_edge = vec![0usize; n];
        for u in 0..n
            invariant
                self.csr == built,
                self.csr.wf(),
                n == self.csr.num_nodes,
                self.distances@.len() == n,
                forall|w: int| 0 <= w < n ==> #[trigger] self.distances@[w] == 0,
                self.current_edge@.len() == n,
                forall|w: int| 0 <= w < u ==> #[trigger] self.current_edge@[w] == self.csr.start@[w],
        {
            self.current_edge[u] = self.csr.start[u];
        }

        let mut advancing = true;
        while advancing && self.csr.excesses[source] > 0
            invariant
                self.wf(),
                self.csr.same_shape(&built),
                n == self.csr.num_nodes,
                source < n,
                sink < n,
                source != sink,
            decreases
                    (if self.csr.excesses@[source as int] > 0 {
                        self.csr.excesses@[source as int] as int
                    } else {
                        0
                    }),
                    advancing as int,
        {
            if !self.dual(source, sink) {
                advancing = false;
            } else if self.primal(source, sink) == 0 {
                advancing = false;
            }
        }

        proof {
            self.csr.lemma_models_same_shape(&built, graph);
        }
        self.csr.set_flow(graph);
        let ghost solved = *graph;
        proof {
            solved.lemma_prefix_endpoints(&extended, old(graph));
        }
        graph.remove_artificial_sub_graph(artificial_nodes.as_slice(), artificial_edges.as_slice());
        proof {
            crate::minimum_cost_flow::feasibility::lemma_extension_shed(graph, &solved, &extended, old(graph));
        }
        certify(graph, &self.csr.potentials)
    }

    /// The dual step: lowers the potential of every node that `source` can
    /// reach along arcs with residual capacity by its distance from
    /// `source`. Says whether `sink` is among these nodes.
    fn dual(&mut self, source: usize, sink: usize) -> (reached: bool)
        requires
            old(self).wf(),
            source < old(self).csr.num_nodes,
            sink < old(self).csr.num_nodes,
        ensures
            final(self).wf(),
            final(self).csr.same_shape(&old(self).csr),
            final(self).csr.inside_edge_list == old(self).csr.inside_edge_list,
            final(self).csr.excesses == old(self).csr.excesses,
            final(self).distances == old(self).distances,
            final(self).current_edge == old(self).current_edge,
            exists|paths: Paths|
                {
                    &&& #[trigger] old(self).csr.found(source as int, &paths, false, false)
                    &&& reached == paths.visited@[sink as int]
                    &&& final(self).csr.potentials@ == lowered(
                        old(self).csr.potentials@,
                        paths.visited@,
                        paths.dist@,
                        old(self).csr.num_nodes as nat,
                    )
                },
    {
        // calculate the shortest paths
        let paths = self.csr.shortest_paths(source, false, false);

        // update potentials
        let n = self.csr.num_nodes;
        for u in 0..n
            invariant
                self.wf(),
                self.csr.same_shape(&old(self).csr),
                self.csr.inside_edge_list == old(self).csr.inside_edge_list,
                self.csr.excesses == old(self).csr.excesses,
                self.distances == old(self).distances,
                self.current_edge == old(self).current_edge,
                n == self.csr.num_nodes,
                paths.visited@.len() == n,
                paths.dist@.len() == n,
                old(self).csr.potentials@.len() == n,
                self.csr.potentials@ == lowered(old(self).csr.potentials@, paths.visited@, paths.dist@, u as nat),
        {
            if paths.visited[u] {
                if let Some(d) = paths.dist[u] {
                    self.csr.potentials[u] = sat_sub(self.csr.potentials[u], d);
                }
            }
            proof {
                assert(self.csr.potentials@ =~= lowered(
                    old(self).csr.potentials@,
                    paths.visited@,
                    paths.dist@,
                    (u + 1) as nat,
                ));
            }
        }
        proof {
            assert(old(self).csr.found(source as int, &paths, false, false));
        }
        paths.visited[sink]
    }

    /// The primal step: sends flow from `source` to `sink` along tight
    /// arcs, by blocking flows, until the excess of `source` is used up or
    /// `source` is labelled as cut off from `sink`. Returns what it sent,
    /// which leaves the excess of `source` and enters that of `sink`.
    fn primal(&mut self, source: usize, sink: usize) -> (flow: i64)
        requires
            old(self).wf(),
            source < old(self).csr.num_nodes,
            sink < old(self).csr.num_nodes,
            source != sink,
            old(self).csr.excesses@[source as int] > 0,
        ensures
            final(self).wf(),
            final(self).csr.same_shape(&old(self).csr),
            0 <= flow <= old(self).csr.excesses@[source as int],
            final(self).csr.excesses@[source as int] == old(self).csr.excesses@[source as int] - flow,
            flow == old(self).csr.excesses@[source as int] || final(self).distances@[source as int]
                == old(self).csr.num_nodes,
            final(self).csr.potentials == old(self).csr.potentials,
            final(self).csr.excesses@ == old(self).csr.excesses@.update(
                source as int,
                (old(self).csr.excesses@[source as int] - flow) as i64,
            ).update(sink as int, crate::arith::clamp(old(self).csr.excesses@[sink as int] + flow) as i64),
            forall|w: int|
                0 <= w < old(self).csr.num_nodes ==> #[trigger] load(&final(self).csr, w) == load(&old(self).csr, w) + (if w
                    == source {
                    flow as int
                } else {
                    0
                }) - (if w == sink {
                    flow as int
                } else {
                    0
                }),
    {
        let n = self.csr.num_nodes;
        let supply = self.csr.excesses[source];
        let mut flow: i64 = 0;
        let mut pushing = true;
        while pushing && flow < supply
            invariant
                self.wf(),
                self.csr.same_shape(&old(self).csr),
                self.csr.excesses == old(self).csr.excesses,
                self.csr.potentials == old(self).csr.potentials,
                !pushing ==> self.distances@[source as int] == n,
                forall|w: int|
                    0 <= w < n ==> #[trigger] load(&self.csr, w) == load(&old(self).csr, w) + (if w == source {
                        flow as int
                    } else {
                        0
                    }) - (if w == sink {
                        flow as int
                    } else {
                        0
                    }),
                n == self.csr.num_nodes,
                source < n,
                sink < n,
                source != sink,
                supply == self.csr.excesses@[source as int],
                0 <= flow <= supply,
            decreases supply - flow, pushing as int,
        {
            self.update_distances(source, sink);

            // no s-t path
            if self.distances[source] >= n {
                pushing = false;
            } else {
                let ghost labelled = *self;
                for u in 0..n
                    invariant
                        self.csr == labelled.csr,
                        self.distances == labelled.distances,
                        self.wf(),
                        n == self.csr.num_nodes,
                        forall|w: int| 0 <= w < u ==> #[trigger] self.current_edge@[w] == self.csr.start@[w],
                {
                    self.current_edge[u] = self.csr.start[u];
                }
                let ghost reset = self.csr;
                match self.dfs(source, sink, supply - flow) {
                    Some(delta) => {
                        proof {
                            assert forall|w: int| 0 <= w < n implies #[trigger] load(&self.csr, w) == load(
                                &old(self).csr,
                                w,
                            ) + (if w == source {
                                flow + delta
                            } else {
                                0
                            }) - (if w == sink {
                                flow + delta
                            } else {
                                0
                            }) by {
                                assert(load(&reset, w) == load(&labelled.csr, w));
                            }
                        }
                        if delta == 0 {
                            pushing = false;
                        } else {
                            flow += delta;
                        }
                    },
                    None => {
                        pushing = false;
                    },
                }
            }
        }
        let ghost sent = self.csr;
        self.csr.excesses[source] -= flow;
        self.csr.excesses[sink] = sat_add(self.csr.excesses[sink], flow);
        proof {
            assert forall|w: int| 0 <= w < n implies #[trigger] load(&self.csr, w) == load(&old(self).csr, w) + (if w
                == source {
                flow as int
            } else {
                0
            }) - (if w == sink {
                flow as int
            } else {
                0
            }) by {
                assert(load(&self.csr, w) == load(&sent, w));
            }
        }
        flow
    }

    /// Labels every node with its distance to `sink` over tight arcs with
    /// residual capacity, by a breadth-first search backwards from `sink`.
    /// Nodes that it does not reach get the label `num_nodes`.
    pub fn update_distances(&mut self, source: usize, sink: usize)
        requires
            old(self).wf(),
            source < old(self).csr.num_nodes,
            sink < old(self).csr.num_nodes,
        ensures
            final(self).wf(),
            final(self).csr == old(self).csr,
            final(self).current_edge == old(self).current_edge,
            final(self).distances@[sink as int] == 0,
            final(self).labels_closed(source as int),
            forall|w: int| 0 <= w < old(self).csr.num_nodes && #[trigger] final(self).distances@[w] == 0 ==> w == sink,
            forall|w: int|
                0 <= w < old(self).csr.num_nodes && w != sink && final(self).distances@[w] < old(self).csr.num_nodes
                    ==> #[trigger] final(self).has_way_down(w),
            final(self).labels_near(),
    {
        let n = self.csr.num_nodes;
        self.que.clear();
        self.que.push_back(sink);
        for u in 0..n
            invariant
                self.wf(),
                self.csr == old(self).csr,
                self.current_edge == old(self).current_edge,
                n == self.csr.num_nodes,
                self.que@ == seq![sink],
                forall|w: int| 0 <= w < u ==> #[trigger] self.distances@[w] == n,
        {
            self.distances[u] = n;
        }
        let ghost labels_unset = self.distances@;
        self.distances[sink] = 0;

        let ghost mut done: Seq<bool> = Seq::new(n as nat, |u: int| false);
        let ghost mut levels: int = 1;
        let ghost mut front: int = 0;
        let ghost mut split: int = 1;
        proof {
            assert(self.que@[0] == sink);
            assert(self.que@.contains(sink));
            lemma_occurrences_all(labels_unset, n);
            lemma_occurrences_overwrite(labels_unset, sink as int, n, 0usize);
        }
        while self.que.len() > 0
            invariant
                forall|w: int| 0 <= w < n && #[trigger] self.distances@[w] == 0 ==> w == sink,
                forall|w: int|
                    0 <= w < n && w != sink && self.distances@[w] < n ==> #[trigger] leads_down(
                        &self.csr,
                        self.distances@,
                        w,
                    ),
                self.wf(),
                self.csr == old(self).csr,
                self.current_edge == old(self).current_edge,
                n == self.csr.num_nodes,
                source < n,
                sink < n,
                done.len() == n,
                self.distances@[sink as int] == 0,
                occurrences(self.distances@, n) + levels <= n,
                forall|w: int| 0 <= w < n && #[trigger] self.distances@[w] < n ==> self.distances@[w] < levels,
                forall|i: int|
                    0 <= i < self.que@.len() ==> #[trigger] self.que@[i] < n && self.distances@[self.que@[i] as int] < n,
                forall|a: int|
                    0 <= a < self.csr.inside_edge_list@.len() && done[self.csr.tail(a)] && self.enters_tightly(
                        self.csr.tail(a),
                        a,
                    ) ==> self.distances@[(#[trigger] self.csr.inside_edge_list@[a]).to as int] < n,
                forall|v: int|
                    0 <= v < n && #[trigger] self.distances@[v] < n && !done[v] ==> self.que@.contains(v as usize),
                0 <= split <= self.que@.len(),
                forall|i: int| 0 <= i < split ==> self.distances@[#[trigger] self.que@[i] as int] == front,
                forall|i: int| split <= i < self.que@.len() ==> self.distances@[#[trigger] self.que@[i] as int] == front + 1,
                forall|w: int| 0 <= w < n && #[trigger] self.distances@[w] < n ==> self.distances@[w] <= front + 1,
                forall|a: int|
                    0 <= a < self.csr.inside_edge_list@.len() && done[self.csr.tail(a)] && self.enters_tightly(
                        self.csr.tail(a),
                        a,
                    ) ==> self.distances@[(#[trigger] self.csr.inside_edge_list@[a]).to as int] <= self.distances@[self.csr.tail(
                        a,
                    )] + 1,
            decreases 2 * occurrences(self.distances@, n) + self.que@.len(),
        {
            let ghost queue_before = self.que@;
            let v = self.que.pop_front().unwrap();
            let ghost measure = 2 * occurrences(self.distances@, n) + self.que@.len();
            proof {
                assert(queue_before[0] == v);
                assert forall|i: int| 0 <= i < self.que@.len() implies #[trigger] self.que@[i] < n && self.distances@[self.que@[i] as int] < n by {
                    assert(self.que@[i] == queue_before[i + 1]);
                }
                assert forall|u: int|
                    0 <= u < n && #[trigger] self.distances@[u] < n && !done[u] && u != v implies self.que@.contains(
                    u as usize,
                ) by {
                    crate::counting::lemma_contains_after_pop_front(queue_before, u as usize);
                }
                if split > 0 {
                    split = split - 1;
                } else {
                    front = front + 1;
                    split = self.que@.len() as int;
                }
                assert forall|i: int| 0 <= i < split implies self.distances@[#[trigger] self.que@[i] as int] == front by {
                    assert(self.que@[i] == queue_before[i + 1]);
                }
                assert forall|i: int| split <= i < self.que@.len() implies self.distances@[#[trigger] self.que@[i] as int]
                    == front + 1 by {
                    assert(self.que@[i] == queue_before[i + 1]);
                }
                assert(self.csr.start@[v as int] <= self.csr.start@[v + 1]);
                assert(self.csr.start@[v + 1] <= self.csr.start@[n as int]);
            }
            let first = self.csr.start[v];
            let last = self.csr.start[v + 1];
            for a in first..last
                invariant
                    forall|w: int| 0 <= w < n && #[trigger] self.distances@[w] == 0 ==> w == sink,
                    forall|w: int|
                        0 <= w < n && w != sink && self.distances@[w] < n ==> #[trigger] leads_down(
                            &self.csr,
                            self.distances@,
                            w,
                        ),
                    self.wf(),
                    self.csr == old(self).csr,
                    self.current_edge == old(self).current_edge,
                    n == self.csr.num_nodes,
                    source < n,
                    sink < n,
                    v < n,
                    first == self.csr.start@[v as int],
                    last == self.csr.start@[v + 1],
                    first <= last <= self.csr.inside_edge_list@.len(),
                    done.len() == n,
                    self.distances@[sink as int] == 0,
                    self.distances@[v as int] < n,
                    occurrences(self.distances@, n) + levels <= n,
                    forall|w: int| 0 <= w < n && #[trigger] self.distances@[w] < n ==> self.distances@[w] < levels,
                    forall|i: int|
                        0 <= i < self.que@.len() ==> #[trigger] self.que@[i] < n && self.distances@[self.que@[i] as int] < n,
                    forall|b: int|
                        0 <= b < self.csr.inside_edge_list@.len() && done[self.csr.tail(b)] && self.enters_tightly(
                            self.csr.tail(b),
                            b,
                        ) ==> self.distances@[(#[trigger] self.csr.inside_edge_list@[b]).to as int] < n,
                    forall|b: int|
                        first <= b < a && self.enters_tightly(v as int, b) ==> self.distances@[(
                        #[trigger] self.csr.inside_edge_list@[b]).to as int] < n,
                    forall|u: int|
                        0 <= u < n && #[trigger] self.distances@[u] < n && !done[u] && u != v ==> self.que@.contains(
                            u as usize,
                        ),
                    self.distances@[v as int] == front,
                    0 <= split <= self.que@.len(),
                    forall|i: int| 0 <= i < split ==> self.distances@[#[trigger] self.que@[i] as int] == front,
                    forall|i: int|
                        split <= i < self.que@.len() ==> self.distances@[#[trigger] self.que@[i] as int] == front + 1,
                    forall|w: int| 0 <= w < n && #[trigger] self.distances@[w] < n ==> self.distances@[w] <= front + 1,
                    forall|b: int|
                        0 <= b < self.csr.inside_edge_list@.len() && done[self.csr.tail(b)] && self.enters_tightly(
                            self.csr.tail(b),
                            b,
                        ) ==> self.distances@[(#[trigger] self.csr.inside_edge_list@[b]).to as int]
                            <= self.distances@[self.csr.tail(b)] + 1,
                    forall|b: int|
                        first <= b < a && self.enters_tightly(v as int, b) ==> self.distances@[(
                        #[trigger] self.csr.inside_edge_list@[b]).to as int] <= front + 1,
                    2 * occurrences(self.distances@, n) + self.que@.len() <= measure,
            {
                proof {
                    self.csr.lemma_tail(v as int, a as int);
                }
                let edge = &self.csr.inside_edge_list[a];
                let to = edge.to;
                // to -> v
                if edge.flow > 0 && self.distances[to] == n && self.csr.reduced_cost_rev(v, edge) == 0 {
                    let ghost labels_before = self.distances@;
                    let ghost queue_now = self.que@;
                    let ghost labelled = *self;
                    proof {
                        lemma_occurrences_positive(labels_before, to as int, n);
                    }
                    self.distances[to] = self.distances[v] + 1;
                    proof {
                        assert forall|w: int| 0 <= w < n && w != sink && self.distances@[w] < n implies #[trigger] leads_down(
                            &self.csr,
                            self.distances@,
                            w,
                        ) by {
                            reveal(leads_down);
                            if w == to {
                                assert(comes_down(&self.csr, self.distances@, w, a as int));
                            } else {
                                assert(leads_down(&labelled.csr, labels_before, w));
                                let b = choose|b: int| comes_down(&labelled.csr, labels_before, w, b);
                                assert(comes_down(&self.csr, self.distances@, w, b));
                            }
                        }
                    }
                    proof {
                        lemma_occurrences_overwrite(labels_before, to as int, n, self.distances@[to as int]);
                        if self.distances@[to as int] >= levels {
                            levels = levels + 1;
                        }
                    }
                    self.que.push_back(to);
                    proof {
                        assert forall|u: int|
                            0 <= u < n && #[trigger] self.distances@[u] < n && !done[u] && u != v implies self.que@.contains(
                            u as usize,
                        ) by {
                            if u != to {
                                assert(labels_before[u] < n);
                            }
                            crate::counting::lemma_contains_after_push(queue_now, to, u as usize);
                        }
                        assert forall|i: int| 0 <= i < split implies self.distances@[#[trigger] self.que@[i] as int]
                            == front by {
                            assert(self.que@[i] == queue_now[i]);
                            assert(labels_before[queue_now[i] as int] < n);
                        }
                        assert forall|i: int| split <= i < self.que@.len() implies self.distances@[#[trigger] self.que@[i] as int]
                            == front + 1 by {
                            if i < queue_now.len() {
                                assert(self.que@[i] == queue_now[i]);
                                assert(labels_before[queue_now[i] as int] < n);
                            }
                        }
                    }
                }
            }
            proof {
                done = done.update(v as int, true);
                assert forall|b: int|
                    0 <= b < self.csr.inside_edge_list@.len() && done[self.csr.tail(b)] && self.enters_tightly(
                        self.csr.tail(b),
                        b,
                    ) implies self.distances@[(#[trigger] self.csr.inside_edge_list@[b]).to as int] < n
                    && self.distances@[self.csr.inside_edge_list@[b].to as int] <= self.distances@[self.csr.tail(b)] + 1 by {
                    assert(self.csr.arc_ok(b));
                }
            }
        }
        proof {
            assert forall|a: int|
                0 <= a < self.csr.inside_edge_list@.len() && self.distances@[self.csr.tail(a)] < n && self.enters_tightly(
                    self.csr.tail(a),
                    a,
                ) implies self.distances@[(#[trigger] self.csr.inside_edge_list@[a]).to as int]
                <= self.distances@[self.csr.tail(a)] + 1 && self.distances@[self.csr.inside_edge_list@[a].to as int] < n by {
                assert(self.csr.arc_ok(a));
                assert(self.csr.arc_ok(self.csr.inside_edge_list@[a].rev as int));
                if !done[self.csr.tail(a)] {
                    assert(self.que@.contains(self.csr.tail(a) as usize));
                }
            }
        }
    }

    /// Pushes up to `upper` from `u` to `sink` along admissible tight
    /// arcs, each node going on from its current arc, and relabels `u` as
    /// exhausted when it cannot pass on all of `upper`.
    #[verifier::spinoff_prover]
    #[verifier::rlimit(60)]
    fn dfs(&mut self, u: usize, sink: usize, upper: i64) -> (pushed: Option<i64>)
        requires
            old(self).wf(),
            u < old(self).csr.num_nodes,
            sink < old(self).csr.num_nodes,
            old(self).distances@[sink as int] == 0,
            old(self).distances@[u as int] < old(self).csr.num_nodes,
            upper >= 0,
        ensures
            final(self).wf(),
            final(self).csr.same_shape(&old(self).csr),
            final(self).csr.excesses == old(self).csr.excesses,
            final(self).csr.potentials == old(self).csr.potentials,
            final(self).distances@[sink as int] == 0,
            pushed matches Some(res) && 0 <= res <= upper,
            forall|a: int|
                0 <= a < old(self).csr.inside_edge_list@.len() && old(self).distances@[old(self).csr.tail(a)] > old(self).distances@[u as int] ==> #[trigger] final(self).csr.inside_edge_list@[a] == old(self).csr.inside_edge_list@[a],
            forall|w: int|
                0 <= w < old(self).csr.num_nodes ==> #[trigger] final(self).distances@[w] == old(self).distances@[w]
                    || final(self).distances@[w] == old(self).csr.num_nodes,
            forall|w: int|
                0 <= w < old(self).csr.num_nodes && w != u && old(self).distances@[w] >= old(self).distances@[u as int]
                    ==> #[trigger] final(self).distances@[w] == old(self).distances@[w],
            u == sink ==> pushed == Some(upper) && *final(self) == *old(self),
            u != sink && pushed.unwrap() < upper ==> final(self).distances@[u as int] == old(self).csr.num_nodes
                && final(self).current_edge@[u as int] == old(self).csr.start@[u + 1],
            forall|w: int|
                0 <= w < old(self).csr.num_nodes ==> #[trigger] load(&final(self).csr, w) == load(&old(self).csr, w) + (if w
                    == u {
                    pushed.unwrap() as int
                } else {
                    0
                }) - (if w == sink {
                    pushed.unwrap() as int
                } else {
                    0
                }),
        decreases old(self).distances@[u as int],
    {
        if u == sink {
            return Some(upper);
        }
        let ghost level = self.distances@[u as int];
        proof {
            assert(self.csr.start@[u as int] <= self.csr.start@[u + 1]);
            assert(self.csr.start@[u + 1] <= self.csr.start@[self.csr.num_nodes as int]);
        }
        let mut res: i64 = 0;
        let mut edge_index = self.current_edge[u];
        let last = self.csr.start[u + 1];
        let mut full = false;
        while edge_index < last && !full
            invariant
                self.wf(),
                old(self).wf(),
                self.csr.same_shape(&old(self).csr),
                self.csr.excesses == old(self).csr.excesses,
                self.csr.potentials == old(self).csr.potentials,
                u < self.csr.num_nodes,
                sink < self.csr.num_nodes,
                u != sink,
                level == old(self).distances@[u as int],
                level < self.csr.num_nodes,
                self.distances@[sink as int] == 0,
                self.distances@[u as int] == level,
                last == self.csr.start@[u + 1],
                self.csr.start@[u as int] <= edge_index <= last,
                last <= self.csr.inside_edge_list@.len(),
                0 <= res <= upper,
                full ==> res == upper,
                forall|w: int|
                    0 <= w < self.csr.num_nodes ==> #[trigger] load(&self.csr, w) == load(&old(self).csr, w) + (if w == u {
                        res as int
                    } else {
                        0
                    }) - (if w == sink {
                        res as int
                    } else {
                        0
                    }),
                forall|a: int|
                    0 <= a < self.csr.inside_edge_list@.len() && old(self).distances@[old(self).csr.tail(a)] > level
                        ==> #[trigger] self.csr.inside_edge_list@[a] == old(self).csr.inside_edge_list@[a],
                forall|w: int|
                    0 <= w < self.csr.num_nodes ==> #[trigger] self.distances@[w] == old(self).distances@[w]
                        || self.distances@[w] == self.csr.num_nodes,
                forall|w: int|
                    0 <= w < self.csr.num_nodes && old(self).distances@[w] >= level ==> #[trigger] self.distances@[w]
                        == old(self).distances@[w],
            decreases last - edge_index, !full as int,
        {
            self.current_edge[u] = edge_index;
            proof {
                self.csr.lemma_tail(u as int, edge_index as int);
            }
            let edge = self.csr.inside_edge_list[edge_index];
            if self.is_admissible_edge(u, edge_index) && self.csr.reduced_cost(u, &edge) == 0 {
                let v = edge.to;
                let residual_capacity = edge.residual_capacity();
                let ghost before = *self;
                let limit = if residual_capacity < upper - res {
                    residual_capacity
                } else {
                    upper - res
                };
                if let Some(d) = self.dfs(v, sink, limit) {
                    let ghost below = self.csr;
                    proof {
                        assert(before.csr.arc_ok(edge_index as int));
                        assert(before.csr.tail(edge_index as int) == u);
                        assert(below.inside_edge_list@[edge_index as int] == before.csr.inside_edge_list@[edge_index as int]);
                    }
                    // update flow
                    self.csr.add_flow(edge_index, d);
                    proof {
                        assert(below.tail(edge_index as int) == u);
                        assert forall|w: int| 0 <= w < self.csr.num_nodes implies #[trigger] load(&self.csr, w) == load(
                            &old(self).csr,
                            w,
                        ) + (if w == u {
                            res + d
                        } else {
                            0
                        }) - (if w == sink {
                            res + d
                        } else {
                            0
                        }) by {
                            lemma_load_moved(&below, &self.csr, edge_index as int, d as int, w);
                            assert(load(&below, w) == load(&before.csr, w) + (if w == v {
                                d as int
                            } else {
                                0
                            }) - (if w == sink {
                                d as int
                            } else {
                                0
                            }));
                        }
                    }
                    res += d;
                    if res == upper {
                        full = true;
                    }
                    proof {
                        let back = before.csr.inside_edge_list@[edge_index as int].rev as int;
                        assert(before.csr.arc_ok(back));
                        assert(old(self).csr.arc_ok(edge_index as int));
                        assert(old(self).csr.arc_ok(back));
                        assert forall|a: int|
                            0 <= a < self.csr.inside_edge_list@.len() && old(self).distances@[old(self).csr.tail(a)]
                                > level implies #[trigger] self.csr.inside_edge_list@[a] == old(self).csr.inside_edge_list@[a] by {
                            assert(old(self).csr.arc_ok(a));
                            assert(before.csr.inside_edge_list@[a] == old(self).csr.inside_edge_list@[a]);
                            assert(before.csr.tail(a) == old(self).csr.tail(a));
                            assert(below.inside_edge_list@[a] == before.csr.inside_edge_list@[a]);
                        }
                    }
                }
            }
            if !full {
                edge_index += 1;
            }
        }
        if full {
            return Some(res);
        }
        let ghost pushed_on = self.csr;
        self.current_edge[u] = self.csr.start[u + 1];
        self.distances[u] = self.csr.num_nodes;
        proof {
            assert forall|w: int| 0 <= w < self.csr.num_nodes implies #[trigger] load(&self.csr, w) == load(
                &old(self).csr,
                w,
            ) + (if w == u {
                res as int
            } else {
                0
            }) - (if w == sink {
                res as int
            } else {
                0
            }) by {
                assert(load(&self.csr, w) == load(&pushed_on, w));
            }
        }
        Some(res)
    }

    /// Whether arc `i` out of node `from` has residual capacity and leads one level down.
    #[inline]
    pub fn is_admissible_edge(&self, from: usize, i: usize) -> (admissible: bool)
        requires
            self.wf(),
            from < self.csr.num_nodes,
            i < self.csr.inside_edge_list@.len(),
        ensures
            admissible == (self.csr.residual(i as int) > 0 && self.distances@[from as int]
                == self.distances@[self.csr.inside_edge_list@[i as int].to as int] + 1),
    {
        proof {
            assert(self.csr.arc_ok(i as int));
        }
        self.csr.inside_edge_list[i].residual_capacity() > 0 && self.distances[from]
            == self.distances[self.csr.inside_edge_list[i].to] + 1
    }
}

/// The potentials after each of the first `upto` nodes that was visited
/// at a distance has been lowered by its distance; the nearest `i64`
/// where the difference does not fit.
pub open spec fn lowered(potentials: Seq<i64>, visited: Seq<bool>, dist: Seq<Option<i64>>, upto: nat) -> Seq<i64> {
    Seq::new(
        potentials.len(),
        |u: int|
            if u < upto && visited[u] && dist[u].is_some() {
                crate::arith::clamp(potentials[u] - dist[u].unwrap()) as i64
            } else {
                potentials[u]
            },
    )
}

/// Node `w` has its label through arc `a`: the arc leads to `w` from a
/// node that is labelled one less, carries flow, and its reverse, which
/// leads from `w` one level down, has reduced cost zero.
pub open spec fn comes_down(csr: &CSR, distances: Seq<usize>, w: int, a: int) -> bool {
    &&& 0 <= a < csr.inside_edge_list@.len()
    &&& csr.inside_edge_list@[a].to == w
    &&& csr.inside_edge_list@[a].flow > 0
    &&& crate::arith::clamp(-csr.reduced(csr.tail(a), csr.inside_edge_list@[a])) == 0
    &&& distances[csr.tail(a)] < csr.num_nodes
    &&& distances[w] == distances[csr.tail(a)] + 1
}

/// Some tight arc with residual capacity leads from `w` one level down.
#[verifier::opaque]
pub open spec fn leads_down(csr: &CSR, distances: Seq<usize>, w: int) -> bool {
    exists|a: int| comes_down(csr, distances, w, a)
}

} // verus!
