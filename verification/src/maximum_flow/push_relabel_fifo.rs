use crate::counting::{lemma_fewer_unset, lemma_occurrences_bounded, lemma_occurrences_update, occurrences};
use crate::maximum_flow::csr::CSR;
use crate::maximum_flow::dinic::Dinic;
use crate::maximum_flow::graph::Graph;
use crate::maximum_flow::status::Status;
use crate::network::{
    capacity_sum, lemma_capacity_sum_same_network, lemma_net_out_bounded, lemma_net_out_zero_flow,
    lemma_same_network_transitive, net_out, same_network,
};
use std::collections::VecDeque;
use vstd::prelude::*;

verus! {

/// Maximum flow by pushing excess towards the sink and relabelling, active
/// nodes taken first in, first out, with the gap heuristic and, on demand,
/// global relabelling.
pub struct PushRelabelFIFO {
    pub csr: CSR,
    pub excesses: Vec<i64>,
    pub alpha: usize,
    pub relabel_count: usize,
    pub active_nodes: VecDeque<usize>,
    pub current_edge: Vec<usize>,
    pub distance_count: Vec<usize>,
}

impl Default for PushRelabelFIFO {
    fn default() -> (solver: Self)
        ensures
            solver.alpha == 0,
            solver.relabel_count == 0,
            solver.csr.num_nodes == 0,
            solver.csr.num_edges == 0,
            solver.excesses@.len() == 0,
            solver.active_nodes@.len() == 0,
            solver.current_edge@.len() == 0,
            solver.distance_count@.len() == 0,
    {
        PushRelabelFIFO {
            csr: CSR::default(),
            excesses: Vec::new(),
            alpha: 0,
            relabel_count: 0,
            active_nodes: VecDeque::new(),
            current_edge: Vec::new(),
            distance_count: Vec::new(),
        }
    }
}

impl PushRelabelFIFO {
    /// A solver that relabels globally after every `alpha * num_nodes`
    /// relabels of single nodes, or never when `alpha` is 0.
    pub fn new(alpha: usize) -> (solver: Self)
        ensures
            solver.alpha == alpha,
            solver.relabel_count == 0,
            solver.csr.num_nodes == 0,
            solver.csr.num_edges == 0,
            solver.excesses@.len() == 0,
            solver.active_nodes@.len() == 0,
            solver.current_edge@.len() == 0,
            solver.distance_count@.len() == 0,
    {
        PushRelabelFIFO {
            csr: CSR::default(),
            excesses: Vec::new(),
            alpha,
            relabel_count: 0,
            active_nodes: VecDeque::new(),
            current_edge: Vec::new(),
            distance_count: Vec::new(),
        }
    }

    /// The working state fits the residual graph: every node other than
    /// `source` holds as excess what it has received and not passed on,
    /// every label is counted, every current arc lies among the arcs of its
    /// node and only nodes wait to be discharged.
    pub open spec fn state_ok(&self, source: int) -> bool {
        let n = self.csr.num_nodes as int;
        &&& self.csr.wf()
        &&& 0 <= source < n
        &&& capacity_sum(self.csr.links()) <= i64::MAX
        &&& self.excesses@.len() == n
        &&& self.current_edge@.len() == n
        &&& self.distance_count@.len() == n + 1
        &&& forall|w: int|
            0 <= w < n && w != source ==> 0 <= #[trigger] self.excesses@[w] && self.excesses@[w] == -net_out(
                self.csr.links(),
                w,
            )
        &&& forall|w: int| 0 <= w < n ==> self.csr.start@[w] <= #[trigger] self.current_edge@[w] <= self.csr.start@[w + 1]
        &&& forall|k: int|
            0 <= k <= n ==> #[trigger] self.distance_count@[k] == occurrences(self.csr.distances@, k as usize)
        &&& forall|i: int| 0 <= i < self.active_nodes@.len() ==> #[trigger] self.active_nodes@[i] < n
    }

    /// How much a push along arc `a` out of node `u` moves: the excess of
    /// `u`, or what the arc can take where that is less.
    pub open spec fn pushed(&self, u: int, a: int) -> int {
        if self.excesses@[u] < self.csr.residual(a) {
            self.excesses@[u] as int
        } else {
            self.csr.residual(a)
        }
    }

    /// A push along arc `a` out of node `u` moves flow: the arc is
    /// admissible, and `u` has excess.
    pub open spec fn pushes(&self, u: int, a: int) -> bool {
        &&& self.csr.residual(a) > 0
        &&& self.csr.distances@[u] == self.csr.distances@[self.csr.inside_edge_list@[a].to as int] + 1
        &&& self.pushed(u, a) > 0
    }

    /// Computes a maximum flow from `source` to `sink` and stores it in
    /// `graph`, or refuses a source or sink that is no node, or a source
    /// that is the sink.
    ///
    /// Pushing and relabelling run under a guard on the number of
    /// discharges; what they leave to be done, blocking flows complete.
    pub fn solve(&mut self, source: usize, sink: usize, graph: &mut Graph) -> (status: Status)
        requires
            old(graph).wf(),
            source < old(graph).node_count() && sink < old(graph).node_count() && source != sink
                ==> old(graph).solvable(source, sink),
        ensures
            source < old(graph).node_count() && sink < old(graph).node_count() && source != sink ==> status
                == Status::Optimal && final(graph).solves(old(graph), source, sink),
            !(source < old(graph).node_count() && sink < old(graph).node_count() && source != sink) ==> status
                == Status::BadInput && *final(graph) == *old(graph),
    {
        if source >= graph.num_nodes() || sink >= graph.num_nodes() || source == sink {
            return Status::BadInput;
        }
        self.csr.build(graph);
        let ghost built = self.csr;
        proof {
            lemma_capacity_sum_same_network(self.csr.links(), graph.links());
        }
        self.pre_process(source, sink);

        let mut budget: usize = usize::MAX;
        while budget > 0 && self.active_nodes.len() > 0
            invariant
                self.state_ok(source as int),
                self.csr.same_shape(&built),
                sink < self.csr.num_nodes,
                source != sink,
            decreases budget,
        {
            budget -= 1;
            let ghost waiting = self.active_nodes@;
            let u = self.active_nodes.pop_front().unwrap();
            proof {
                assert forall|i: int| 0 <= i < self.active_nodes@.len() implies #[trigger] self.active_nodes@[i]
                    < self.csr.num_nodes by {
                    assert(self.active_nodes@[i] == waiting[i + 1]);
                }
            }
            // the source and the sink keep what they have, and so does a node that cannot reach the sink
            if u != source && u != sink && self.csr.distances[u] < self.csr.num_nodes {
                self.discharge(u, source);
                if self.alpha != 0 && self.relabels_exceed_limit() {
                    self.relabel_count = 0;
                    let ghost before = self.csr;
                    self.csr.update_distances(source, sink);
                    proof {
                        assert(self.csr.links() =~= before.links());
                    }
                    self.count_labels(source);
                }
            }
        }

        let balanced = self.push_flow_excess_back_to_source(source, sink);
        if !balanced {
            self.csr.build(graph);
        }
        proof {
            if balanced {
                self.csr.lemma_same_shape_same_network(&built);
            } else {
                assert forall|w: int| net_out(self.csr.links(), w) == 0 by {
                    lemma_net_out_zero_flow(self.csr.links(), w);
                }
            }
            lemma_same_network_transitive(self.csr.links(), built.links(), graph.links());
        }
        let ghost pushed = self.csr;
        let mut finisher = Dinic::default();
        core::mem::swap(&mut finisher.csr, &mut self.csr);
        core::mem::swap(&mut finisher.current_edge, &mut self.current_edge);
        finisher.current_edge = vec![0usize; finisher.csr.num_nodes];
        finisher.run(source, sink);
        core::mem::swap(&mut finisher.csr, &mut self.csr);
        core::mem::swap(&mut finisher.current_edge, &mut self.current_edge);
        proof {
            self.csr.lemma_same_shape_same_network(&pushed);
            lemma_same_network_transitive(self.csr.links(), pushed.links(), graph.links());
        }
        self.csr.set_flow(graph);
        Status::Optimal
    }

    /// Whether more than `alpha * num_nodes` nodes were relabelled since the
    /// labels were last computed afresh.
    fn relabels_exceed_limit(&self) -> (exceeded: bool)
        ensures
            exceeded == (self.relabel_count > self.alpha * self.csr.num_nodes),
    {
        match self.alpha.checked_mul(self.csr.num_nodes) {
            Some(limit) => self.relabel_count > limit,
            None => false,
        }
    }

    /// Counts how many nodes carry each label.
    fn count_labels(&mut self, source: usize)
        requires
            old(self).csr.wf(),
            source < old(self).csr.num_nodes,
            capacity_sum(old(self).csr.links()) <= i64::MAX,
            old(self).excesses@.len() == old(self).csr.num_nodes,
            old(self).current_edge@.len() == old(self).csr.num_nodes,
            forall|w: int|
                0 <= w < old(self).csr.num_nodes && w != source ==> 0 <= #[trigger] old(self).excesses@[w] && old(self).excesses@[w] == -net_out(old(self).csr.links(), w),
            forall|w: int|
                0 <= w < old(self).csr.num_nodes ==> old(self).csr.start@[w] <= #[trigger] old(self).current_edge@[w]
                    <= old(self).csr.start@[w + 1],
            forall|i: int|
                0 <= i < old(self).active_nodes@.len() ==> #[trigger] old(self).active_nodes@[i] < old(self).csr.num_nodes,
        ensures
            final(self).state_ok(source as int),
            final(self).csr == old(self).csr,
            final(self).excesses == old(self).excesses,
            final(self).active_nodes == old(self).active_nodes,
            final(self).current_edge == old(self).current_edge,
            final(self).alpha == old(self).alpha,
            final(self).relabel_count == old(self).relabel_count,
    {
        let n = self.csr.num_nodes;
        self.distance_count = vec![0usize; n + 1];
        proof {
            assert(self.csr.distances@.take(0) =~= Seq::<usize>::empty());
        }
        for u in 0..n
            invariant
                self.csr == old(self).csr,
                self.excesses == old(self).excesses,
                self.active_nodes == old(self).active_nodes,
                self.current_edge == old(self).current_edge,
                self.alpha == old(self).alpha,
                self.relabel_count == old(self).relabel_count,
                self.csr.wf(),
                n == self.csr.num_nodes,
                self.distance_count@.len() == n + 1,
                forall|k: int|
                    0 <= k <= n ==> #[trigger] self.distance_count@[k] == occurrences(
                        self.csr.distances@.take(u as int),
                        k as usize,
                    ),
        {
            let label = self.csr.distances[u];
            proof {
                let next = self.csr.distances@.take(u + 1);
                assert(next.drop_last() =~= self.csr.distances@.take(u as int));
                lemma_occurrences_bounded(next, label);
            }
            self.distance_count[label] += 1;
        }
        proof {
            assert(self.csr.distances@.take(n as int) =~= self.csr.distances@);
        }
    }

    /// Labels the nodes, saturates every arc out of `source` and queues the
    /// nodes that hold excess.
    fn pre_process(&mut self, source: usize, sink: usize)
        requires
            old(self).csr.wf(),
            source < old(self).csr.num_nodes,
            sink < old(self).csr.num_nodes,
            source != sink,
            capacity_sum(old(self).csr.links()) <= i64::MAX,
            forall|e: int| 0 <= e < old(self).csr.num_edges ==> (#[trigger] old(self).csr.links()[e]).flow == 0,
        ensures
            final(self).state_ok(source as int),
            final(self).csr.same_shape(&old(self).csr),
            final(self).alpha == old(self).alpha,
    {
        let n = self.csr.num_nodes;
        self.excesses = vec![0i64; n];
        self.current_edge = vec![0usize; n];
        self.active_nodes = VecDeque::new();
        let ghost built = self.csr;

        self.csr.update_distances(source, sink);
        self.csr.distances[source] = n;
        proof {
            assert(self.csr.links() =~= built.links());
            assert forall|w: int| net_out(self.csr.links(), w) == 0 by {
                lemma_net_out_zero_flow(self.csr.links(), w);
            }
        }
        let ghost labelled = self.csr;
        for u in 0..n
            invariant
                self.csr == labelled,
                self.csr.wf(),
                n == self.csr.num_nodes,
                self.alpha == old(self).alpha,
                self.excesses@.len() == n,
                self.active_nodes@.len() == 0,
                forall|w: int| 0 <= w < n ==> #[trigger] self.excesses@[w] == 0,
                self.current_edge@.len() == n,
                forall|w: int| 0 <= w < u ==> #[trigger] self.current_edge@[w] == self.csr.start@[w],
        {
            self.current_edge[u] = self.csr.start[u];
        }
        self.count_labels(source);

        proof {
            assert(self.csr.start@[source as int] <= self.csr.start@[source + 1]);
            assert(self.csr.start@[source + 1] <= self.csr.start@[n as int]);
        }
        let first = self.csr.start[source];
        let last = self.csr.start[source + 1];
        for inside_edge_index in first..last
            invariant
                self.state_ok(source as int),
                self.csr.same_shape(&old(self).csr),
                self.alpha == old(self).alpha,
                n == self.csr.num_nodes,
                first == self.csr.start@[source as int],
                last == self.csr.start@[source + 1],
                last <= self.csr.inside_edge_list@.len(),
        {
            proof {
                self.csr.lemma_tail(source as int, inside_edge_index as int);
            }
            let to = self.csr.inside_edge_list[inside_edge_index].to;
            let delta = self.csr.inside_edge_list[inside_edge_index].residual_capacity();
            let ghost before = self.csr;
            self.csr.push_flow(inside_edge_index, delta);
            proof {
                self.csr.lemma_links_within_capacity();
                lemma_net_out_bounded(self.csr.links(), to as int);
                self.csr.lemma_same_shape_same_network(&before);
                lemma_capacity_sum_same_network(self.csr.links(), before.links());
            }
            if to != source {
                self.excesses[to] += delta;
            }
        }

        for u in 0..n
            invariant
                self.state_ok(source as int),
                self.csr.same_shape(&old(self).csr),
                self.alpha == old(self).alpha,
                n == self.csr.num_nodes,
        {
            if u != source && u != sink && self.excesses[u] > 0 {
                self.active_nodes.push_back(u);
            }
        }
    }

    /// Pushes the excess of `u` along admissible arcs, from its current arc
    /// on; if excess is left, relabels `u` and queues it again.
    fn discharge(&mut self, u: usize, source: usize)
        requires
            old(self).state_ok(source as int),
            u < old(self).csr.num_nodes,
            u != source,
            old(self).csr.distances@[u as int] < old(self).csr.num_nodes,
        ensures
            final(self).state_ok(source as int),
            final(self).csr.same_shape(&old(self).csr),
            final(self).alpha == old(self).alpha,
            final(self).excesses@[u as int] == 0 || (final(self).current_edge@[u as int] == final(self).csr.start@[u as int]
                && final(self).active_nodes@.len() > 0 && final(self).active_nodes@[final(self).active_nodes@.len() - 1]
                == u),
    {
        proof {
            assert(self.csr.start@[u as int] <= self.csr.start@[u + 1]);
            assert(self.csr.start@[u + 1] <= self.csr.start@[self.csr.num_nodes as int]);
        }
        let last = self.csr.start[u + 1];
        let mut edge_id = self.current_edge[u];
        while edge_id < last
            invariant
                self.state_ok(source as int),
                self.csr.same_shape(&old(self).csr),
                self.alpha == old(self).alpha,
                u < self.csr.num_nodes,
                u != source,
                self.csr.distances@[u as int] < self.csr.num_nodes,
                last == self.csr.start@[u + 1],
                self.csr.start@[u as int] <= edge_id <= last,
            decreases last - edge_id,
        {
            self.current_edge[u] = edge_id;
            if self.excesses[u] > 0 {
                self.push(u, edge_id, source);
            }
            if self.excesses[u] == 0 {
                return;
            }
            edge_id += 1;
        }
        self.current_edge[u] = self.csr.start[u];

        if self.distance_count[self.csr.distances[u]] == 1 {
            self.gap_relabeling(self.csr.distances[u], source);
        } else {
            self.relabel(u, source);
        }

        if self.excesses[u] > 0 {
            self.active_nodes.push_back(u);
        }
    }

    /// Pushes along arc `edge_id` out of `u` as much of the excess of `u` as
    /// the arc can take, if the arc is admissible.
    fn push(&mut self, u: usize, edge_id: usize, source: usize)
        requires
            old(self).state_ok(source as int),
            u < old(self).csr.num_nodes,
            u != source,
            old(self).csr.leaves(u as int, edge_id as int),
        ensures
            final(self).state_ok(source as int),
            final(self).csr.same_shape(&old(self).csr),
            final(self).csr.distances == old(self).csr.distances,
            final(self).current_edge == old(self).current_edge,
            final(self).alpha == old(self).alpha,
            final(self).relabel_count == old(self).relabel_count,
            !old(self).pushes(u as int, edge_id as int) ==> *final(self) == *old(self),
            old(self).pushes(u as int, edge_id as int) ==> {
                let to = old(self).csr.inside_edge_list@[edge_id as int].to;
                let delta = old(self).pushed(u as int, edge_id as int);
                &&& final(self).csr.inside_edge_list@[edge_id as int].flow == old(self).csr.inside_edge_list@[edge_id as int].flow
                    + delta
                &&& forall|a: int|
                    0 <= a < old(self).csr.inside_edge_list@.len() && a != edge_id && a
                        != old(self).csr.inside_edge_list@[edge_id as int].rev
                        ==> #[trigger] final(self).csr.inside_edge_list@[a] == old(self).csr.inside_edge_list@[a]
                &&& final(self).excesses@ == (if to != source {
                    old(self).excesses@.update(u as int, (old(self).excesses@[u as int] - delta) as i64).update(
                        to as int,
                        (old(self).excesses@.update(u as int, (old(self).excesses@[u as int] - delta) as i64)[to as int]
                            + delta) as i64,
                    )
                } else {
                    old(self).excesses@.update(u as int, (old(self).excesses@[u as int] - delta) as i64)
                })
                &&& final(self).active_nodes@ == (if to != source && final(self).excesses@[to as int] == delta {
                    old(self).active_nodes@.push(to)
                } else {
                    old(self).active_nodes@
                })
            },
    {
        proof {
            self.csr.lemma_tail(u as int, edge_id as int);
        }
        let to = self.csr.inside_edge_list[edge_id].to;
        let residual = self.csr.inside_edge_list[edge_id].residual_capacity();
        let delta = if self.excesses[u] < residual {
            self.excesses[u]
        } else {
            residual
        };
        if self.csr.is_admissible_edge(u, edge_id) && delta > 0 {
            let ghost before = self.csr;
            self.csr.push_flow(edge_id, delta);
            proof {
                self.csr.lemma_links_within_capacity();
                lemma_net_out_bounded(self.csr.links(), to as int);
                self.csr.lemma_same_shape_same_network(&before);
                lemma_capacity_sum_same_network(self.csr.links(), before.links());
            }
            self.excesses[u] -= delta;
            if to != source {
                self.excesses[to] += delta;
                if self.excesses[to] == delta {
                    self.active_nodes.push_back(to);
                }
            }
        }
    }

    /// Gives `u` the least label that makes one of its arcs with residual
    /// capacity admissible, at most `num_nodes`.
    fn relabel(&mut self, u: usize, source: usize)
        requires
            old(self).state_ok(source as int),
            u < old(self).csr.num_nodes,
        ensures
            final(self).state_ok(source as int),
            final(self).csr.same_shape(&old(self).csr),
            final(self).csr.inside_edge_list == old(self).csr.inside_edge_list,
            final(self).excesses == old(self).excesses,
            final(self).active_nodes == old(self).active_nodes,
            final(self).current_edge == old(self).current_edge,
            final(self).alpha == old(self).alpha,
            final(self).relabel_count == (if old(self).relabel_count < usize::MAX {
                old(self).relabel_count + 1
            } else {
                usize::MAX as int
            }),
            final(self).csr.distances@ == old(self).csr.distances@.update(
                u as int,
                least_label(&old(self).csr, u as int, old(self).csr.start@[u + 1] as int) as usize,
            ),
    {
        if self.relabel_count < usize::MAX {
            self.relabel_count += 1;
        }
        proof {
            assert(self.csr.start@[u as int] <= self.csr.start@[u + 1]);
            assert(self.csr.start@[u + 1] <= self.csr.start@[self.csr.num_nodes as int]);
        }
        let n = self.csr.num_nodes;
        let mut new_distance = n;
        let first = self.csr.start[u];
        let last = self.csr.start[u + 1];
        for a in first..last
            invariant
                *self == *old(self) || (self.relabel_count == old(self).relabel_count + 1 && self.csr == old(self).csr
                    && self.excesses == old(self).excesses && self.active_nodes == old(self).active_nodes
                    && self.current_edge == old(self).current_edge && self.alpha == old(self).alpha
                    && self.distance_count == old(self).distance_count),
                self.state_ok(source as int),
                n == self.csr.num_nodes,
                u < n,
                new_distance <= n,
                first == self.csr.start@[u as int],
                last == self.csr.start@[u + 1],
                last <= self.csr.inside_edge_list@.len(),
                self.csr == old(self).csr,
                new_distance == least_label(&self.csr, u as int, a as int),
        {
            proof {
                self.csr.lemma_tail(u as int, a as int);
            }
            if self.csr.inside_edge_list[a].residual_capacity() > 0 {
                let label = self.csr.distances[self.csr.inside_edge_list[a].to] + 1;
                if label < new_distance {
                    new_distance = label;
                }
            }
        }
        self.set_label(u, new_distance, source);
    }

    /// Gives `u` the label `label` and keeps the count of the labels.
    fn set_label(&mut self, u: usize, label: usize, source: usize)
        requires
            old(self).state_ok(source as int),
            u < old(self).csr.num_nodes,
            label <= old(self).csr.num_nodes,
        ensures
            final(self).state_ok(source as int),
            final(self).csr.same_shape(&old(self).csr),
            final(self).csr.inside_edge_list == old(self).csr.inside_edge_list,
            final(self).csr.distances@ == old(self).csr.distances@.update(u as int, label),
            final(self).excesses == old(self).excesses,
            final(self).active_nodes == old(self).active_nodes,
            final(self).current_edge == old(self).current_edge,
            final(self).alpha == old(self).alpha,
            final(self).relabel_count == old(self).relabel_count,
    {
        let ghost before = self.csr;
        let previous = self.csr.distances[u];
        proof {
            crate::counting::lemma_occurrences_positive(self.csr.distances@, u as int, previous);
            lemma_occurrences_bounded(self.csr.distances@.update(u as int, label), label);
            assert forall|x: usize|
                #[trigger] occurrences(self.csr.distances@.update(u as int, label), x) == occurrences(
                    self.csr.distances@,
                    x,
                ) - (if previous == x {
                    1int
                } else {
                    0
                }) + (if label == x {
                    1int
                } else {
                    0
                }) by {
                lemma_occurrences_update(self.csr.distances@, u as int, label, x);
            }
        }
        self.distance_count[previous] -= 1;
        self.csr.distances[u] = label;
        self.distance_count[label] += 1;
        proof {
            assert(self.csr.links() =~= before.links());
        }
    }

    /// Once no node carries the label `k` any more, no node with a greater
    /// label can reach the sink: all of them get the label `num_nodes`.
    fn gap_relabeling(&mut self, k: usize, source: usize)
        requires
            old(self).state_ok(source as int),
        ensures
            final(self).state_ok(source as int),
            final(self).csr.same_shape(&old(self).csr),
            final(self).csr.inside_edge_list == old(self).csr.inside_edge_list,
            final(self).excesses == old(self).excesses,
            final(self).active_nodes == old(self).active_nodes,
            final(self).current_edge == old(self).current_edge,
            final(self).alpha == old(self).alpha,
            final(self).relabel_count == old(self).relabel_count,
            forall|w: int|
                0 <= w < old(self).csr.num_nodes ==> #[trigger] final(self).csr.distances@[w] == (if old(
                    self,
                ).csr.distances@[w] >= k {
                    old(self).csr.num_nodes
                } else {
                    old(self).csr.distances@[w]
                }),
    {
        let n = self.csr.num_nodes;
        for u in 0..n
            invariant
                self.state_ok(source as int),
                n == self.csr.num_nodes,
                self.relabel_count == old(self).relabel_count,
                forall|w: int|
                    0 <= w < n ==> #[trigger] self.csr.distances@[w] == (if w < u && old(self).csr.distances@[w] >= k {
                        n
                    } else {
                        old(self).csr.distances@[w]
                    }),
                self.csr.same_shape(&old(self).csr),
                self.csr.inside_edge_list == old(self).csr.inside_edge_list,
                self.excesses == old(self).excesses,
                self.active_nodes == old(self).active_nodes,
                self.current_edge == old(self).current_edge,
                self.alpha == old(self).alpha,
        {
            if self.csr.distances[u] >= k {
                self.set_label(u, n, source);
            }
        }
    }

    /// Returns to `source` the excess that did not reach the sink, along
    /// paths with residual capacity, node by node, for as long as the
    /// search from a node finds a path. What a node gives up of its excess
    /// comes off the flow out of `source`; what has reached the sink stays
    /// there. Says whether no excess is left.
    fn push_flow_excess_back_to_source(&mut self, source: usize, sink: usize) -> (balanced: bool)
        requires
            old(self).state_ok(source as int),
            sink < old(self).csr.num_nodes,
            source != sink,
        ensures
            final(self).csr.wf(),
            final(self).csr.same_shape(&old(self).csr),
            final(self).current_edge@.len() == final(self).csr.num_nodes,
            balanced ==> forall|w: int| w != source && w != sink ==> #[trigger] net_out(final(self).csr.links(), w) == 0,
            final(self).state_ok(source as int),
            balanced == (forall|w: int|
                0 <= w < old(self).csr.num_nodes && w != source && w != sink ==> #[trigger] final(self).excesses@[w] == 0),
            forall|w: int|
                0 <= w < old(self).csr.num_nodes && w != source ==> 0 <= #[trigger] final(self).excesses@[w]
                    <= old(self).excesses@[w],
            final(self).excesses@[sink as int] == old(self).excesses@[sink as int],
            net_out(final(self).csr.links(), sink as int) == net_out(old(self).csr.links(), sink as int),
            net_out(old(self).csr.links(), source as int) - net_out(final(self).csr.links(), source as int)
                == returned(final(self).excesses@, old(self).excesses@, source as int, old(self).csr.num_nodes as int),
    {
        let n = self.csr.num_nodes;
        let mut balanced = true;
        proof {
            lemma_returned_none(self.excesses@, source as int, n as int);
        }
        for u in 0..n
            invariant
                self.state_ok(source as int),
                self.csr.same_shape(&old(self).csr),
                n == self.csr.num_nodes,
                sink < n,
                source != sink,
                balanced == (forall|w: int| 0 <= w < u && w != source && w != sink ==> #[trigger] self.excesses@[w] == 0),
                forall|w: int| 0 <= w < n && w != source ==> 0 <= #[trigger] self.excesses@[w] <= old(self).excesses@[w],
                forall|w: int| u <= w < n ==> #[trigger] self.excesses@[w] == old(self).excesses@[w],
                self.excesses@[sink as int] == old(self).excesses@[sink as int],
                self.excesses@[source as int] == old(self).excesses@[source as int],
                self.excesses@.len() == old(self).excesses@.len(),
                net_out(old(self).csr.links(), source as int) - net_out(self.csr.links(), source as int) == returned(
                    self.excesses@,
                    old(self).excesses@,
                    source as int,
                    n as int,
                ),
        {
            if u != source && u != sink {
                let mut returning = true;
                while returning && self.excesses[u] > 0
                    invariant
                        self.state_ok(source as int),
                        self.csr.same_shape(&old(self).csr),
                        n == self.csr.num_nodes,
                        u < n,
                        u != source,
                        u != sink,
                        sink < n,
                        source != sink,
                        balanced == (forall|w: int|
                            0 <= w < u && w != source && w != sink ==> #[trigger] self.excesses@[w] == 0),
                        forall|w: int|
                            0 <= w < n && w != source ==> 0 <= #[trigger] self.excesses@[w] <= old(self).excesses@[w],
                        forall|w: int| u < w < n ==> #[trigger] self.excesses@[w] == old(self).excesses@[w],
                        self.excesses@[sink as int] == old(self).excesses@[sink as int],
                        self.excesses@[source as int] == old(self).excesses@[source as int],
                        self.excesses@.len() == old(self).excesses@.len(),
                        net_out(old(self).csr.links(), source as int) - net_out(self.csr.links(), source as int)
                            == returned(self.excesses@, old(self).excesses@, source as int, n as int),
                    decreases self.excesses@[u as int], returning as int,
                {
                    let mut visited = vec![false; n];
                    let ghost before = *self;
                    for w in 0..n
                        invariant
                            self.csr == before.csr,
                            self.excesses == before.excesses,
                            self.active_nodes == before.active_nodes,
                            self.distance_count == before.distance_count,
                            self.csr.wf(),
                            n == self.csr.num_nodes,
                            self.current_edge@.len() == n,
                            forall|x: int| 0 <= x < w ==> #[trigger] self.current_edge@[x] == self.csr.start@[x],
                    {
                        self.current_edge[w] = self.csr.start[w];
                    }
                    let amount = self.excesses[u];
                    let d = self.dfs(u, source, amount, &mut visited);
                    proof {
                        self.csr.lemma_same_shape_same_network(&before.csr);
                        lemma_capacity_sum_same_network(self.csr.links(), before.csr.links());
                    }
                    if d == 0 {
                        returning = false;
                    } else {
                        let ghost held = self.excesses@;
                        self.excesses[u] -= d;
                        proof {
                            assert forall|w: int| 0 <= w < n && w != u implies self.excesses@[w] == held[w] by {}
                            lemma_returned_more(self.excesses@, held, old(self).excesses@, source as int, n as int, u as int);
                            assert(net_out(self.csr.links(), source as int) == net_out(before.csr.links(), source as int)
                                - d);
                        }
                    }
                }
                if self.excesses[u] > 0 {
                    balanced = false;
                }
            }
        }
        proof {
            if balanced {
                assert forall|w: int| w != source && w != sink implies #[trigger] net_out(self.csr.links(), w) == 0 by {
                    if 0 <= w < n {
                        assert(self.excesses@[w] == 0);
                    } else {
                        self.csr.lemma_links_within_capacity();
                        crate::network::lemma_net_out_outside(self.csr.links(), n as int, w);
                    }
                }
            }
        }
        balanced
    }

    /// Searches depth-first from `u` for a path to `source` along arcs with
    /// residual capacity, through nodes not yet visited, and pushes along
    /// the path it finds as much as the path admits, at most `flow`.
    /// Returns what it pushed, 0 when it found no path.
    #[verifier::rlimit(40)]
    fn dfs(&mut self, u: usize, source: usize, flow: i64, visited: &mut Vec<bool>) -> (pushed: i64)
        requires
            old(self).csr.wf(),
            old(self).current_edge@.len() == old(self).csr.num_nodes,
            forall|w: int|
                0 <= w < old(self).csr.num_nodes ==> old(self).csr.start@[w] <= #[trigger] old(self).current_edge@[w]
                    <= old(self).csr.start@[w + 1],
            u < old(self).csr.num_nodes,
            source < old(self).csr.num_nodes,
            flow > 0,
            old(visited)@.len() == old(self).csr.num_nodes,
            u != source ==> !old(visited)@[u as int],
            !old(visited)@[source as int],
        ensures
            final(self).csr.wf(),
            final(self).csr.same_shape(&old(self).csr),
            final(self).csr.distances == old(self).csr.distances,
            final(self).excesses == old(self).excesses,
            final(self).active_nodes == old(self).active_nodes,
            final(self).distance_count == old(self).distance_count,
            final(self).alpha == old(self).alpha,
            final(self).current_edge@.len() == old(self).current_edge@.len(),
            forall|w: int|
                0 <= w < final(self).csr.num_nodes ==> final(self).csr.start@[w] <= #[trigger] final(self).current_edge@[w] <= final(self).csr.start@[w + 1],
            final(visited)@.len() == old(visited)@.len(),
            forall|w: int| 0 <= w < old(visited)@.len() && old(visited)@[w] ==> final(visited)@[w],
            !final(visited)@[source as int],
            0 <= pushed <= flow,
            u == source ==> pushed == flow,
            pushed == 0 ==> final(self).csr.inside_edge_list@ == old(self).csr.inside_edge_list@,
            forall|w: int|
                #[trigger] net_out(final(self).csr.links(), w) == net_out(old(self).csr.links(), w) + (if w == u {
                    pushed as int
                } else {
                    0
                }) - (if w == source {
                    pushed as int
                } else {
                    0
                }),
            forall|a: int|
                0 <= a < old(self).csr.inside_edge_list@.len() && (old(visited)@[old(self).csr.tail(a)] || old(visited)@[old(self).csr.inside_edge_list@[a].to as int]) ==> #[trigger] final(self).csr.inside_edge_list@[a]
                    == old(self).csr.inside_edge_list@[a],
        decreases occurrences(old(visited)@, false),
    {
        if u == source {
            return flow;
        }
        visited[u] = true;
        proof {
            assert(self.csr.start@[u as int] <= self.csr.start@[u + 1]);
            assert(self.csr.start@[u + 1] <= self.csr.start@[self.csr.num_nodes as int]);
        }
        let last = self.csr.start[u + 1];
        let mut i = self.current_edge[u];
        while i < last
            invariant
                self.csr.same_shape(&old(self).csr),
                self.csr.inside_edge_list@ == old(self).csr.inside_edge_list@,
                self.csr.distances == old(self).csr.distances,
                self.excesses == old(self).excesses,
                self.active_nodes == old(self).active_nodes,
                self.distance_count == old(self).distance_count,
                self.alpha == old(self).alpha,
                self.csr.wf(),
                self.current_edge@.len() == self.csr.num_nodes,
                old(self).current_edge@.len() == old(self).csr.num_nodes,
                forall|w: int|
                    0 <= w < self.csr.num_nodes ==> self.csr.start@[w] <= #[trigger] self.current_edge@[w]
                        <= self.csr.start@[w + 1],
                u < self.csr.num_nodes,
                source < self.csr.num_nodes,
                u != source,
                flow > 0,
                last == self.csr.start@[u + 1],
                self.csr.start@[u as int] <= i <= last,
                last <= self.csr.inside_edge_list@.len(),
                visited@.len() == old(visited)@.len(),
                visited@.len() == self.csr.num_nodes,
                !old(visited)@[u as int],
                visited@[u as int],
                !visited@[source as int],
                forall|w: int| 0 <= w < old(visited)@.len() && old(visited)@[w] ==> visited@[w],
            decreases last - i,
        {
            self.current_edge[u] = i;
            proof {
                self.csr.lemma_tail(u as int, i as int);
            }
            let to = self.csr.inside_edge_list[i].to;
            let residual_capacity = self.csr.inside_edge_list[i].residual_capacity();
            if !visited[to] && residual_capacity != 0 {
                let ghost before = self.csr;
                proof {
                    lemma_fewer_unset(old(visited)@, visited@, u as int);
                }
                let limit = if flow < residual_capacity {
                    flow
                } else {
                    residual_capacity
                };
                let delta = self.dfs(to, source, limit, visited);
                if delta > 0 {
                    proof {
                        assert(self.csr.inside_edge_list@[i as int] == before.inside_edge_list@[i as int]);
                    }
                    let ghost below = self.csr;
                    self.csr.push_flow(i, delta);
                    proof {
                        assert(below.tail(i as int) == u) by {
                            below.lemma_tail(u as int, i as int);
                        }
                        assert(below.inside_edge_list@[i as int].to == to);
                        assert(before.links() =~= old(self).csr.links());
                        assert forall|w: int|
                            #[trigger] net_out(self.csr.links(), w) == net_out(old(self).csr.links(), w) + (if w == u {
                                delta as int
                            } else {
                                0
                            }) - (if w == source {
                                delta as int
                            } else {
                                0
                            }) by {
                            assert(net_out(self.csr.links(), w) == net_out(below.links(), w) + (if w == u {
                                delta as int
                            } else {
                                0
                            }) - (if w == to {
                                delta as int
                            } else {
                                0
                            }));
                            assert(net_out(below.links(), w) == net_out(before.links(), w) + (if w == to {
                                delta as int
                            } else {
                                0
                            }) - (if w == source {
                                delta as int
                            } else {
                                0
                            }));
                        }
                        assert forall|a: int|
                            0 <= a < before.inside_edge_list@.len() && (old(visited)@[before.tail(a)] || old(visited)@[before.inside_edge_list@[a].to as int]) implies #[trigger] self.csr.inside_edge_list@[a]
                            == before.inside_edge_list@[a] by {
                            assert(before.arc_ok(a));
                            assert(before.arc_ok(i as int));
                            assert(before.arc_ok(before.inside_edge_list@[i as int].rev as int));
                        }
                    }
                    return delta;
                }
            }
            i += 1;
        }
        proof {
            assert(self.csr.links() =~= old(self).csr.links());
        }
        0
    }
}

/// The least label that makes one of the arcs out of node `u` before
/// `upto` that has residual capacity admissible, which is the label of
/// its head and one; the number of nodes where that is less or there is
/// no such arc.
pub open spec fn least_label(csr: &CSR, u: int, upto: int) -> int
    decreases upto - csr.start@[u],
{
    if upto <= csr.start@[u] {
        csr.num_nodes as int
    } else {
        let rest = least_label(csr, u, upto - 1);
        let label = csr.distances@[csr.inside_edge_list@[upto - 1].to as int] + 1;
        if csr.residual(upto - 1) > 0 && label < rest {
            label
        } else {
            rest
        }
    }
}

/// How much less excess the first `upto` nodes other than `source` hold
/// in `now` than in `before`.
pub open spec fn returned(now: Seq<i64>, before: Seq<i64>, source: int, upto: int) -> int
    decreases upto,
{
    if upto <= 0 {
        0
    } else {
        returned(now, before, source, upto - 1) + (if upto - 1 == source {
            0
        } else {
            before[upto - 1] - now[upto - 1]
        })
    }
}

/// Nothing is returned where the excesses are as before.
pub proof fn lemma_returned_none(excesses: Seq<i64>, source: int, upto: int)
    ensures
        returned(excesses, excesses, source, upto) == 0,
    decreases upto,
{
    if upto > 0 {
        lemma_returned_none(excesses, source, upto - 1);
    }
}

/// What node `u` gives up of its excess is returned in addition.
pub proof fn lemma_returned_more(now: Seq<i64>, held: Seq<i64>, before: Seq<i64>, source: int, upto: int, u: int)
    requires
        now.len() == held.len(),
        0 <= u < held.len(),
        u != source,
        forall|w: int| 0 <= w < held.len() && w != u ==> now[w] == held[w],
        upto <= held.len(),
    ensures
        returned(now, before, source, upto) == returned(held, before, source, upto) + (if u < upto {
            held[u] - now[u]
        } else {
            0
        }),
    decreases upto,
{
    if upto > 0 {
        lemma_returned_more(now, held, before, source, upto - 1, u);
    }
}

} // verus!
