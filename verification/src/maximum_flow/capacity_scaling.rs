use crate::arith::div_nonneg;
use crate::counting::{lemma_contains_after_pop_front, lemma_contains_after_push, lemma_occurrences_all, lemma_occurrences_overwrite, lemma_occurrences_positive, occurrences};
use crate::maximum_flow::csr::CSR;
use crate::maximum_flow::cut::{is_flow, lemma_saturated_cut_blocks_paths, lemma_saturated_cut_is_maximum};
use crate::maximum_flow::graph::Graph;
use crate::maximum_flow::status::Status;
use crate::network::{
    capacity_sum, lemma_capacity_sum_same_network, lemma_net_out_bounded, lemma_net_out_zero_flow,
    lemma_same_network_transitive, net_out, same_network,
};
use std::collections::VecDeque;
use vstd::prelude::*;

verus! {

/// Maximum flow by blocking flows over the arcs that can take at least
/// `delta` more, for `delta` going down through the powers of two.
pub struct CapacityScaling {
    pub csr: CSR,
    pub current_edge: Vec<usize>,
    pub que: VecDeque<usize>,
}

impl Default for CapacityScaling {
    fn default() -> (solver: Self)
        ensures
            solver.csr.num_nodes == 0,
            solver.csr.num_edges == 0,
            solver.current_edge@.len() == 0,
            solver.que@.len() == 0,
    {
        CapacityScaling { csr: CSR::default(), current_edge: Vec::new(), que: VecDeque::new() }
    }
}

/// Arc `a` leads from `w` one level down and can take `delta` more.
pub open spec fn descends_above(csr: &CSR, w: int, a: int, delta: int) -> bool {
    &&& 0 <= a < csr.inside_edge_list@.len()
    &&& csr.tail(a) == w
    &&& csr.residual(a) >= delta
    &&& csr.distances@[w] == csr.distances@[csr.inside_edge_list@[a].to as int] + 1
}

/// Some arc that can take `delta` more leads from `w` one level down.
#[verifier::opaque]
pub open spec fn has_descent_above(csr: &CSR, w: int, delta: int) -> bool {
    exists|a: int| descends_above(csr, w, a, delta)
}

/// Every labelled node other than `source` has labelled all nodes from
/// which an arc that can take `delta` more leads to it.
pub open spec fn labels_closed_above(csr: &CSR, source: int, delta: int) -> bool {
    forall|a: int|
        0 <= a < csr.inside_edge_list@.len() && csr.distances@[csr.tail(a)] < csr.num_nodes && csr.tail(a) != source
            && csr.residual((#[trigger] csr.inside_edge_list@[a]).rev as int) >= delta
            ==> csr.distances@[csr.inside_edge_list@[a].to as int] < csr.num_nodes
}

impl CapacityScaling {
    /// Every node has a current arc among its own arcs, or just behind them.
    pub open spec fn pointers_ok(&self) -> bool {
        &&& self.current_edge@.len() == self.csr.num_nodes
        &&& forall|w: int|
            0 <= w < self.csr.num_nodes ==> self.csr.start@[w] <= #[trigger] self.current_edge@[w]
                <= self.csr.start@[w + 1]
    }

    /// Every node below `level`, the sink apart, has at or behind its
    /// current arc an arc that can take `delta` more and leads one level down.
    pub open spec fn productive(&self, sink: int, level: int, delta: int) -> bool {
        forall|w: int|
            0 <= w < self.csr.num_nodes && w != sink && self.csr.distances@[w] < level
                ==> #[trigger] self.has_open_descent(w, delta)
    }

    /// At or behind the current arc of `w`, some arc that can take `delta`
    /// more leads from `w` one level down.
    #[verifier::opaque]
    pub open spec fn has_open_descent(&self, w: int, delta: int) -> bool {
        exists|a: int| descends_above(&self.csr, w, a, delta) && self.current_edge@[w] <= a
    }

    /// Computes a maximum flow from `source` to `sink` and stores it in `graph`.
    pub fn solve(&mut self, source: usize, sink: usize, graph: &mut Graph) -> (status: Status)
        requires
            old(graph).solvable(source, sink),
        ensures
            status == Status::Optimal,
            final(graph).solves(old(graph), source, sink),
    {
        self.csr.build(graph);
        let n = self.csr.num_nodes;
        self.current_edge = vec![0usize; n];

        let mut max_capacity: i64 = 0;
        for i in 0..self.csr.inside_edge_list.len()
            invariant
                self.csr.wf(),
                self.csr.num_nodes == n,
                0 <= max_capacity,
                forall|a: int| 0 <= a < i ==> (#[trigger] self.csr.inside_edge_list@[a]).upper <= max_capacity,
        {
            if self.csr.inside_edge_list[i].upper > max_capacity {
                max_capacity = self.csr.inside_edge_list[i].upper;
            }
        }
        let mut delta: i64 = if max_capacity >= 1 { 1 } else { 0 };
        let half_capacity = div_nonneg(max_capacity, 2);
        while delta >= 1 && delta <= half_capacity
            invariant
                0 <= delta <= max_capacity,
                max_capacity >= 1 ==> delta >= 1,
                half_capacity == max_capacity / 2,
            decreases max_capacity - delta,
        {
            delta *= 2;
        }

        let upper = self.csr.capacity_at(source);
        let mut flow: i64 = 0;
        let ghost total = capacity_sum(graph.links());
        let ghost mut side: Set<int> = Set::new(|w: int| w == source);
        proof {
            lemma_capacity_sum_same_network(self.csr.links(), graph.links());
            assert forall|w: int| net_out(self.csr.links(), w) == 0 by {
                lemma_net_out_zero_flow(self.csr.links(), w);
            }
            if delta == 0 {
                assert forall|a: int|
                    0 <= a < self.csr.inside_edge_list@.len() && side.contains(self.csr.tail(a)) && self.csr.residual(a)
                        > 0 implies side.contains((#[trigger] self.csr.inside_edge_list@[a]).to as int) by {
                    assert(self.csr.arc_ok(a));
                }
            }
        }
        while delta > 0
            invariant
                self.csr.wf(),
                self.csr.num_nodes == n,
                self.current_edge@.len() == n,
                source < n,
                sink < n,
                source != sink,
                0 <= delta,
                same_network(self.csr.links(), graph.links()),
                total == capacity_sum(self.csr.links()),
                total <= i64::MAX,
                flow == net_out(self.csr.links(), source as int),
                forall|w: int| w != source && w != sink ==> #[trigger] net_out(self.csr.links(), w) == 0,
                forall|a: int|
                    self.csr.leaves(source as int, a) ==> (#[trigger] self.csr.inside_edge_list@[a]).upper <= upper,
                delta == 0 ==> {
                    &&& side.contains(source as int)
                    &&& !side.contains(sink as int)
                    &&& self.csr.closed_under_residual(side)
                },
            decreases delta,
        {
            let mut searching = true;
            while searching
                invariant
                    self.csr.wf(),
                    self.csr.num_nodes == n,
                    self.current_edge@.len() == n,
                    source < n,
                    sink < n,
                    source != sink,
                    delta >= 1,
                    same_network(self.csr.links(), graph.links()),
                    total == capacity_sum(self.csr.links()),
                    total <= i64::MAX,
                    flow == net_out(self.csr.links(), source as int),
                    forall|w: int| w != source && w != sink ==> #[trigger] net_out(self.csr.links(), w) == 0,
                    forall|a: int|
                        self.csr.leaves(source as int, a) ==> (#[trigger] self.csr.inside_edge_list@[a]).upper <= upper,
                    !searching ==> {
                        &&& self.csr.distances@[sink as int] == 0
                        &&& self.csr.distances@[source as int] == n
                        &&& labels_closed_above(&self.csr, source as int, delta as int)
                    },
                decreases total - net_out(self.csr.links(), source as int), searching as int,
            {
                let ghost unlabelled = self.csr;
                self.bfs(source, sink, delta);
                proof {
                    assert(self.csr.links() =~= unlabelled.links());
                }
                if self.csr.distances[source] >= n {
                    searching = false;
                } else {
                    let ghost before = self.csr;
                    for u in 0..n
                        invariant
                            self.csr == before,
                            self.csr.wf(),
                            self.csr.num_nodes == n,
                            self.current_edge@.len() == n,
                            forall|w: int| 0 <= w < u ==> #[trigger] self.current_edge@[w] == self.csr.start@[w],
                    {
                        self.current_edge[u] = self.csr.start[u];
                    }
                    proof {
                        assert forall|w: int|
                            0 <= w < n && w != sink && self.csr.distances@[w] < n implies #[trigger] self.has_open_descent(
                            w,
                            delta as int,
                        ) by {
                            assert(has_descent_above(&self.csr, w, delta as int));
                            reveal(has_descent_above);
                            reveal(CapacityScaling::has_open_descent);
                            let a = choose|a: int| descends_above(&self.csr, w, a, delta as int);
                            assert(self.csr.arc_ok(a));
                        }
                        assert(upper > 0) by {
                            assert(has_descent_above(&self.csr, source as int, delta as int));
                            reveal(has_descent_above);
                            let a = choose|a: int| descends_above(&self.csr, source as int, a, delta as int);
                            assert(self.csr.arc_ok(a));
                            assert(self.csr.leaves(source as int, a));
                        }
                    }
                    match self.dfs(source, sink, upper, delta) {
                        Some(pushed) => {
                            proof {
                                self.csr.lemma_links_within_capacity();
                                lemma_net_out_bounded(self.csr.links(), source as int);
                                self.csr.lemma_same_shape_same_network(&before);
                                lemma_capacity_sum_same_network(self.csr.links(), before.links());
                                lemma_same_network_transitive(self.csr.links(), before.links(), graph.links());
                            }
                            flow += pushed;
                        },
                        None => {
                            searching = false;
                        },
                    }
                }
            }
            proof {
                if delta == 1 {
                    side = self.csr.unreaching();
                    assert(self.csr.labels_closed(source as int)) by {
                        assert forall|a: int|
                            0 <= a < self.csr.inside_edge_list@.len() && self.csr.distances@[self.csr.tail(a)]
                                < self.csr.num_nodes && self.csr.tail(a) != source && (
                            #[trigger] self.csr.inside_edge_list@[a]).flow > 0 implies self.csr.distances@[self.csr.inside_edge_list@[a].to as int]
                            < self.csr.num_nodes by {
                            assert(self.csr.arc_ok(a));
                            assert(self.csr.arc_ok(self.csr.inside_edge_list@[a].rev as int));
                        }
                    }
                    self.csr.lemma_unreaching_is_closed(source as int);
                }
            }
            delta = div_nonneg(delta, 2);
        }
        proof {
            self.csr.lemma_closed_set_is_cut(side, source as int, sink as int);
            self.csr.lemma_links_within_capacity();
            assert(is_flow(self.csr.links(), n as int, source as int, sink as int));
            lemma_saturated_cut_is_maximum(self.csr.links(), side, n as int, source as int, sink as int);
            lemma_saturated_cut_blocks_paths(self.csr.links(), side, source as int, sink as int);
        }
        self.csr.set_flow(graph);
        Status::Optimal
    }

    /// Labels every node with its distance to `sink` over the arcs that can
    /// take `delta` more, by a breadth-first search backwards from `sink`
    /// that does not go on beyond `source`. Nodes that it does not reach get
    /// the label `num_nodes`.
    fn bfs(&mut self, source: usize, sink: usize, delta: i64)
        requires
            old(self).csr.wf(),
            source < old(self).csr.num_nodes,
            sink < old(self).csr.num_nodes,
            delta >= 1,
        ensures
            final(self).current_edge == old(self).current_edge,
            final(self).csr.wf(),
            final(self).csr.same_shape(&old(self).csr),
            final(self).csr.inside_edge_list@ == old(self).csr.inside_edge_list@,
            final(self).csr.distances@[sink as int] == 0,
            labels_closed_above(&final(self).csr, source as int, delta as int),
            forall|w: int|
                0 <= w < final(self).csr.num_nodes && w != sink && final(self).csr.distances@[w] < final(self).csr.num_nodes
                    ==> #[trigger] has_descent_above(&final(self).csr, w, delta as int),
    {
        let n = self.csr.num_nodes;
        self.que.clear();
        self.que.push_back(sink);
        for u in 0..n
            invariant
                self.csr.wf(),
                self.csr.same_shape(&old(self).csr),
                self.current_edge == old(self).current_edge,
                self.csr.inside_edge_list@ == old(self).csr.inside_edge_list@,
                n == self.csr.num_nodes,
                self.que@ == seq![sink],
                forall|w: int| 0 <= w < u ==> #[trigger] self.csr.distances@[w] == n,
        {
            self.csr.distances[u] = n;
        }
        let ghost labels_unset = self.csr.distances@;
        self.csr.distances[sink] = 0;

        let ghost mut done: Seq<bool> = Seq::new(n as nat, |u: int| false);
        let ghost mut descent: Seq<int> = Seq::new(n as nat, |u: int| 0int);
        let ghost mut levels: int = 1;
        proof {
            assert(self.que@[0] == sink);
            assert(self.que@.contains(sink));
            lemma_occurrences_all(labels_unset, n);
            lemma_occurrences_overwrite(labels_unset, sink as int, n, 0usize);
        }
        while self.que.len() > 0
            invariant
                self.csr.wf(),
                self.csr.same_shape(&old(self).csr),
                self.current_edge == old(self).current_edge,
                self.csr.inside_edge_list@ == old(self).csr.inside_edge_list@,
                n == self.csr.num_nodes,
                source < n,
                sink < n,
                done.len() == n,
                descent.len() == n,
                self.csr.distances@[sink as int] == 0,
                occurrences(self.csr.distances@, n) + levels <= n,
                forall|w: int| 0 <= w < n && #[trigger] self.csr.distances@[w] < n ==> self.csr.distances@[w] < levels,
                forall|i: int| 0 <= i < self.que@.len() ==> #[trigger] self.que@[i] < n && self.csr.distances@[self.que@[i] as int] < n,
                forall|a: int|
                    0 <= a < self.csr.inside_edge_list@.len() && done[self.csr.tail(a)] && self.csr.residual((#[trigger] self.csr.inside_edge_list@[a]).rev as int) >= delta ==> self.csr.distances@[self.csr.inside_edge_list@[a].to as int] < n,
                forall|v: int|
                    0 <= v < n && #[trigger] self.csr.distances@[v] < n && v != source && !done[v] ==> self.que@.contains(
                        v as usize,
                    ),
                forall|w: int|
                    0 <= w < n && #[trigger] self.csr.distances@[w] < n && w != sink ==> descends_above(&self.csr, w, descent[w], delta as int),
            decreases 2 * occurrences(self.csr.distances@, n) + self.que@.len(),
        {
            let ghost queue_before = self.que@;
            let v = self.que.pop_front().unwrap();
            let ghost measure = 2 * occurrences(self.csr.distances@, n) + self.que@.len();
            proof {
                assert(queue_before[0] == v);
                assert forall|i: int| 0 <= i < self.que@.len() implies #[trigger] self.que@[i] < n && self.csr.distances@[self.que@[i] as int] < n by {
                    assert(self.que@[i] == queue_before[i + 1]);
                }
                assert forall|u: int|
                    0 <= u < n && #[trigger] self.csr.distances@[u] < n && u != source && !done[u] && u != v implies self.que@.contains(
                    u as usize,
                ) by {
                    lemma_contains_after_pop_front(queue_before, u as usize);
                }
                assert(self.csr.start@[v as int] <= self.csr.start@[v + 1]);
                assert(self.csr.start@[v + 1] <= self.csr.start@[n as int]);
            }
            let first = self.csr.start[v];
            let last = self.csr.start[v + 1];
            for a in first..last
                invariant
                    self.csr.wf(),
                    self.csr.same_shape(&old(self).csr),
                self.current_edge == old(self).current_edge,
                    self.csr.inside_edge_list@ == old(self).csr.inside_edge_list@,
                    n == self.csr.num_nodes,
                    source < n,
                    sink < n,
                    v < n,
                    first == self.csr.start@[v as int],
                    last == self.csr.start@[v + 1],
                    first <= last <= self.csr.inside_edge_list@.len(),
                    done.len() == n,
                    descent.len() == n,
                    self.csr.distances@[sink as int] == 0,
                    self.csr.distances@[v as int] < n,
                    occurrences(self.csr.distances@, n) + levels <= n,
                    forall|w: int| 0 <= w < n && #[trigger] self.csr.distances@[w] < n ==> self.csr.distances@[w] < levels,
                    forall|i: int| 0 <= i < self.que@.len() ==> #[trigger] self.que@[i] < n && self.csr.distances@[self.que@[i] as int] < n,
                    forall|b: int|
                        0 <= b < self.csr.inside_edge_list@.len() && done[self.csr.tail(b)] && self.csr.residual((#[trigger] self.csr.inside_edge_list@[b]).rev as int) >= delta ==> self.csr.distances@[self.csr.inside_edge_list@[b].to as int] < n,
                    forall|b: int|
                        first <= b < a && self.csr.residual((#[trigger] self.csr.inside_edge_list@[b]).rev as int) >= delta
                            ==> self.csr.distances@[self.csr.inside_edge_list@[b].to as int] < n,
                    forall|u: int|
                        0 <= u < n && #[trigger] self.csr.distances@[u] < n && u != source && !done[u] && u != v
                            ==> self.que@.contains(u as usize),
                    forall|w: int|
                        0 <= w < n && #[trigger] self.csr.distances@[w] < n && w != sink ==> descends_above(&self.csr, w, descent[w], delta as int),
                    2 * occurrences(self.csr.distances@, n) + self.que@.len() <= measure,
            {
                proof {
                    self.csr.lemma_tail(v as int, a as int);
                }
                let to = self.csr.inside_edge_list[a].to;
                let back = self.csr.inside_edge_list[a].rev;
                if self.csr.inside_edge_list[back].residual_capacity() >= delta && self.csr.distances[to] == n {
                    let ghost labels_before = self.csr.distances@;
                    let ghost queue_now = self.que@;
                    proof {
                        lemma_occurrences_positive(labels_before, to as int, n);
                    }
                    self.csr.distances[to] = self.csr.distances[v] + 1;
                    proof {
                        lemma_occurrences_overwrite(labels_before, to as int, n, self.csr.distances@[to as int]);
                        if self.csr.distances@[to as int] >= levels {
                            levels = levels + 1;
                        }
                        let r = self.csr.inside_edge_list@[a as int].rev as int;
                        assert(self.csr.arc_ok(r));
                        descent = descent.update(to as int, r);
                        assert(descends_above(&self.csr, to as int, r, delta as int));
                        assert forall|w: int|
                            0 <= w < n && #[trigger] self.csr.distances@[w] < n && w != sink implies descends_above(
                            &self.csr,
                            w,
                            descent[w],
                            delta as int,
                        ) by {
                            if w != to {
                                assert(labels_before[w] < n);
                                let b = descent[w];
                                assert(labels_before[self.csr.inside_edge_list@[b].to as int] < n);
                            }
                        }
                    }
                    if to != source {
                        self.que.push_back(to);
                        proof {
                            assert forall|u: int|
                                0 <= u < n && #[trigger] self.csr.distances@[u] < n && u != source && !done[u] && u != v implies self.que@.contains(
                                u as usize,
                            ) by {
                                if u != to {
                                    assert(labels_before[u] < n);
                                }
                                lemma_contains_after_push(queue_now, to, u as usize);
                            }
                        }
                    }
                }
            }
            proof {
                done = done.update(v as int, true);
                assert forall|b: int|
                    0 <= b < self.csr.inside_edge_list@.len() && done[self.csr.tail(b)] && self.csr.residual((#[trigger] self.csr.inside_edge_list@[b]).rev as int) >= delta implies self.csr.distances@[self.csr.inside_edge_list@[b].to as int] < n by {
                    assert(self.csr.arc_ok(b));
                }
            }
        }
        proof {
            assert forall|w: int|
                0 <= w < self.csr.num_nodes && w != sink && self.csr.distances@[w] < self.csr.num_nodes implies #[trigger] has_descent_above(
                &self.csr,
                w,
                delta as int,
            ) by {
                reveal(has_descent_above);
                assert(descends_above(&self.csr, w, descent[w], delta as int));
            }
        }
    }


    /// Pushes up to `upper` from `u` to `sink` along admissible arcs, each
    /// that can take `delta` more, each node going on from its current arc,
    /// and relabels `u` as exhausted
    /// when it cannot pass on all of `upper`.
    fn dfs(&mut self, u: usize, sink: usize, upper: i64, delta: i64) -> (pushed: Option<i64>)
        requires
            old(self).csr.wf(),
            old(self).pointers_ok(),
            u < old(self).csr.num_nodes,
            sink < old(self).csr.num_nodes,
            old(self).csr.distances@[sink as int] == 0,
            old(self).csr.distances@[u as int] < old(self).csr.num_nodes,
            upper >= 0,
            delta >= 1,
        ensures
            final(self).csr.wf(),
            final(self).pointers_ok(),
            final(self).csr.same_shape(&old(self).csr),
            final(self).csr.distances@[sink as int] == 0,
            pushed matches Some(res) && 0 <= res <= upper && {
                &&& forall|w: int|
                    #[trigger] net_out(final(self).csr.links(), w) == net_out(old(self).csr.links(), w) + (if w == u {
                        res as int
                    } else {
                        0
                    }) - (if w == sink {
                        res as int
                    } else {
                        0
                    })
                &&& (upper > 0 && old(self).productive(sink as int, old(self).csr.distances@[u as int] + 1, delta as int) ==> res
                    > 0)
            },
            forall|a: int|
                0 <= a < old(self).csr.inside_edge_list@.len() && old(self).csr.distances@[old(self).csr.tail(a)] > old(self).csr.distances@[u as int] ==> #[trigger] final(self).csr.inside_edge_list@[a] == old(self).csr.inside_edge_list@[a],
            forall|w: int|
                0 <= w < old(self).csr.num_nodes ==> #[trigger] final(self).csr.distances@[w] == old(self).csr.distances@[w] || final(self).csr.distances@[w] == old(self).csr.num_nodes,
            forall|w: int|
                0 <= w < old(self).csr.num_nodes && w != u && old(self).csr.distances@[w] >= old(self).csr.distances@[u as int] ==> #[trigger] final(self).csr.distances@[w] == old(self).csr.distances@[w],
        decreases old(self).csr.distances@[u as int],
    {
        if u == sink {
            return Some(upper);
        }
        let ghost level = self.csr.distances@[u as int];
        let ghost promising = upper > 0 && self.productive(sink as int, level + 1, delta as int);
        let ghost goal: int = if promising {
            choose|a: int| descends_above(&self.csr, u as int, a, delta as int) && self.current_edge@[u as int] <= a
        } else {
            0
        };
        proof {
            if promising {
                assert(self.has_open_descent(u as int, delta as int));
                reveal(CapacityScaling::has_open_descent);
            }
            assert(self.csr.start@[u as int] <= self.csr.start@[u + 1]);
            assert(self.csr.start@[u + 1] <= self.csr.start@[self.csr.num_nodes as int]);
            if promising {
                assert(self.csr.arc_ok(goal));
            }
        }
        let mut res: i64 = 0;
        let mut i = self.current_edge[u];
        let last = self.csr.start[u + 1];
        let mut full = false;
        while i < last && !full
            invariant
                self.csr.wf(),
                old(self).csr.wf(),
                self.pointers_ok(),
                self.csr.same_shape(&old(self).csr),
                u < self.csr.num_nodes,
                sink < self.csr.num_nodes,
                u != sink,
                level == old(self).csr.distances@[u as int],
                level < self.csr.num_nodes,
                self.csr.distances@[sink as int] == 0,
                self.csr.distances@[u as int] == level,
                last == self.csr.start@[u + 1],
                self.csr.start@[u as int] <= i <= last,
                last <= self.csr.inside_edge_list@.len(),
                0 <= res <= upper,
                full ==> res == upper,
                promising == (upper > 0 && old(self).productive(sink as int, level + 1, delta as int)),
                promising ==> descends_above(&old(self).csr, u as int, goal, delta as int) && goal < last,
                delta >= 1,
                old(self).pointers_ok(),
                promising && res == 0 ==> {
                    &&& i <= goal
                    &&& !full
                    &&& self.csr.inside_edge_list@ == old(self).csr.inside_edge_list@
                    &&& self.csr.distances@ == old(self).csr.distances@
                    &&& forall|w: int| 0 <= w < self.csr.num_nodes && w != u ==> #[trigger] self.current_edge@[w] == old(self).current_edge@[w]
                },
                forall|w: int|
                    #[trigger] net_out(self.csr.links(), w) == net_out(old(self).csr.links(), w) + (if w == u {
                        res as int
                    } else {
                        0
                    }) - (if w == sink {
                        res as int
                    } else {
                        0
                    }),
                forall|a: int|
                    0 <= a < self.csr.inside_edge_list@.len() && old(self).csr.distances@[old(self).csr.tail(a)] > level
                        ==> #[trigger] self.csr.inside_edge_list@[a] == old(self).csr.inside_edge_list@[a],
                forall|w: int|
                    0 <= w < self.csr.num_nodes ==> #[trigger] self.csr.distances@[w] == old(self).csr.distances@[w]
                        || self.csr.distances@[w] == self.csr.num_nodes,
                forall|w: int|
                    0 <= w < self.csr.num_nodes && old(self).csr.distances@[w] >= level
                        ==> #[trigger] self.csr.distances@[w] == old(self).csr.distances@[w],
            decreases last - i, !full as int,
        {
            self.current_edge[u] = i;
            proof {
                self.csr.lemma_tail(u as int, i as int);
            }
            let v = self.csr.inside_edge_list[i].to;
            let residual_capacity = self.csr.inside_edge_list[i].residual_capacity();
            if self.csr.is_admissible_edge(u, i) && residual_capacity >= delta {
                let ghost before = *self;
                let limit = if residual_capacity < upper - res {
                    residual_capacity
                } else {
                    upper - res
                };
                proof {
                    if promising && res == 0 {
                        assert forall|w: int|
                            0 <= w < self.csr.num_nodes && w != sink && self.csr.distances@[w] < self.csr.distances@[v as int]
                                + 1 implies #[trigger] self.has_open_descent(w, delta as int) by {
                            assert(old(self).has_open_descent(w, delta as int));
                            reveal(CapacityScaling::has_open_descent);
                            let a = choose|a: int| descends_above(&old(self).csr, w, a, delta as int) && old(self).current_edge@[w] <= a;
                            assert(descends_above(&self.csr, w, a, delta as int));
                        }
                    }
                }
                if let Some(d) = self.dfs(v, sink, limit, delta) {
                    let ghost below = self.csr;
                    proof {
                        assert(before.csr.arc_ok(i as int));
                        assert(before.csr.tail(i as int) == u);
                        assert(below.inside_edge_list@[i as int] == before.csr.inside_edge_list@[i as int]);
                        below.lemma_tail(u as int, i as int);
                    }
                    self.csr.push_flow(i, d);
                    res += d;
                    if res == upper {
                        full = true;
                    }
                    proof {
                        let back = before.csr.inside_edge_list@[i as int].rev as int;
                        assert(before.csr.arc_ok(back));
                        assert(old(self).csr.arc_ok(i as int));
                        assert(old(self).csr.arc_ok(back));
                        assert forall|a: int|
                            0 <= a < self.csr.inside_edge_list@.len() && old(self).csr.distances@[old(self).csr.tail(a)]
                                > level implies #[trigger] self.csr.inside_edge_list@[a] == old(self).csr.inside_edge_list@[a] by {
                            assert(old(self).csr.arc_ok(a));
                            assert(before.csr.inside_edge_list@[a] == old(self).csr.inside_edge_list@[a]);
                            assert(before.csr.tail(a) == old(self).csr.tail(a));
                            assert(below.inside_edge_list@[a] == before.csr.inside_edge_list@[a]);
                        }
                        assert forall|w: int|
                            #[trigger] net_out(self.csr.links(), w) == net_out(old(self).csr.links(), w) + (if w == u {
                                res as int
                            } else {
                                0
                            }) - (if w == sink {
                                res as int
                            } else {
                                0
                            }) by {
                            assert(net_out(self.csr.links(), w) == net_out(below.links(), w) + (if w == u {
                                d as int
                            } else {
                                0
                            }) - (if w == v {
                                d as int
                            } else {
                                0
                            }));
                            assert(net_out(below.links(), w) == net_out(before.csr.links(), w) + (if w == v {
                                d as int
                            } else {
                                0
                            }) - (if w == sink {
                                d as int
                            } else {
                                0
                            }));
                        }
                    }
                }
            }
            if !full {
                i += 1;
            }
        }
        if full {
            return Some(res);
        }
        self.current_edge[u] = self.csr.start[u + 1];
        let ghost pushed_through = self.csr;
        self.csr.distances[u] = self.csr.num_nodes;
        proof {
            assert(self.csr.links() =~= pushed_through.links());
        }
        Some(res)
    }
}

} // verus!
