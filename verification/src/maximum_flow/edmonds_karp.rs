use crate::counting::{lemma_contains_after_pop_front, lemma_contains_after_push, lemma_occurrences_overwrite, occurrences};
use crate::maximum_flow::csr::CSR;
use crate::maximum_flow::cut::{is_flow, lemma_saturated_cut_blocks_paths, lemma_saturated_cut_is_maximum};
use crate::maximum_flow::graph::Graph;
use crate::maximum_flow::status::Status;
use crate::network::{
    capacity_sum, lemma_capacity_sum_same_network, lemma_net_out_bounded, lemma_net_out_zero_flow,
    lemma_same_network_transitive, net_out, same_network,
};
use std::collections::VecDeque;
use vstd::prelude::*;

verus! {

/// Maximum flow by repeated breadth-first search for an augmenting path.
pub struct EdmondsKarp {
    pub csr: CSR,
}

impl Default for EdmondsKarp {
    fn default() -> (solver: Self)
        ensures
            solver.csr.num_nodes == 0,
            solver.csr.num_edges == 0,
    {
        EdmondsKarp { csr: CSR::default() }
    }
}

/// `prev[w]` names a visited node and an arc with residual capacity that
/// leads from that node to `w`.
pub open spec fn reached_by(csr: &CSR, prev: Seq<(usize, usize)>, visited: Seq<bool>, w: int) -> bool {
    let (p, e) = prev[w];
    &&& p < csr.num_nodes
    &&& csr.leaves(p as int, e as int)
    &&& csr.inside_edge_list@[e as int].to == w
    &&& csr.residual(e as int) > 0
    &&& visited[p as int]
}

/// The visited nodes form a tree rooted at `source`: every other visited node
/// was reached from a node that was visited earlier.
pub open spec fn is_search_tree(
    csr: &CSR,
    prev: Seq<(usize, usize)>,
    visited: Seq<bool>,
    rank: Seq<int>,
    source: int,
) -> bool {
    &&& prev.len() == csr.num_nodes
    &&& visited.len() == csr.num_nodes
    &&& rank.len() == csr.num_nodes
    &&& visited[source]
    &&& forall|w: int|
        0 <= w < csr.num_nodes && visited[w] && w != source ==> reached_by(csr, prev, visited, w) && 0 <= rank[(
        #[trigger] prev[w]).0 as int] < rank[w]
}

/// The nodes marked in `on_path` form a tree path that leads down from
/// `end`, and every arc of that path can take `delta` more.
pub open spec fn is_tree_path(
    csr: &CSR,
    prev: Seq<(usize, usize)>,
    visited: Seq<bool>,
    on_path: Seq<bool>,
    end: int,
    delta: int,
) -> bool {
    &&& on_path.len() == csr.num_nodes
    &&& forall|w: int|
        0 <= w < csr.num_nodes && on_path[w] && (#[trigger] prev[w]).0 >= 0 ==> visited[w] && w != end && delta
            <= csr.residual(prev[w].1 as int) && (on_path[prev[w].0 as int] || prev[w].0 == end)
}

impl EdmondsKarp {
    /// Computes a maximum flow from `source` to `sink` and stores it in `graph`.
    pub fn solve(&mut self, source: usize, sink: usize, graph: &mut Graph) -> (status: Status)
        requires
            old(graph).solvable(source, sink),
        ensures
            status == Status::Optimal,
            final(graph).solves(old(graph), source, sink),
    {
        self.csr.build(graph);
        let n = self.csr.num_nodes;
        let mut prev: Vec<(usize, usize)> = vec![(usize::MAX, usize::MAX); n];
        let mut visited: Vec<bool> = vec![false; n];
        let ghost total = capacity_sum(graph.links());
        proof {
            lemma_capacity_sum_same_network(self.csr.links(), graph.links());
            assert forall|w: int| net_out(self.csr.links(), w) == 0 by {
                lemma_net_out_zero_flow(self.csr.links(), w);
            }
        }
        let mut searching = true;
        while searching
            invariant
                self.csr.wf(),
                self.csr.num_nodes == n,
                source < n,
                sink < n,
                source != sink,
                visited@.len() == n,
                prev@.len() == n,
                same_network(self.csr.links(), graph.links()),
                total == capacity_sum(self.csr.links()),
                forall|w: int| w != source && w != sink ==> #[trigger] net_out(self.csr.links(), w) == 0,
                !searching ==> {
                    &&& !visited@[sink as int]
                    &&& visited@[source as int]
                    &&& self.csr.closed_under_residual(Set::new(|w: int| 0 <= w < n && visited@[w]))
                },
            decreases total - net_out(self.csr.links(), source as int), searching as int,
        {
            let Ghost(rank) = self.search(source, sink, &mut prev, &mut visited);
            if !visited[sink] {
                searching = false;
            } else {
                let ghost before = self.csr;
                let (delta, Ghost(on_path)) = self.bottleneck(source, sink, &prev, &visited, Ghost(rank));
                self.augment(source, sink, &prev, &visited, delta, Ghost(rank), Ghost(on_path));
                proof {
                    self.csr.lemma_links_within_capacity();
                    lemma_net_out_bounded(self.csr.links(), source as int);
                    self.csr.lemma_same_shape_same_network(&before);
                    lemma_capacity_sum_same_network(self.csr.links(), before.links());
                    lemma_same_network_transitive(self.csr.links(), before.links(), graph.links());
                }
            }
        }
        proof {
            let side = Set::new(|w: int| 0 <= w < n && visited@[w]);
            self.csr.lemma_closed_set_is_cut(side, source as int, sink as int);
            self.csr.lemma_links_within_capacity();
            assert(is_flow(self.csr.links(), n as int, source as int, sink as int));
            lemma_saturated_cut_is_maximum(self.csr.links(), side, n as int, source as int, sink as int);
            lemma_saturated_cut_blocks_paths(self.csr.links(), side, source as int, sink as int);
        }
        self.csr.set_flow(graph);
        Status::Optimal
    }

    /// Breadth-first search from `source` along arcs with residual capacity,
    /// until `sink` is visited or no node is left to visit. `prev` records
    /// for every node from where and by which arc it was reached last.
    fn search(&self, source: usize, sink: usize, prev: &mut Vec<(usize, usize)>, visited: &mut Vec<bool>) -> (rank: Ghost<
        Seq<int>,
    >)
        requires
            self.csr.wf(),
            source < self.csr.num_nodes,
            sink < self.csr.num_nodes,
            source != sink,
            old(prev)@.len() == self.csr.num_nodes,
            old(visited)@.len() == self.csr.num_nodes,
        ensures
            is_search_tree(&self.csr, final(prev)@, final(visited)@, rank@, source as int),
            !final(visited)@[sink as int] ==> self.csr.closed_under_residual(
                Set::new(|w: int| 0 <= w < self.csr.num_nodes && final(visited)@[w]),
            ),
    {
        let n = self.csr.num_nodes;
        for w in 0..n
            invariant
                n == self.csr.num_nodes,
                visited@.len() == n,
                prev@.len() == n,
                forall|x: int| 0 <= x < w ==> !#[trigger] visited@[x],
        {
            prev[w] = (usize::MAX, usize::MAX);
            visited[w] = false;
        }
        let mut queue: VecDeque<usize> = VecDeque::new();
        queue.push_back(source);
        let ghost mut rank: Seq<int> = Seq::new(n as nat, |w: int| 0int);
        let ghost mut clock: int = 0;
        let mut reached = false;
        proof {
            assert(queue@[0] == source);
            assert(queue@.contains(source));
        }
        while !reached && queue.len() > 0
            invariant
                self.csr.wf(),
                n == self.csr.num_nodes,
                source < n,
                sink < n,
                source != sink,
                visited@.len() == n,
                prev@.len() == n,
                rank.len() == n,
                reached == visited@[sink as int],
                visited@[source as int] || (queue@.len() > 0 && queue@[0] == source && clock == 0 && forall|x: int|
                    0 <= x < n ==> !#[trigger] visited@[x]),
                forall|i: int| 0 <= i < queue@.len() ==> #[trigger] queue@[i] < n,
                forall|w: int| 0 <= w < n && #[trigger] visited@[w] ==> 0 <= rank[w] < clock,
                forall|w: int|
                    0 <= w < n && visited@[w] && w != source ==> reached_by(&self.csr, prev@, visited@, w) && 0
                        <= rank[(#[trigger] prev@[w]).0 as int] < rank[w],
                forall|i: int|
                    0 <= i < queue@.len() && !visited@[(#[trigger] queue@[i]) as int] && queue@[i] != source
                        ==> reached_by(&self.csr, prev@, visited@, queue@[i] as int),
                forall|a: int|
                    0 <= a < self.csr.inside_edge_list@.len() && visited@[self.csr.tail(a)] && self.csr.tail(a) != sink
                        && self.csr.residual(a) > 0 ==> visited@[(#[trigger] self.csr.inside_edge_list@[a]).to as int]
                        || queue@.contains(self.csr.inside_edge_list@[a].to),
            decreases occurrences(visited@, false), queue@.len(),
        {
            let ghost queue_before = queue@;
            let u = queue.pop_front().unwrap();
            proof {
                assert(queue_before[0] == u);
                assert(queue_before.contains(u));
                assert forall|i: int| 0 <= i < queue@.len() implies #[trigger] queue@[i] < n by {
                    assert(queue@[i] == queue_before[i + 1]);
                }
                assert forall|x: usize| x != u && queue_before.contains(x) implies queue@.contains(x) by {
                    lemma_contains_after_pop_front(queue_before, x);
                }
                assert forall|x: usize| queue@.contains(x) implies queue_before.contains(x) by {
                    let i = choose|i: int| 0 <= i < queue@.len() && queue@[i] == x;
                    assert(queue_before[i + 1] == x);
                }
            }
            if !visited[u] {
                let ghost seen = visited@;
                visited[u] = true;
                proof {
                    lemma_occurrences_overwrite(seen, u as int, false, true);
                    rank = rank.update(u as int, clock);
                    clock = clock + 1;
                    assert forall|w: int|
                        0 <= w < n && visited@[w] && w != source implies reached_by(
                        &self.csr,
                        prev@,
                        visited@,
                        w,
                    ) && 0 <= rank[(#[trigger] prev@[w]).0 as int] < rank[w] by {
                        if w == u {
                            assert(queue_before[0] == u);
                            assert(reached_by(&self.csr, prev@, seen, queue_before[0] as int));
                        } else {
                            assert(seen[w]);
                            assert(reached_by(&self.csr, prev@, seen, w));
                        }
                    }
                    assert forall|i: int|
                        0 <= i < queue@.len() && !visited@[(#[trigger] queue@[i]) as int] && queue@[i]
                            != source implies reached_by(&self.csr, prev@, visited@, queue@[i] as int) by {
                        assert(queue@[i] == queue_before[i + 1]);
                        assert(reached_by(&self.csr, prev@, seen, queue@[i] as int));
                    }
                }
                if u == sink {
                    reached = true;
                } else {
                    proof {
                        assert(self.csr.start@[u as int] <= self.csr.start@[u + 1]);
                        assert(self.csr.start@[u + 1] <= self.csr.start@[n as int]);
                    }
                    let first = self.csr.start[u];
                    let last = self.csr.start[u + 1];
                    for edge_id in first..last
                        invariant
                            self.csr.wf(),
                            n == self.csr.num_nodes,
                            source < n,
                            sink < n,
                            u < n,
                            u != sink,
                            visited@.len() == n,
                            prev@.len() == n,
                            rank.len() == n,
                            first == self.csr.start@[u as int],
                            last == self.csr.start@[u + 1],
                            first <= last <= self.csr.inside_edge_list@.len(),
                            visited@[u as int],
                            visited@[source as int],
                            !visited@[sink as int],
                            forall|i: int| 0 <= i < queue@.len() ==> #[trigger] queue@[i] < n,
                            forall|w: int| 0 <= w < n && #[trigger] visited@[w] ==> 0 <= rank[w] < clock,
                            forall|w: int|
                                0 <= w < n && visited@[w] && w != source ==> reached_by(
                                    &self.csr,
                                    prev@,
                                    visited@,
                                    w,
                                ) && 0 <= rank[(#[trigger] prev@[w]).0 as int] < rank[w],
                            forall|i: int|
                                0 <= i < queue@.len() && !visited@[(#[trigger] queue@[i]) as int] && queue@[i]
                                    != source ==> reached_by(&self.csr, prev@, visited@, queue@[i] as int),
                            forall|a: int|
                                0 <= a < self.csr.inside_edge_list@.len() && visited@[self.csr.tail(a)] && self.csr.tail(
                                    a,
                                ) != sink && self.csr.tail(a) != u && self.csr.residual(a) > 0 ==> visited@[(
                                #[trigger] self.csr.inside_edge_list@[a]).to as int] || queue@.contains(
                                    self.csr.inside_edge_list@[a].to,
                                ),
                            forall|a: int|
                                first <= a < edge_id && self.csr.residual(a) > 0 ==> visited@[(
                                #[trigger] self.csr.inside_edge_list@[a]).to as int] || queue@.contains(
                                    self.csr.inside_edge_list@[a].to,
                                ),
                    {
                        proof {
                            self.csr.lemma_tail(u as int, edge_id as int);
                        }
                        let to = self.csr.inside_edge_list[edge_id].to;
                        let residual = self.csr.inside_edge_list[edge_id].residual_capacity();
                        if !visited[to] && residual != 0 {
                            let ghost queue_now = queue@;
                            let ghost links_now = prev@;
                            queue.push_back(to);
                            prev[to] = (u, edge_id);
                            proof {
                                assert forall|x: usize| queue_now.contains(x) || x == to implies queue@.contains(x) by {
                                    lemma_contains_after_push(queue_now, to, x);
                                }
                                assert forall|x: usize| queue@.contains(x) implies queue_now.contains(x) || x == to by {
                                    let i = choose|i: int| 0 <= i < queue@.len() && queue@[i] == x;
                                    if i < queue_now.len() {
                                        assert(queue_now[i] == x);
                                    }
                                }
                                assert forall|w: int|
                                    0 <= w < n && visited@[w] && w != source implies reached_by(
                                    &self.csr,
                                    prev@,
                                    visited@,
                                    w,
                                ) && 0 <= rank[(#[trigger] prev@[w]).0 as int] < rank[w] by {
                                    assert(reached_by(&self.csr, links_now, visited@, w));
                                }
                                assert forall|i: int|
                                    0 <= i < queue@.len() && !visited@[(#[trigger] queue@[i]) as int] && queue@[i]
                                        != source implies reached_by(&self.csr, prev@, visited@, queue@[i] as int) by {
                                    if queue@[i] != to {
                                        assert(queue@[i] == queue_now[i]);
                                        assert(reached_by(&self.csr, links_now, visited@, queue@[i] as int));
                                    }
                                }
                                assert forall|a: int|
                                    first <= a < edge_id + 1 && self.csr.residual(a) > 0 implies visited@[(
                                #[trigger] self.csr.inside_edge_list@[a]).to as int] || queue@.contains(
                                    self.csr.inside_edge_list@[a].to,
                                ) by {
                                    let x = self.csr.inside_edge_list@[a].to;
                                    if !visited@[x as int] {
                                        if a < edge_id {
                                            assert(queue_now.contains(x));
                                        }
                                        lemma_contains_after_push(queue_now, to, x);
                                    }
                                }
                                assert forall|a: int|
                                    0 <= a < self.csr.inside_edge_list@.len() && visited@[self.csr.tail(a)]
                                        && self.csr.tail(a) != sink && self.csr.tail(a) != u && self.csr.residual(a)
                                        > 0 implies visited@[(#[trigger] self.csr.inside_edge_list@[a]).to as int]
                                    || queue@.contains(self.csr.inside_edge_list@[a].to) by {
                                    let x = self.csr.inside_edge_list@[a].to;
                                    if !visited@[x as int] {
                                        assert(queue_now.contains(x));
                                        lemma_contains_after_push(queue_now, to, x);
                                    }
                                }
                            }
                        }
                    }
                    proof {
                        assert forall|a: int|
                            0 <= a < self.csr.inside_edge_list@.len() && visited@[self.csr.tail(a)] && self.csr.tail(a)
                                != sink && self.csr.residual(a) > 0 implies visited@[(
                        #[trigger] self.csr.inside_edge_list@[a]).to as int] || queue@.contains(
                            self.csr.inside_edge_list@[a].to,
                        ) by {
                            assert(self.csr.arc_ok(a));
                        }
                    }
                }
            }
        }
        proof {
            if !visited@[sink as int] {
                let side = Set::new(|w: int| 0 <= w < n && visited@[w]);
                assert forall|a: int|
                    0 <= a < self.csr.inside_edge_list@.len() && side.contains(self.csr.tail(a)) && self.csr.residual(a)
                        > 0 implies side.contains((#[trigger] self.csr.inside_edge_list@[a]).to as int) by {
                    assert(self.csr.arc_ok(a));
                    let to = self.csr.inside_edge_list@[a].to;
                    if queue@.contains(to) {
                        let i = choose|i: int| 0 <= i < queue@.len() && queue@[i] == to;
                    }
                }
            }
        }
        Ghost(rank)
    }

    /// The most that every arc of the tree path from `source` to `sink` can still take.
    fn bottleneck(
        &self,
        source: usize,
        sink: usize,
        prev: &Vec<(usize, usize)>,
        visited: &Vec<bool>,
        Ghost(rank): Ghost<Seq<int>>,
    ) -> (found: (i64, Ghost<Seq<bool>>))
        requires
            self.csr.wf(),
            source < self.csr.num_nodes,
            sink < self.csr.num_nodes,
            source != sink,
            is_search_tree(&self.csr, prev@, visited@, rank, source as int),
            visited@[sink as int],
        ensures
            found.0 > 0,
            found.1@[sink as int],
            is_tree_path(&self.csr, prev@, visited@, found.1@, source as int, found.0 as int),
    {
        proof {
            assert(reached_by(&self.csr, prev@, visited@, sink as int));
            self.csr.lemma_tail(prev@[sink as int].0 as int, prev@[sink as int].1 as int);
        }
        let mut delta = self.csr.inside_edge_list[prev[sink].1].residual_capacity();
        let mut v = sink;
        let ghost mut on_path: Seq<bool> = Seq::new(self.csr.num_nodes as nat, |w: int| false);
        while v != source
            invariant
                self.csr.wf(),
                source < self.csr.num_nodes,
                sink < self.csr.num_nodes,
                source != sink,
                v < self.csr.num_nodes,
                is_search_tree(&self.csr, prev@, visited@, rank, source as int),
                visited@[v as int],
                delta > 0,
                on_path[sink as int] || v == sink,
                !on_path[source as int],
                forall|w: int| 0 <= w < self.csr.num_nodes && #[trigger] on_path[w] ==> rank[w] > rank[v as int],
                is_tree_path(&self.csr, prev@, visited@, on_path, v as int, delta as int),
            decreases rank[v as int],
        {
            proof {
                assert(reached_by(&self.csr, prev@, visited@, v as int));
                self.csr.lemma_tail(prev@[v as int].0 as int, prev@[v as int].1 as int);
            }
            let (u, edge_id) = prev[v];
            let residual = self.csr.inside_edge_list[edge_id].residual_capacity();
            if residual < delta {
                delta = residual;
            }
            proof {
                let marked = on_path.update(v as int, true);
                assert forall|w: int|
                    0 <= w < self.csr.num_nodes && marked[w] && (#[trigger] prev@[w]).0 >= 0 implies visited@[w] && w
                        != u && delta <= self.csr.residual(prev@[w].1 as int) && (marked[prev@[w].0 as int]
                        || prev@[w].0 == u) by {
                    if w != v {
                        assert(on_path[w]);
                        assert(prev@[w].0 >= 0);
                        assert(rank[w] > rank[v as int]);
                        assert(reached_by(&self.csr, prev@, visited@, w));
                    }
                }
                on_path = marked;
            }
            v = u;
        }
        (delta, Ghost(on_path))
    }

    /// Pushes `delta` along every arc of the tree path from `source` to `sink`.
    fn augment(
        &mut self,
        source: usize,
        sink: usize,
        prev: &Vec<(usize, usize)>,
        visited: &Vec<bool>,
        delta: i64,
        Ghost(rank): Ghost<Seq<int>>,
        Ghost(on_path): Ghost<Seq<bool>>,
    )
        requires
            old(self).csr.wf(),
            source < old(self).csr.num_nodes,
            sink < old(self).csr.num_nodes,
            source != sink,
            delta > 0,
            is_search_tree(&old(self).csr, prev@, visited@, rank, source as int),
            is_tree_path(&old(self).csr, prev@, visited@, on_path, source as int, delta as int),
            on_path[sink as int],
        ensures
            final(self).csr.wf(),
            final(self).csr.same_shape(&old(self).csr),
            forall|w: int|
                #[trigger] net_out(final(self).csr.links(), w) == net_out(old(self).csr.links(), w) + (if w == source {
                    delta as int
                } else {
                    0
                }) - (if w == sink {
                    delta as int
                } else {
                    0
                }),
    {
        let mut v = sink;
        while v != source
            invariant
                self.csr.wf(),
                old(self).csr.wf(),
                self.csr.same_shape(&old(self).csr),
                source < self.csr.num_nodes,
                v < self.csr.num_nodes,
                delta > 0,
                is_search_tree(&old(self).csr, prev@, visited@, rank, source as int),
                is_tree_path(&old(self).csr, prev@, visited@, on_path, source as int, delta as int),
                on_path[v as int] || v == source,
                forall|a: int|
                    0 <= a < self.csr.inside_edge_list@.len() && visited@[old(self).csr.tail(a)] && rank[old(self).csr.tail(
                        a,
                    )] < rank[v as int] ==> #[trigger] self.csr.inside_edge_list@[a] == old(self).csr.inside_edge_list@[a],
                forall|w: int|
                    #[trigger] net_out(self.csr.links(), w) == net_out(old(self).csr.links(), w) + (if w == v {
                        delta as int
                    } else {
                        0
                    }) - (if w == sink {
                        delta as int
                    } else {
                        0
                    }),
            decreases rank[v as int],
        {
            proof {
                assert(reached_by(&old(self).csr, prev@, visited@, v as int));
                old(self).csr.lemma_tail(prev@[v as int].0 as int, prev@[v as int].1 as int);
            }
            let (u, edge_id) = prev[v];
            let ghost before = self.csr;
            proof {
                assert(old(self).csr.arc_ok(edge_id as int));
                assert(self.csr.inside_edge_list@[edge_id as int] == old(self).csr.inside_edge_list@[edge_id as int]);
                before.lemma_tail(u as int, edge_id as int);
            }
            self.csr.push_flow(edge_id, delta);
            proof {
                let back = old(self).csr.inside_edge_list@[edge_id as int].rev as int;
                assert(old(self).csr.arc_ok(back));
                assert(old(self).csr.tail(back) == v);
                assert forall|a: int|
                    0 <= a < self.csr.inside_edge_list@.len() && visited@[old(self).csr.tail(a)] && rank[old(self).csr.tail(
                        a,
                    )] < rank[u as int] implies #[trigger] self.csr.inside_edge_list@[a] == old(self).csr.inside_edge_list@[a] by {
                    assert(before.inside_edge_list@[a] == old(self).csr.inside_edge_list@[a]);
                }
            }
            v = u;
        }
    }
}

} // verus!
