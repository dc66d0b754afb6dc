use crate::arith::{sat_add, sat_neg};
use crate::counting::{lemma_occurrences_overwrite, occurrences};
use crate::minimum_cost_flow::csr::{certify, corrected, CSR};
use crate::minimum_cost_flow::pushing::{lemma_load_moved, load, moved_along};
use crate::minimum_cost_flow::graph::Graph;
use crate::minimum_cost_flow::status::Status;
use vstd::prelude::*;

verus! {

/// Minimum-cost flow by cancelling cycles of negative cost in the residual
/// graph of a feasible flow.
pub struct CycleCanceling {
    pub csr: CSR,
}

impl Default for CycleCanceling {
    fn default() -> (solver: Self)
        ensures
            solver.csr.num_nodes == 0,
            solver.csr.num_edges == 0,
    {
        CycleCanceling { csr: CSR::default() }
    }
}

/// Every entry of `prev` is unset or names a node and one of its arcs, which
/// leads to the node of the entry.
pub open spec fn names_arcs(csr: &CSR, prev: Seq<(usize, usize)>) -> bool {
    &&& prev.len() == csr.num_nodes
    &&& forall|w: int|
        0 <= w < prev.len() && (#[trigger] prev[w]).0 < csr.num_nodes ==> csr.leaves(
            prev[w].0 as int,
            prev[w].1 as int,
        ) && csr.inside_edge_list@[prev[w].1 as int].to == w
}

impl CycleCanceling {
    /// Solves the problem that `graph` states and stores flows and excesses in `graph`.
    pub fn solve(&mut self, graph: &mut Graph) -> (status: Status)
        requires
            old(graph).solvable(),
        ensures
            final(graph).solved(old(graph), status),
    {
        if graph.is_unbalance() {
            return Status::Unbalanced;
        }
        let (_root, artificial_nodes, artificial_edges) = graph.construct_extend_network_feasible_solution();
        let ghost extended = *graph;
        self.csr.build(graph);
        let ghost built = self.csr;

        let n = self.csr.num_nodes;
        let mut prev: Vec<(usize, usize)> = Vec::new();
        for u in 0..n
            invariant
                prev@.len() == u,
                forall|w: int| 0 <= w < u ==> #[trigger] prev@[w] == (usize::MAX, usize::MAX),
        {
            prev.push((usize::MAX, usize::MAX));
        }
        let mut budget: usize = usize::MAX;
        let mut cancelling = true;
        while cancelling && budget > 0
            invariant
                self.csr.wf(),
                self.csr.same_shape(&built),
                n == self.csr.num_nodes,
                names_arcs(&self.csr, prev@),
            decreases budget, cancelling as int,
        {
            budget -= 1;
            match self.find_negative_cycle(&mut prev) {
                Some(start) => {
                    if !self.cancel(start, &prev) {
                        cancelling = false;
                    }
                },
                None => {
                    cancelling = false;
                },
            }
        }

        proof {
            self.csr.lemma_models_same_shape(&built, graph);
        }
        self.csr.set_flow(graph);
        let ghost solved = *graph;
        proof {
            solved.lemma_prefix_endpoints(&extended, old(graph));
        }
        graph.remove_artificial_sub_graph(artificial_nodes.as_slice(), artificial_edges.as_slice());
        proof {
            crate::minimum_cost_flow::feasibility::lemma_extension_shed(graph, &solved, &extended, old(graph));
        }
        certify(graph, &self.csr.potentials)
    }

    /// Pushes around the cycle that `prev` describes through `start` as
    /// much as its arcs can take. Says whether it pushed anything.
    #[verifier::spinoff_prover]
    fn cancel(&mut self, start: usize, prev: &Vec<(usize, usize)>) -> (pushed: bool)
        requires
            old(self).csr.wf(),
            start < old(self).csr.num_nodes,
            names_arcs(&old(self).csr, prev@),
        ensures
            final(self).csr.wf(),
            final(self).csr.same_shape(&old(self).csr),
            final(self).csr.potentials == old(self).csr.potentials,
            final(self).csr.excesses == old(self).csr.excesses,
            !pushed ==> final(self).csr == old(self).csr,
            pushed ==> old(self).csr.residual(prev@[start as int].1 as int) > 0,
            pushed == (cycle_through(&old(self).csr, prev@, start) matches Some(cycle) && cycle.1 > 0),
            pushed ==> final(self).csr.inside_edge_list@ == moved_along(
                old(self).csr.inside_edge_list@,
                cycle_through(&old(self).csr, prev@, start).unwrap().0,
                cycle_through(&old(self).csr, prev@, start).unwrap().1,
                cycle_through(&old(self).csr, prev@, start).unwrap().0.len(),
            ),
            forall|w: int| 0 <= w < old(self).csr.num_nodes ==> #[trigger] load(&final(self).csr, w) == load(&old(self).csr, w),
    {
        let n = self.csr.num_nodes;
        if prev[start].0 >= n {
            return false;
        }
        let (mut v, idx) = prev[start];
        proof {
            self.csr.lemma_tail(v as int, idx as int);
        }
        let mut delta = self.csr.inside_edge_list[idx].residual_capacity();
        let mut cycle: Vec<usize> = Vec::new();
        cycle.push(idx);
        let mut steps: usize = 0;
        let ghost mut nodes: Seq<usize> = seq![start, v];
        proof {
            assert(cycle@ =~= seq![idx]);
        }
        while v != start
            invariant
                self.csr.wf(),
                *self == *old(self),
                delta <= self.csr.residual(prev@[start as int].1 as int),
                n == self.csr.num_nodes,
                v < n,
                start < n,
                steps <= n,
                names_arcs(&self.csr, prev@),
                forall|i: int| 0 <= i < cycle@.len() ==> #[trigger] cycle@[i] < self.csr.inside_edge_list@.len(),
                round_trip(&self.csr, prev@, start, v, cycle@, delta as int, (n - steps) as nat) == cycle_through(
                    &self.csr,
                    prev@,
                    start,
                ),
                nodes.len() == cycle@.len() + 1,
                nodes[0] == start,
                nodes[nodes.len() - 1] == v,
                forall|i: int|
                    0 <= i < cycle@.len() ==> #[trigger] follows(prev@, nodes, i) && nodes[i] < n && prev@[nodes[i] as int].0
                        < n && prev@[nodes[i] as int].1 == cycle@[i],
                forall|i: int| 0 < i < cycle@.len() ==> #[trigger] nodes[i] != start,
                forall|i: int| 0 <= i < cycle@.len() ==> delta <= self.csr.residual(#[trigger] cycle@[i] as int),
            decreases n - steps,
        {
            if steps >= n || prev[v].0 >= n {
                return false;
            }
            steps += 1;
            let (u, idx) = prev[v];
            let ghost listed = cycle@;
            let ghost walked = v;
            proof {
                self.csr.lemma_tail(u as int, idx as int);
            }
            cycle.push(idx);
            let residual = self.csr.inside_edge_list[idx].residual_capacity();
            if residual < delta {
                delta = residual;
            }
            v = u;
            proof {
                let longer = nodes.push(u);
                assert(cycle@ == listed.push(idx));
                assert(nodes.len() == listed.len() + 1);
                assert forall|i: int| 0 <= i < cycle@.len() implies #[trigger] follows(prev@, longer, i) && longer[i] < n
                    && prev@[longer[i] as int].0 < n && prev@[longer[i] as int].1 == cycle@[i] by {
                    if i < listed.len() {
                        assert(follows(prev@, nodes, i));
                        assert(longer[i] == nodes[i]);
                        assert(longer[i + 1] == nodes[i + 1]);
                        assert(cycle@[i] == listed[i]);
                    } else {
                        assert(i == listed.len());
                        assert(longer[i] == walked);
                        assert(longer[i + 1] == u);
                        assert(cycle@[i] == idx);
                    }
                }
                assert forall|i: int| 0 < i < cycle@.len() implies #[trigger] longer[i] != start by {
                    if i < listed.len() {
                        assert(longer[i] == nodes[i]);
                    } else {
                        assert(longer[i] == walked);
                    }
                }
                nodes = longer;
            }
        }
        if delta <= 0 {
            return false;
        }

        let m = cycle.len();
        proof {
            assert forall|i: int, j: int| 0 <= i < j < m implies cycle@[i] != cycle@[j] by {
                lemma_no_repeat(prev@, nodes, start, i, j);
                assert(follows(prev@, nodes, i) && follows(prev@, nodes, j));
                assert(self.csr.inside_edge_list@[prev@[nodes[i] as int].1 as int].to == nodes[i]);
                assert(self.csr.inside_edge_list@[prev@[nodes[j] as int].1 as int].to == nodes[j]);
            }
        }
        for i in 0..m
            invariant
                self.csr.wf(),
                old(self).csr.wf(),
                self.csr.same_shape(&old(self).csr),
                self.csr.potentials == old(self).csr.potentials,
                self.csr.excesses == old(self).csr.excesses,
                delta > 0,
                n == self.csr.num_nodes,
                m == cycle@.len(),
                start < n,
                names_arcs(&old(self).csr, prev@),
                nodes.len() == m + 1,
                nodes[0] == start,
                nodes[m as int] == start,
                forall|i: int|
                    0 <= i < m ==> #[trigger] follows(prev@, nodes, i) && nodes[i] < n && prev@[nodes[i] as int].0 < n
                        && prev@[nodes[i] as int].1 == cycle@[i],
                forall|i: int, j: int| 0 <= i < j < m ==> #[trigger] cycle@[i] != #[trigger] cycle@[j],
                forall|i: int| 0 <= i < m ==> delta <= old(self).csr.residual(#[trigger] cycle@[i] as int),
                forall|i: int| 0 <= i < cycle@.len() ==> #[trigger] cycle@[i] < self.csr.inside_edge_list@.len(),
                self.csr.inside_edge_list@ == moved_along(old(self).csr.inside_edge_list@, cycle@, delta as int, i as nat),
                forall|t: int|
                    i <= t < m ==> self.csr.inside_edge_list@[#[trigger] cycle@[t] as int].flow <= old(
                        self,
                    ).csr.inside_edge_list@[cycle@[t] as int].flow,
                forall|w: int|
                    0 <= w < n ==> #[trigger] load(&self.csr, w) == load(&old(self).csr, w) - (if w == start {
                        delta as int
                    } else {
                        0
                    }) + (if w == nodes[i as int] {
                        delta as int
                    } else {
                        0
                    }),
        {
            let idx = cycle[i];
            proof {
                assert(self.csr.arc_ok(idx as int));
                assert(old(self).csr.arc_ok(idx as int));
                assert(delta <= old(self).csr.residual(cycle@[i as int] as int));
                assert(self.csr.inside_edge_list@[cycle@[i as int] as int].flow <= old(self).csr.inside_edge_list@[cycle@[i as int] as int].flow);
            }
            let ghost before = self.csr;
            if self.csr.inside_edge_list[idx].residual_capacity() >= delta {
                self.csr.add_flow(idx, delta);
            }
            proof {
                let head = nodes[i as int];
                let tail = nodes[i + 1];
                assert(follows(prev@, nodes, i as int));
                assert(prev@[head as int].1 == idx);
                assert(old(self).csr.leaves(tail as int, idx as int));
                old(self).csr.lemma_tail(tail as int, idx as int);
                assert(before.tail(idx as int) == tail);
                assert(before.inside_edge_list@[idx as int].to == head);
                assert forall|w: int| 0 <= w < n implies #[trigger] load(&self.csr, w) == load(&old(self).csr, w) - (if w
                    == start {
                    delta as int
                } else {
                    0
                }) + (if w == tail {
                    delta as int
                } else {
                    0
                }) by {
                    lemma_load_moved(&before, &self.csr, idx as int, delta as int, w);
                }
                assert forall|t: int| i + 1 <= t < m implies self.csr.inside_edge_list@[#[trigger] cycle@[t] as int].flow
                    <= old(self).csr.inside_edge_list@[cycle@[t] as int].flow by {
                    assert(cycle@[t] != cycle@[i as int]);
                    assert(before.inside_edge_list@[cycle@[t] as int].flow <= old(self).csr.inside_edge_list@[cycle@[t] as int].flow);
                }
            }
        }
        true
    }

    /// Relaxes all arcs with residual capacity, round after round. When a
    /// round changes no label, no cycle of negative cost is left: the
    /// labels become the node potentials and nothing is returned. When
    /// every round changes a label, returns a node of the cycle that the
    /// entries of `prev` run into.
    fn find_negative_cycle(&mut self, prev: &mut Vec<(usize, usize)>) -> (start: Option<usize>)
        requires
            old(self).csr.wf(),
            names_arcs(&old(self).csr, old(prev)@),
        ensures
            final(self).csr.wf(),
            final(self).csr.same_shape(&old(self).csr),
            final(self).csr.inside_edge_list == old(self).csr.inside_edge_list,
            final(self).csr.excesses == old(self).csr.excesses,
            names_arcs(&final(self).csr, final(prev)@),
            start matches Some(v) ==> v < final(self).csr.num_nodes && final(prev)@[v as int].0 < final(self).csr.num_nodes,
            final(self).csr.potentials == old(self).csr.potentials || (start.is_none() && exists|labels: Seq<i64>| #[trigger]
                final(self).csr.labels_settled(labels) && final(self).csr.priced_by(labels)),
            ({
                let found = searched(
                    &old(self).csr,
                    Seq::new(old(self).csr.num_nodes as nat, |u: int| 0i64),
                    old(prev)@,
                    usize::MAX,
                    old(self).csr.num_nodes as nat,
                );
                &&& final(prev)@ == found.1
                &&& found.0 matches Some(labels) ==> start.is_none() && final(self).csr.priced_by(labels)
                &&& found.0.is_none() ==> final(self).csr.potentials == old(self).csr.potentials && start == (if found.2
                    >= old(self).csr.num_nodes {
                    None
                } else {
                    met(
                        found.1,
                        found.2,
                        Seq::new(old(self).csr.num_nodes as nat, |u: int| false),
                        (old(self).csr.num_nodes + 1) as nat,
                    )
                })
            }),
            start matches Some(v) ==> cycle_through(&final(self).csr, final(prev)@, v).is_some(),
    {
        let n = self.csr.num_nodes;
        let mut start = usize::MAX;
        let mut dist: Vec<i64> = vec![0i64; n];
        let ghost goal = searched(&self.csr, Seq::new(n as nat, |u: int| 0i64), prev@, usize::MAX, n as nat);
        proof {
            assert(dist@ =~= Seq::new(n as nat, |u: int| 0i64));
        }
        for round in 0..n
            invariant
                self.csr.wf(),
                *self == *old(self),
                n == self.csr.num_nodes,
                dist@.len() == n,
                names_arcs(&self.csr, prev@),
                start == usize::MAX || start < n,
                goal == searched(&old(self).csr, Seq::new(n as nat, |u: int| 0i64), old(prev)@, usize::MAX, n as nat),
                searched(&self.csr, dist@, prev@, start, (n - round) as nat) == goal,
        {
            let mut updated = false;
            let ghost begun = dist@;
            let ghost traced_from = (prev@, start);
            proof {
                assert(self.csr.start@[0] == 0);
            }
            for u in 0..n
                invariant
                    self.csr.wf(),
                    *self == *old(self),
                    n == self.csr.num_nodes,
                    dist@.len() == n,
                    begun.len() == n,
                    names_arcs(&self.csr, prev@),
                    start == usize::MAX || start < n,
                    (dist@, updated) == corrected(&self.csr, begun, self.csr.start@[u as int] as int),
                    (prev@, start) == traced(
                        &self.csr,
                        begun,
                        traced_from.0,
                        traced_from.1,
                        self.csr.start@[u as int] as int,
                    ),
                    !updated ==> dist@ == begun && forall|w: int, a: int|
                        #[trigger] self.csr.leaves(w, a) && w < u && self.csr.residual(a) > 0
                            ==> dist@[self.csr.inside_edge_list@[a].to as int] <= crate::arith::clamp(
                            dist@[w] + self.csr.inside_edge_list@[a].cost,
                        ),
            {
                proof {
                    assert(self.csr.start@[u as int] <= self.csr.start@[u + 1]);
                    assert(self.csr.start@[u + 1] <= self.csr.start@[n as int]);
                }
                let first = self.csr.start[u];
                let last = self.csr.start[u + 1];
                for edge_index in first..last
                    invariant
                        self.csr.wf(),
                        *self == *old(self),
                        n == self.csr.num_nodes,
                        u < n,
                        dist@.len() == n,
                        begun.len() == n,
                        first == self.csr.start@[u as int],
                        last == self.csr.start@[u + 1],
                        first <= last,
                        last <= self.csr.inside_edge_list@.len(),
                        names_arcs(&self.csr, prev@),
                        start == usize::MAX || start < n,
                        (dist@, updated) == corrected(&self.csr, begun, edge_index as int),
                        (prev@, start) == traced(&self.csr, begun, traced_from.0, traced_from.1, edge_index as int),
                        !updated ==> dist@ == begun && forall|w: int, a: int|
                            #[trigger] self.csr.leaves(w, a) && (w < u || (w == u && a < edge_index))
                                && self.csr.residual(a) > 0 ==> dist@[self.csr.inside_edge_list@[a].to as int]
                                <= crate::arith::clamp(dist@[w] + self.csr.inside_edge_list@[a].cost),
                {
                    proof {
                        self.csr.lemma_tail(u as int, edge_index as int);
                        self.csr.lemma_corrected_len(begun, edge_index as int);
                    }
                    let edge = &self.csr.inside_edge_list[edge_index];
                    let through = sat_add(dist[u], edge.cost);
                    if edge.residual_capacity() > 0 && through < dist[edge.to] {
                        dist[edge.to] = through;
                        prev[edge.to] = (u, edge_index);
                        start = u;
                        updated = true;
                    }
                }
            }
            proof {
                assert(self.csr.start@[n as int] == self.csr.inside_edge_list@.len());
                if !updated {
                    lemma_traced_rests(
                        &self.csr,
                        begun,
                        traced_from.0,
                        traced_from.1,
                        self.csr.inside_edge_list@.len() as int,
                    );
                }
            }
            if !updated {
                for u in 0..n
                    invariant
                        self.csr.wf(),
                        self.csr.same_shape(&old(self).csr),
                        self.csr.inside_edge_list == old(self).csr.inside_edge_list,
                        self.csr.excesses == old(self).csr.excesses,
                        n == self.csr.num_nodes,
                        dist@.len() == n,
                        names_arcs(&self.csr, prev@),
                        forall|w: int| 0 <= w < u ==> #[trigger] self.csr.potentials@[w] == crate::arith::clamp(-dist@[w]),
                {
                    self.csr.potentials[u] = sat_neg(dist[u]);
                }
                proof {
                    assert forall|w: int, a: int| #[trigger]
                        self.csr.leaves(w, a) && self.csr.residual(a) > 0 implies dist@[self.csr.inside_edge_list@[a].to as int]
                        <= crate::arith::clamp(dist@[w] + self.csr.inside_edge_list@[a].cost) by {
                        if self.csr.leaves(w, a) {
                            assert(old(self).csr.leaves(w, a));
                        }
                    }
                    assert(self.csr.labels_settled(dist@));
                    assert(self.csr.priced_by(dist@));
                    assert(goal == (Some(begun), prev@, start));
                }
                return None;
            }
        }
        proof {
            assert(goal == (None::<Seq<i64>>, prev@, start));
        }
        if start >= n {
            return None;
        }

        let mut v = start;
        let mut visited = vec![false; n];
        let ghost mut steps: nat = 0;
        let ghost mut trail: Seq<usize> = Seq::empty();
        proof {
            assert(visited@ =~= Seq::new(n as nat, |u: int| false));
            crate::counting::lemma_occurrences_bounded(visited@, false);
        }
        loop
            invariant
                trail.len() == steps,
                v == (if trail.len() == 0 {
                    start
                } else {
                    trail[trail.len() - 1]
                }),
                forall|i: int| 0 <= i < trail.len() ==> #[trigger] trail[i] < n,
                forall|i: int| 0 < i < trail.len() ==> prev@[trail[i - 1] as int].0 == #[trigger] trail[i],
                forall|w: int|
                    0 <= w < n && #[trigger] visited@[w] ==> exists|i: int| 0 <= i < trail.len() && #[trigger] trail[i] == w,
                self.csr.wf(),
                *self == *old(self),
                n == self.csr.num_nodes,
                v < n,
                start < n,
                visited@.len() == n,
                names_arcs(&self.csr, prev@),
                goal == searched(&old(self).csr, Seq::new(n as nat, |u: int| 0i64), old(prev)@, usize::MAX, n as nat),
                goal == (None::<Seq<i64>>, prev@, start),
                steps + occurrences(visited@, false) <= n,
                met(prev@, v, visited@, (n + 1 - steps) as nat) == met(
                    prev@,
                    start,
                    Seq::new(n as nat, |u: int| false),
                    (n + 1) as nat,
                ),
            decreases occurrences(visited@, false),
        {
            let (u, _idx) = prev[v];
            if u >= n {
                return None;
            }
            if visited[u] {
                proof {
                    let j = choose|j: int| 0 <= j < trail.len() && #[trigger] trail[j] == u;
                    lemma_round_trip_closes(
                        &self.csr,
                        prev@,
                        trail,
                        j,
                        seq![prev@[v as int].1],
                        self.csr.residual(prev@[v as int].1 as int),
                        n as nat,
                    );
                }
                return Some(v);
            }
            let ghost marked = visited@;
            proof {
                lemma_occurrences_overwrite(visited@, u as int, false, true);
                steps = steps + 1;
            }
            visited[u] = true;
            proof {
                let longer = trail.push(u);
                assert forall|w: int| 0 <= w < n && #[trigger] visited@[w] implies exists|i: int|
                    0 <= i < longer.len() && #[trigger] longer[i] == w by {
                    if w == u {
                        assert(longer[trail.len() as int] == u);
                    } else {
                        assert(marked[w]);
                        let i = choose|i: int| 0 <= i < trail.len() && #[trigger] trail[i] == w;
                        assert(longer[i] == w);
                    }
                }
                trail = longer;
            }
            v = u;
        }
    }
}

/// The arcs of the way round that `prev` describes from `v` on back to
/// `start`, behind `arcs`, and the least that one of them can take,
/// `least` at most. Nothing where an entry of `prev` is unset on the way
/// or `start` is not come to after `fuel` steps.
pub open spec fn round_trip(
    csr: &CSR,
    prev: Seq<(usize, usize)>,
    start: usize,
    v: usize,
    arcs: Seq<usize>,
    least: int,
    fuel: nat,
) -> Option<(Seq<usize>, int)>
    decreases fuel,
{
    if v == start {
        Some((arcs, least))
    } else if fuel == 0 || prev[v as int].0 >= csr.num_nodes {
        None
    } else {
        let room = csr.residual(prev[v as int].1 as int);
        round_trip(
            csr,
            prev,
            start,
            prev[v as int].0,
            arcs.push(prev[v as int].1),
            if room < least {
                room
            } else {
                least
            },
            (fuel - 1) as nat,
        )
    }
}

/// The arcs of the cycle that `prev` describes through `start`, and the
/// least that one of them can take.
pub open spec fn cycle_through(csr: &CSR, prev: Seq<(usize, usize)>, start: usize) -> Option<(Seq<usize>, int)> {
    if prev[start as int].0 >= csr.num_nodes {
        None
    } else {
        round_trip(
            csr,
            prev,
            start,
            prev[start as int].0,
            seq![prev[start as int].1],
            csr.residual(prev[start as int].1 as int),
            csr.num_nodes as nat,
        )
    }
}

/// What the corrections of the arcs before `upto`, begun with `labels`,
/// leave of `prev` and `start`: every head that was corrected has in
/// `prev` the tail and the arc that corrected it last, and `start` is the
/// tail of the arc that corrected last.
pub open spec fn traced(csr: &CSR, labels: Seq<i64>, prev: Seq<(usize, usize)>, start: usize, upto: int) -> (
    Seq<(usize, usize)>,
    usize,
)
    decreases upto,
{
    if upto <= 0 {
        (prev, start)
    } else {
        let before = traced(csr, labels, prev, start, upto - 1);
        let now = corrected(csr, labels, upto - 1).0;
        let arc = csr.inside_edge_list@[upto - 1];
        let through = crate::arith::clamp(now[csr.tail(upto - 1)] + arc.cost);
        if csr.residual(upto - 1) > 0 && through < now[arc.to as int] {
            (before.0.update(arc.to as int, (csr.tail(upto - 1) as usize, (upto - 1) as usize)), csr.tail(upto - 1) as usize)
        } else {
            before
        }
    }
}

/// Where no label is corrected, `prev` and `start` stay as they are.
pub proof fn lemma_traced_rests(csr: &CSR, labels: Seq<i64>, prev: Seq<(usize, usize)>, start: usize, upto: int)
    requires
        !corrected(csr, labels, upto).1,
    ensures
        traced(csr, labels, prev, start, upto) == (prev, start),
        corrected(csr, labels, upto).0 == labels,
    decreases upto,
{
    if upto > 0 {
        lemma_traced_rests(csr, labels, prev, start, upto - 1);
    }
}

/// What `rounds` rounds of corrections of all arcs, begun with `labels`,
/// `prev` and `start`, come to: the labels before the first round that
/// changes none, if there is one, with `prev` and `start` as they stand
/// then.
pub open spec fn searched(csr: &CSR, labels: Seq<i64>, prev: Seq<(usize, usize)>, start: usize, rounds: nat) -> (
    Option<Seq<i64>>,
    Seq<(usize, usize)>,
    usize,
)
    decreases rounds,
{
    if rounds == 0 {
        (None, prev, start)
    } else {
        let arcs = csr.inside_edge_list@.len() as int;
        let round = corrected(csr, labels, arcs);
        let trace = traced(csr, labels, prev, start, arcs);
        if !round.1 {
            (Some(labels), prev, start)
        } else {
            searched(csr, round.0, trace.0, trace.1, (rounds - 1) as nat)
        }
    }
}

/// The node at which a walk along the entries of `prev` from `v` on first
/// stands before a node that it has passed: a node of the cycle that the
/// entries run into. Nothing where an entry is unset on the way.
pub open spec fn met(prev: Seq<(usize, usize)>, v: usize, visited: Seq<bool>, fuel: nat) -> Option<usize>
    decreases fuel,
{
    let u = prev[v as int].0;
    if fuel == 0 || u >= prev.len() {
        None
    } else if visited[u as int] {
        Some(v)
    } else {
        met(prev, u, visited.update(u as int, true), (fuel - 1) as nat)
    }
}

/// A way along the entries of `prev` that passes the nodes of `trail` in
/// turn comes from each of them round to the last of them.
pub proof fn lemma_round_trip_closes(
    csr: &CSR,
    prev: Seq<(usize, usize)>,
    trail: Seq<usize>,
    j: int,
    arcs: Seq<usize>,
    least: int,
    fuel: nat,
)
    requires
        0 <= j < trail.len(),
        fuel >= trail.len() - 1 - j,
        forall|i: int| 0 <= i < trail.len() ==> #[trigger] trail[i] < csr.num_nodes,
        forall|i: int| 0 < i < trail.len() ==> prev[trail[i - 1] as int].0 == #[trigger] trail[i],
    ensures
        round_trip(csr, prev, trail[trail.len() - 1], trail[j], arcs, least, fuel).is_some(),
    decreases trail.len() - j,
{
    if trail[j] != trail[trail.len() - 1] {
        assert(j < trail.len() - 1);
        assert(prev[trail[j] as int].0 == trail[j + 1]);
        let room = csr.residual(prev[trail[j] as int].1 as int);
        lemma_round_trip_closes(
            csr,
            prev,
            trail,
            j + 1,
            arcs.push(prev[trail[j] as int].1),
            if room < least {
                room
            } else {
                least
            },
            (fuel - 1) as nat,
        );
    }
}

/// The node behind node `t` of `nodes` is the one that `prev` names for it.
pub open spec fn follows(prev: Seq<(usize, usize)>, nodes: Seq<usize>, t: int) -> bool {
    prev[nodes[t] as int].0 == nodes[t + 1]
}

/// A walk along the entries of `prev` that ends at `start` and has not
/// passed `start` on its way has passed no node twice.
pub proof fn lemma_no_repeat(prev: Seq<(usize, usize)>, nodes: Seq<usize>, start: usize, i: int, j: int)
    requires
        0 <= i < j < nodes.len() - 1,
        nodes[0] == start,
        nodes[nodes.len() - 1] == start,
        forall|t: int| 0 <= t < nodes.len() - 1 ==> #[trigger] follows(prev, nodes, t),
        forall|t: int| 0 < t < nodes.len() - 1 ==> #[trigger] nodes[t] != start,
    ensures
        nodes[i] != nodes[j],
    decreases nodes.len() - j,
{
    if nodes[i] == nodes[j] {
        assert(follows(prev, nodes, i) && follows(prev, nodes, j));
        assert(nodes[i + 1] == nodes[j + 1]);
        if j + 1 < nodes.len() - 1 {
            lemma_no_repeat(prev, nodes, start, i + 1, j + 1);
        } else {
            assert(nodes[j + 1] == start);
            assert(nodes[i + 1] != start);
        }
    }
}

} // verus!
