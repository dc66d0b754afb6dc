use crate::arith::sat_sub;
use crate::minimum_cost_flow::csr::{certify, is_path_tree, Paths, CSR};
use crate::counting::{lemma_occurrences_bounded, lemma_occurrences_overwrite, lemma_occurrences_positive, occurrences};
use crate::minimum_cost_flow::graph::Graph;
use crate::minimum_cost_flow::pushing::{lemma_load_moved, load, moved_along};
use crate::minimum_cost_flow::status::Status;
use vstd::prelude::*;

verus! {

/// Minimum-cost flow by bringing the arcs that violate complementary
/// slackness into kilter, one after the other.
pub struct OutOfKilter {
    pub csr: CSR,
}

impl Default for OutOfKilter {
    fn default() -> (solver: Self)
        ensures
            solver.csr.num_nodes == 0,
            solver.csr.num_edges == 0,
    {
        OutOfKilter { csr: CSR::default() }
    }
}

impl OutOfKilter {
    /// Solves the problem that `graph` states and stores flows and excesses in `graph`.
    pub fn solve(&mut self, graph: &mut Graph) -> (status: Status)
        requires
            old(graph).solvable(),
        ensures
            final(graph).solved(old(graph), status),
    {
        if graph.is_unbalance() {
            return Status::Unbalanced;
        }
        let (_root, artificial_nodes, artificial_edges) = graph.construct_extend_network_feasible_solution();
        let ghost extended = *graph;
        self.csr.build(graph);
        let ghost built = self.csr;

        let mut out_of_kilter_edges: Vec<(usize, usize, usize)> = Vec::new();
        for edge_id in 0..self.csr.inside_edge_list.len()
            invariant
                self.csr == built,
                self.csr.wf(),
                forall|i: int|
                    0 <= i < out_of_kilter_edges@.len() ==> {
                        let (p, q, e) = #[trigger] out_of_kilter_edges@[i];
                        p < self.csr.num_nodes && q < self.csr.num_nodes && self.csr.leaves(p as int, e as int)
                            && self.csr.inside_edge_list@[e as int].to == q
                    },
        {
            proof {
                assert(self.csr.arc_ok(edge_id as int));
                assert(self.csr.arc_ok(self.csr.inside_edge_list@[edge_id as int].rev as int));
            }
            let edge = &self.csr.inside_edge_list[edge_id];
            let p = self.csr.inside_edge_list[edge.rev].to;
            if self.kilter_number(p, edge_id) != 0 {
                let q = edge.to;
                out_of_kilter_edges.push((p, q, edge_id));
            }
        }

        let mut budget: usize = usize::MAX;
        let mut blocked = false;
        let mut next: usize = 0;
        while !blocked && next < out_of_kilter_edges.len()
            invariant
                self.csr.wf(),
                self.csr.same_shape(&built),
                next <= out_of_kilter_edges@.len(),
                forall|i: int|
                    0 <= i < out_of_kilter_edges@.len() ==> {
                        let (p, q, e) = #[trigger] out_of_kilter_edges@[i];
                        p < self.csr.num_nodes && q < self.csr.num_nodes && self.csr.leaves(p as int, e as int)
                            && self.csr.inside_edge_list@[e as int].to == q
                    },
            decreases out_of_kilter_edges@.len() - next, !blocked as int,
        {
            let (p, q, edge_id) = out_of_kilter_edges[next];
            proof {
                assert(self.csr.leaves(p as int, edge_id as int));
                self.csr.lemma_tail(p as int, edge_id as int);
            }
            while !blocked && budget > 0 && self.kilter_number(p, edge_id) > 0
                invariant
                    self.csr.wf(),
                    self.csr.same_shape(&built),
                    p < self.csr.num_nodes,
                    q < self.csr.num_nodes,
                    self.csr.leaves(p as int, edge_id as int),
                    self.csr.inside_edge_list@[edge_id as int].to == q,
                decreases budget, !blocked as int,
            {
                budget -= 1;
                let Paths { dist, prev, visited, target } = self.shortest_path(q);
                if prev[p].is_none() {
                    blocked = true;
                } else {
                    // update potentials
                    let n = self.csr.num_nodes;
                    let ghost searched = self.csr;
                    for u in 0..n
                        invariant
                            self.csr.wf(),
                            self.csr.same_shape(&built),
                            self.csr.inside_edge_list == searched.inside_edge_list,
                            n == self.csr.num_nodes,
                            dist@.len() == n,
                    {
                        if let Some(d) = dist[u] {
                            self.csr.potentials[u] = sat_sub(self.csr.potentials[u], d);
                        }
                    }

                    // update flow
                    proof {
                        self.csr.lemma_tail(p as int, edge_id as int);
                    }
                    let edge = &self.csr.inside_edge_list[edge_id];
                    if self.csr.reduced_cost(p, edge) < 0 {
                        proof {
                            let rank = choose|rank: Seq<int>| #[trigger] is_path_tree(&searched, q as int, visited@, prev@, rank);
                            assert(is_path_tree(&self.csr, q as int, visited@, prev@, rank));
                        }
                        self.update_flow_in_cycle(q, edge_id, prev, Ghost(visited@));
                    }
                }
            }
            if budget == 0 {
                blocked = true;
            }
            if !blocked {
                next += 1;
            }
        }

        proof {
            self.csr.lemma_models_same_shape(&built, graph);
        }
        self.csr.set_flow(graph);
        let ghost solved = *graph;
        proof {
            solved.lemma_prefix_endpoints(&extended, old(graph));
        }
        graph.remove_artificial_sub_graph(artificial_nodes.as_slice(), artificial_edges.as_slice());
        proof {
            crate::minimum_cost_flow::feasibility::lemma_extension_shed(graph, &solved, &extended, old(graph));
        }
        certify(graph, &self.csr.potentials)
    }

    /// By how much arc `edge_id` out of node `u` violates complementary
    /// slackness: its residual capacity where its reduced cost is
    /// negative, and zero otherwise.
    fn kilter_number(&self, u: usize, edge_id: usize) -> (number: i64)
        requires
            self.csr.wf(),
            u < self.csr.num_nodes,
            edge_id < self.csr.inside_edge_list@.len(),
        ensures
            number == (if self.csr.reduced(u as int, self.csr.inside_edge_list@[edge_id as int]) >= 0 {
                0
            } else {
                self.csr.residual(edge_id as int)
            }),
            number >= 0,
    {
        proof {
            assert(self.csr.arc_ok(edge_id as int));
        }
        let edge = &self.csr.inside_edge_list[edge_id];
        if self.csr.reduced_cost(u, edge) >= 0 {
            0
        } else {
            edge.residual_capacity()
        }
    }

    /// Searches from `s` along arcs with residual capacity, nearest node
    /// first, where an arc is as long as its reduced cost and an arc of
    /// negative reduced cost has length zero.
    fn shortest_path(&mut self, s: usize) -> (paths: Paths)
        requires
            old(self).csr.wf(),
            s < old(self).csr.num_nodes,
        ensures
            *final(self) == *old(self),
            final(self).csr.found(s as int, &paths, true, false),
            paths.target.is_none(),
    {
        self.csr.shortest_paths(s, true, false)
    }

    /// Pushes around the cycle that arc `edge_id`, which leads into `q`,
    /// closes with the tree path from `q` to its tail as much as the arcs
    /// of the cycle can take.
    fn update_flow_in_cycle(&mut self, q: usize, edge_id: usize, prev: Vec<Option<usize>>, Ghost(visited): Ghost<Seq<bool>>)
        requires
            old(self).csr.wf(),
            q < old(self).csr.num_nodes,
            edge_id < old(self).csr.inside_edge_list@.len(),
            old(self).csr.inside_edge_list@[edge_id as int].to == q,
            exists|rank: Seq<int>| #[trigger] is_path_tree(&old(self).csr, q as int, visited, prev@, rank),
            visited[old(self).csr.tail(edge_id as int)],
        ensures
            final(self).csr.wf(),
            final(self).csr.same_shape(&old(self).csr),
            final(self).csr.potentials == old(self).csr.potentials,
            old(self).csr.residual(edge_id as int) <= 0 ==> final(self).csr == old(self).csr,
            old(self).csr.residual(edge_id as int) > 0 ==> {
                let cycle = cycle_of(&old(self).csr, prev@, q as int, edge_id);
                let amount = least_room(&old(self).csr, cycle, old(self).csr.residual(edge_id as int), cycle.len());
                &&& amount > 0
                &&& final(self).csr.inside_edge_list@ == moved_along(
                    old(self).csr.inside_edge_list@,
                    cycle,
                    amount,
                    cycle.len(),
                )
                &&& final(self).csr.excesses@ == carried(
                    &old(self).csr,
                    old(self).csr.excesses@,
                    cycle,
                    amount,
                    cycle.len(),
                )
            },
            forall|w: int| 0 <= w < old(self).csr.num_nodes ==> #[trigger] load(&final(self).csr, w) == load(&old(self).csr, w),
    {
        let ghost rank = choose|rank: Seq<int>| #[trigger] is_path_tree(&old(self).csr, q as int, visited, prev@, rank);
        let n = self.csr.num_nodes;
        proof {
            assert(self.csr.arc_ok(edge_id as int));
            assert(self.csr.arc_ok(self.csr.inside_edge_list@[edge_id as int].rev as int));
        }
        let p = self.csr.inside_edge_list[self.csr.inside_edge_list[edge_id].rev].to;

        // calculate delta
        let mut delta = self.csr.inside_edge_list[edge_id].residual_capacity();
        if delta <= 0 {
            return;
        }
        let ghost mut on_path: Seq<bool> = Seq::new(n as nat, |w: int| false);
        let ghost mut way: Seq<usize> = Seq::empty();
        let ghost mut stops: Seq<int> = seq![p as int];
        let ghost room = self.csr.residual(edge_id as int);
        proof {
            lemma_occurrences_bounded(on_path, false);
            assert(way + way_back(&self.csr, prev@, p as int, q as int, n as nat) =~= way_back(
                &self.csr,
                prev@,
                p as int,
                q as int,
                n as nat,
            ));
        }
        let mut v = p;
        while v != q
            invariant
                way.len() + occurrences(on_path, false) <= n,
                stops.len() == way.len() + 1,
                stops[0] == p,
                stops[stops.len() - 1] == v,
                forall|i: int|
                    0 <= i < way.len() ==> (#[trigger] stops[i]) != q && 0 <= stops[i] < n && prev@[stops[i]] == Some(
                        way[i],
                    ) && self.csr.tail(way[i] as int) == stops[i + 1],
                way + way_back(&self.csr, prev@, v as int, q as int, (n - way.len()) as nat) == way_back(
                    &self.csr,
                    prev@,
                    p as int,
                    q as int,
                    n as nat,
                ),
                delta == least_room(&self.csr, way, room, way.len()),
                room == self.csr.residual(edge_id as int),
                self.csr.wf(),
                *self == *old(self),
                n == self.csr.num_nodes,
                v < n,
                q < n,
                p < n,
                is_path_tree(&self.csr, q as int, visited, prev@, rank),
                visited[v as int],
                0 < delta <= self.csr.residual(edge_id as int),
                on_path.len() == n,
                !on_path[q as int],
                forall|w: int| 0 <= w < n && #[trigger] on_path[w] ==> rank[w] > rank[v as int],
                forall|w: int|
                    0 <= w < n && on_path[w] && (#[trigger] prev@[w]) == prev@[w] ==> {
                        &&& visited[w]
                        &&& prev@[w] matches Some(e)
                        &&& delta <= self.csr.residual(e as int)
                        &&& (on_path[self.csr.tail(e as int)] || self.csr.tail(e as int) == v)
                    },
                on_path[p as int] || v == p,
            decreases rank[v as int],
        {
            proof {
                assert(prev@[v as int] == prev@[v as int]);
            }
            let edge_idx = prev[v].unwrap();
            proof {
                assert(self.csr.arc_ok(edge_idx as int));
                assert(self.csr.arc_ok(self.csr.inside_edge_list@[edge_idx as int].rev as int));
            }
            let residual = self.csr.inside_edge_list[edge_idx].residual_capacity();
            if residual < delta {
                delta = residual;
            }
            let rev = self.csr.inside_edge_list[edge_idx].rev;
            let u = self.csr.inside_edge_list[rev].to;
            proof {
                assert(!on_path[v as int]) by {
                    if on_path[v as int] {
                        assert(rank[v as int] > rank[v as int]);
                    }
                }
                lemma_occurrences_positive(on_path, v as int, false);
                lemma_occurrences_overwrite(on_path, v as int, false, true);
                let fuel = (n - way.len()) as nat;
                assert(way_back(&self.csr, prev@, v as int, q as int, fuel) == seq![edge_idx] + way_back(
                    &self.csr,
                    prev@,
                    u as int,
                    q as int,
                    (fuel - 1) as nat,
                ));
                assert(way.push(edge_idx) + way_back(&self.csr, prev@, u as int, q as int, (fuel - 1) as nat) =~= way
                    + (seq![edge_idx] + way_back(&self.csr, prev@, u as int, q as int, (fuel - 1) as nat)));
                assert(way.push(edge_idx).drop_last() =~= way);
                let longer = way.push(edge_idx);
                lemma_least_room_prefix(&self.csr, way, longer, room, way.len());
                way = longer;
                stops = stops.push(u as int);
            }
            proof {
                let marked = on_path.update(v as int, true);
                assert forall|w: int| 0 <= w < n && marked[w] && (#[trigger] prev@[w]) == prev@[w] implies {
                    &&& visited[w]
                    &&& prev@[w] matches Some(e)
                    &&& delta <= self.csr.residual(e as int)
                    &&& (marked[self.csr.tail(e as int)] || self.csr.tail(e as int) == u)
                } by {
                    if w != v {
                        assert(on_path[w]);
                    }
                }
                on_path = marked;
            }
            v = u;
        }

        // update flow
        proof {
            assert(way_back(&self.csr, prev@, q as int, q as int, (n - way.len()) as nat) == Seq::<usize>::empty());
            assert(way + Seq::<usize>::empty() =~= way);
        }
        let ghost mut k: int = 0;
        let mut v = p;
        while v != q
            invariant
                0 <= k <= way.len(),
                v == stops[k],
                stops.len() == way.len() + 1,
                stops[way.len() as int] == q,
                forall|i: int|
                    0 <= i < way.len() ==> (#[trigger] stops[i]) != q && 0 <= stops[i] < n && prev@[stops[i]] == Some(
                        way[i],
                    ) && old(self).csr.tail(way[i] as int) == stops[i + 1],
                way == way_back(&old(self).csr, prev@, p as int, q as int, n as nat),
                delta == least_room(&old(self).csr, way, old(self).csr.residual(edge_id as int), way.len()),
                self.csr.inside_edge_list@ == moved_along(old(self).csr.inside_edge_list@, way, delta as int, k as nat),
                self.csr.excesses@ == carried(&old(self).csr, old(self).csr.excesses@, way, delta as int, k as nat),
                forall|w: int|
                    0 <= w < n ==> #[trigger] load(&self.csr, w) == load(&old(self).csr, w) - (if w == p {
                        delta as int
                    } else {
                        0
                    }) + (if w == v {
                        delta as int
                    } else {
                        0
                    }),
                self.csr.wf(),
                old(self).csr.wf(),
                self.csr.same_shape(&old(self).csr),
                self.csr.potentials == old(self).csr.potentials,
                n == self.csr.num_nodes,
                v < n,
                q < n,
                p < n,
                p == old(self).csr.tail(edge_id as int),
                edge_id < self.csr.inside_edge_list@.len(),
                is_path_tree(&old(self).csr, q as int, visited, prev@, rank),
                visited[v as int],
                0 < delta <= old(self).csr.residual(edge_id as int),
                self.csr.inside_edge_list@[edge_id as int].flow <= old(self).csr.inside_edge_list@[edge_id as int].flow,
                on_path.len() == n,
                forall|w: int|
                    0 <= w < n && on_path[w] && (#[trigger] prev@[w]) == prev@[w] ==> {
                        &&& visited[w]
                        &&& prev@[w] matches Some(e)
                        &&& delta <= old(self).csr.residual(e as int)
                        &&& (on_path[old(self).csr.tail(e as int)] || old(self).csr.tail(e as int) == q)
                    },
                on_path[v as int] || v == q,
                rank[v as int] <= rank[p as int],
                forall|a: int|
                    0 <= a < self.csr.inside_edge_list@.len() && visited[old(self).csr.tail(a)] && rank[old(self).csr.tail(
                        a,
                    )] < rank[v as int] ==> #[trigger] self.csr.inside_edge_list@[a] == old(self).csr.inside_edge_list@[a],
            decreases rank[v as int],
        {
            proof {
                assert(prev@[v as int] == prev@[v as int]);
            }
            let edge_idx = prev[v].unwrap();
            proof {
                assert(old(self).csr.arc_ok(edge_idx as int));
                let back = old(self).csr.inside_edge_list@[edge_idx as int].rev as int;
                assert(old(self).csr.arc_ok(back));
                assert(self.csr.inside_edge_list@[edge_idx as int] == old(self).csr.inside_edge_list@[edge_idx as int]);
                assert(old(self).csr.tail(back) == v);
                assert(edge_idx != edge_id);
            }
            let ghost before = self.csr;
            let rev = self.csr.inside_edge_list[edge_idx].rev;
            let u = self.csr.inside_edge_list[rev].to;
            proof {
                assert(k < way.len());
                assert(stops[k] != q);
                assert(way[k] == edge_idx);
                assert(old(self).csr.tail(edge_idx as int) == u);
            }
            self.csr.push_flow(u, edge_idx, delta);
            proof {
                k = k + 1;
                assert(before.tail(edge_idx as int) == u);
                assert(before.inside_edge_list@[edge_idx as int].to == v);
                assert forall|w: int| 0 <= w < n implies #[trigger] load(&self.csr, w) == load(&old(self).csr, w) - (if w
                    == p {
                    delta as int
                } else {
                    0
                }) + (if w == u {
                    delta as int
                } else {
                    0
                }) by {
                    lemma_load_moved(&before, &self.csr, edge_idx as int, delta as int, w);
                }
            }
            proof {
                assert forall|a: int|
                    0 <= a < self.csr.inside_edge_list@.len() && visited[old(self).csr.tail(a)] && rank[old(self).csr.tail(
                        a,
                    )] < rank[u as int] implies #[trigger] self.csr.inside_edge_list@[a] == old(self).csr.inside_edge_list@[a] by {
                    assert(before.inside_edge_list@[a] == old(self).csr.inside_edge_list@[a]);
                }
            }
            v = u;
        }
        proof {
            assert(k == way.len()) by {
                if k < way.len() {
                    assert(stops[k] != q);
                }
            }
        }
        let ghost along = self.csr;
        self.csr.push_flow(p, edge_id, delta);
        proof {
            assert(along.tail(edge_id as int) == p);
            assert forall|w: int| 0 <= w < n implies #[trigger] load(&self.csr, w) == load(&old(self).csr, w) by {
                lemma_load_moved(&along, &self.csr, edge_id as int, delta as int, w);
            }
            let cycle = way.push(edge_id);
            assert(cycle == cycle_of(&old(self).csr, prev@, q as int, edge_id));
            assert(cycle.drop_last() =~= way);
            lemma_least_room_prefix(&old(self).csr, way, cycle, old(self).csr.residual(edge_id as int), way.len());
            lemma_least_room_reaches(&old(self).csr, cycle, old(self).csr.residual(edge_id as int), cycle.len(), cycle.len() - 1);
            lemma_moved_along_prefix(old(self).csr.inside_edge_list@, way, cycle, delta as int, way.len());
            lemma_carried_prefix(&old(self).csr, old(self).csr.excesses@, way, cycle, delta as int, way.len());
        }
    }
}

/// The arcs by which the entries of `prev` lead from `v` back to `q`, the
/// one into `v` first; as far as the entries are set, `fuel` arcs at most.
pub open spec fn way_back(csr: &CSR, prev: Seq<Option<usize>>, v: int, q: int, fuel: nat) -> Seq<usize>
    decreases fuel,
{
    if v == q || fuel == 0 || prev[v].is_none() {
        Seq::empty()
    } else {
        seq![prev[v].unwrap()] + way_back(csr, prev, csr.tail(prev[v].unwrap() as int), q, (fuel - 1) as nat)
    }
}

/// The arcs of the cycle that arc `edge_id`, which leads into `q`, closes
/// with the way that `prev` describes from `q` to its tail: the arcs of
/// that way, the last one first, and then the arc itself.
pub open spec fn cycle_of(csr: &CSR, prev: Seq<Option<usize>>, q: int, edge_id: usize) -> Seq<usize> {
    way_back(csr, prev, csr.tail(edge_id as int), q, csr.num_nodes as nat).push(edge_id)
}

/// The least that one of the first `upto` arcs of `arcs` can take, `least`
/// at most.
pub open spec fn least_room(csr: &CSR, arcs: Seq<usize>, least: int, upto: nat) -> int
    decreases upto,
{
    if upto == 0 {
        least
    } else {
        let before = least_room(csr, arcs, least, (upto - 1) as nat);
        let room = csr.residual(arcs[upto - 1] as int);
        if room < before {
            room
        } else {
            before
        }
    }
}

/// The excesses after `amount` has been pushed along each of the first
/// `upto` arcs of `arcs`, one after the other: out of the excess of the
/// tail of each arc and into the excess of its head, the nearest `i64`
/// where a sum does not fit.
pub open spec fn carried(csr: &CSR, excesses: Seq<i64>, arcs: Seq<usize>, amount: int, upto: nat) -> Seq<i64>
    decreases upto,
{
    if upto == 0 {
        excesses
    } else {
        let before = carried(csr, excesses, arcs, amount, (upto - 1) as nat);
        let a = arcs[upto - 1] as int;
        let out = before.update(csr.tail(a), crate::arith::clamp(before[csr.tail(a)] - amount) as i64);
        let to = csr.inside_edge_list@[a].to as int;
        out.update(to, crate::arith::clamp(out[to] + amount) as i64)
    }
}

/// The least room among the first arcs of a list is that among the same
/// arcs of a longer list.
pub proof fn lemma_least_room_prefix(csr: &CSR, arcs: Seq<usize>, longer: Seq<usize>, least: int, upto: nat)
    requires
        upto <= arcs.len() <= longer.len(),
        forall|i: int| 0 <= i < arcs.len() ==> arcs[i] == longer[i],
    ensures
        least_room(csr, longer, least, upto) == least_room(csr, arcs, least, upto),
    decreases upto,
{
    if upto > 0 {
        lemma_least_room_prefix(csr, arcs, longer, least, (upto - 1) as nat);
    }
}

/// The least room is at most the room of each arc and at most `least`.
pub proof fn lemma_least_room_reaches(csr: &CSR, arcs: Seq<usize>, least: int, upto: nat, i: int)
    requires
        0 <= i < upto,
    ensures
        least_room(csr, arcs, least, upto) <= csr.residual(arcs[i] as int),
        least_room(csr, arcs, least, upto) <= least,
    decreases upto,
{
    if upto > 0 {
        if i < upto - 1 {
            lemma_least_room_reaches(csr, arcs, least, (upto - 1) as nat, i);
        } else if upto > 1 {
            lemma_least_room_reaches(csr, arcs, least, (upto - 1) as nat, 0);
        }
    }
}

/// Pushing along the first arcs of a list is pushing along the same arcs
/// of a longer list.
pub proof fn lemma_moved_along_prefix(
    list: Seq<crate::minimum_cost_flow::csr::InsideEdge>,
    arcs: Seq<usize>,
    longer: Seq<usize>,
    amount: int,
    upto: nat,
)
    requires
        upto <= arcs.len() <= longer.len(),
        forall|i: int| 0 <= i < arcs.len() ==> arcs[i] == longer[i],
    ensures
        moved_along(list, longer, amount, upto) == moved_along(list, arcs, amount, upto),
    decreases upto,
{
    if upto > 0 {
        lemma_moved_along_prefix(list, arcs, longer, amount, (upto - 1) as nat);
    }
}

/// The excesses after pushes along the first arcs of a list are those
/// after pushes along the same arcs of a longer list.
pub proof fn lemma_carried_prefix(
    csr: &CSR,
    excesses: Seq<i64>,
    arcs: Seq<usize>,
    longer: Seq<usize>,
    amount: int,
    upto: nat,
)
    requires
        upto <= arcs.len() <= longer.len(),
        forall|i: int| 0 <= i < arcs.len() ==> arcs[i] == longer[i],
    ensures
        carried(csr, excesses, longer, amount, upto) == carried(csr, excesses, arcs, amount, upto),
    decreases upto,
{
    if upto > 0 {
        lemma_carried_prefix(csr, excesses, arcs, longer, amount, (upto - 1) as nat);
    }
}

} // verus!
