use crate::adjacency::{Layout, arc_layout, in_range, incidences_below, is_partition, layout_serves, lemma_range_unique, slot_from, slot_to};
use crate::arith::{clamp, sat_add, sat_neg, sat_sub};
use crate::counting::{lemma_occurrences_overwrite, occurrences};
use crate::counting::lemma_contains_after_remove;
use crate::min_queue::{comes_first, lemma_waits_after_push, lemma_waits_after_remove, waits, MinQueue};
use crate::minimum_cost_flow::feasibility::{find_feasible_flow, fits, lemma_fits_same_problem, lemma_same_network_symmetric};
use crate::minimum_cost_flow::graph::{supply_sum, Edge, Graph};
use crate::minimum_cost_flow::finishing::{cancel_negative_cycles, lemma_settled_is_slack, potentials_from};
use crate::minimum_cost_flow::optimality::{is_feasible, is_slack};
use crate::network::{lemma_same_network_transitive, net_out, Link};
use crate::minimum_cost_flow::status::Status;
use crate::network::same_network;
use vstd::prelude::*;

verus! {

/// One arc of the residual graph. Arcs come in pairs: `rev` is the index of
/// the arc in the opposite direction, which carries the complementary flow
/// at the opposite cost.
#[derive(PartialEq, Eq, Structural, Debug, Clone, Copy)]
pub struct InsideEdge {
    pub to: usize,
    pub flow: i64,
    pub upper: i64,
    pub cost: i64,
    pub rev: usize,
}

impl Default for InsideEdge {
    fn default() -> (edge: Self)
        ensures
            edge == (InsideEdge { to: 0, flow: 0, upper: 0, cost: 0, rev: 0 }),
    {
        InsideEdge { to: 0, flow: 0, upper: 0, cost: 0, rev: 0 }
    }
}

impl InsideEdge {
    /// How much more flow the arc can take.
    pub fn residual_capacity(&self) -> (residual: i64)
        requires
            i64::MIN <= self.upper - self.flow <= i64::MAX,
        ensures
            residual == self.upper - self.flow,
    {
        self.upper - self.flow
    }

    /// Whether the flow lies within the capacity.
    pub fn is_feasible(&self) -> (feasible: bool)
        ensures
            feasible == (0 <= self.flow <= self.upper),
    {
        0 <= self.flow && self.flow <= self.upper
    }
}

/// Residual graph in compressed sparse-row form, with a cost on every arc
/// and an excess and a potential for every node.
pub struct CSR {
    pub num_nodes: usize,
    pub num_edges: usize,
    pub edge_index_to_inside_edge_index: Vec<usize>,
    pub excesses: Vec<i64>,
    pub potentials: Vec<i64>,
    pub start: Vec<usize>,
    pub inside_edge_list: Vec<InsideEdge>,
}

impl Default for CSR {
    fn default() -> (csr: Self)
        ensures
            csr.num_nodes == 0,
            csr.num_edges == 0,
    {
        CSR {
            num_nodes: 0,
            num_edges: 0,
            edge_index_to_inside_edge_index: Vec::new(),
            excesses: Vec::new(),
            potentials: Vec::new(),
            start: Vec::new(),
            inside_edge_list: Vec::new(),
        }
    }
}

/// Arc `a` of `list` is paired with its reverse, lies among the arcs of its
/// tail and carries a flow within its capacity.
pub open spec fn arc_valid(list: Seq<InsideEdge>, start: Seq<usize>, n: int, a: int) -> bool {
    let arc = list[a];
    let back = list[arc.rev as int];
    &&& arc.to < n
    &&& arc.rev < list.len()
    &&& arc.rev != a
    &&& back.rev == a
    &&& back.upper == arc.upper
    &&& 0 <= arc.flow <= arc.upper
    &&& back.flow == arc.upper - arc.flow
    &&& in_range(start, back.to as int, a)
}

/// What a search along arcs with residual capacity found: tentative
/// distances, the arc by which each node was reached last, the nodes whose
/// distance is settled, and the node at which the search stopped, if it
/// stopped early.
pub struct Paths {
    pub dist: Vec<Option<i64>>,
    pub prev: Vec<Option<usize>>,
    pub visited: Vec<bool>,
    pub target: Option<usize>,
}

/// The settled nodes form a tree rooted at `source`: every other settled
/// node was reached by an arc with residual capacity from a node that was
/// settled earlier.
pub open spec fn is_path_tree(
    csr: &CSR,
    source: int,
    visited: Seq<bool>,
    prev: Seq<Option<usize>>,
    rank: Seq<int>,
) -> bool {
    &&& visited.len() == csr.num_nodes
    &&& prev.len() == csr.num_nodes
    &&& rank.len() == csr.num_nodes
    &&& 0 <= source < csr.num_nodes
    &&& visited[source]
    &&& prev[source].is_none()
    &&& forall|w: int|
        0 <= w < csr.num_nodes && visited[w] && w != source && (#[trigger] prev[w]) == prev[w] ==> {
            &&& prev[w] matches Some(e)
            &&& e < csr.inside_edge_list@.len()
            &&& csr.inside_edge_list@[e as int].to == w
            &&& csr.residual(e as int) > 0
            &&& visited[csr.tail(e as int)]
            &&& 0 <= rank[csr.tail(e as int)] < rank[w]
        }
}

impl CSR {
    /// Node that arc `a` leaves.
    pub open spec fn tail(&self, a: int) -> int {
        self.inside_edge_list@[self.inside_edge_list@[a].rev as int].to as int
    }

    /// Residual capacity of arc `a`.
    pub open spec fn residual(&self, a: int) -> int {
        self.inside_edge_list@[a].upper - self.inside_edge_list@[a].flow
    }

    /// Arc `a` is paired with its reverse, lies among the arcs of its tail
    /// and carries a flow within its capacity.
    pub open spec fn arc_ok(&self, a: int) -> bool {
        arc_valid(self.inside_edge_list@, self.start@, self.num_nodes as int, a)
    }

    /// The structure is a residual graph of `num_edges` paired arcs over
    /// `num_nodes` nodes, with an excess and a potential for every node.
    pub open spec fn wf(&self) -> bool {
        &&& self.num_nodes < usize::MAX
        &&& is_partition(self.start@, self.num_nodes as int, 2 * self.num_edges)
        &&& self.inside_edge_list@.len() == 2 * self.num_edges
        &&& self.edge_index_to_inside_edge_index@.len() == self.num_edges
        &&& self.excesses@.len() == self.num_nodes
        &&& self.potentials@.len() == self.num_nodes
        &&& forall|a: int|
            #![trigger self.inside_edge_list@[a]]
            #![trigger arc_valid(self.inside_edge_list@, self.start@, self.num_nodes as int, a)]
            0 <= a < 2 * self.num_edges ==> arc_valid(self.inside_edge_list@, self.start@, self.num_nodes as int, a)
        &&& forall|e: int|
            0 <= e < self.num_edges ==> (#[trigger] self.edge_index_to_inside_edge_index@[e]) < 2 * self.num_edges
    }

    /// `self` and `other` are the same graph up to flows, excesses and potentials.
    pub open spec fn same_shape(&self, other: &CSR) -> bool {
        &&& self.num_nodes == other.num_nodes
        &&& self.num_edges == other.num_edges
        &&& self.start@ == other.start@
        &&& self.edge_index_to_inside_edge_index@ == other.edge_index_to_inside_edge_index@
        &&& self.inside_edge_list@.len() == other.inside_edge_list@.len()
        &&& forall|a: int|
            0 <= a < self.inside_edge_list@.len() ==> (#[trigger] self.inside_edge_list@[a]).to
                == other.inside_edge_list@[a].to && self.inside_edge_list@[a].rev == other.inside_edge_list@[a].rev
                && self.inside_edge_list@[a].upper == other.inside_edge_list@[a].upper
                && self.inside_edge_list@[a].cost == other.inside_edge_list@[a].cost
    }

    /// The structure has the nodes of `graph` and for every edge of `graph`
    /// a forward arc of the same capacity.
    pub open spec fn models(&self, graph: &Graph) -> bool {
        &&& self.num_nodes == graph.num_nodes
        &&& self.num_edges == graph.num_edges
        &&& forall|e: int|
            0 <= e < self.num_edges ==> self.inside_edge_list@[(
            #[trigger] self.edge_index_to_inside_edge_index@[e]) as int].upper == graph.edges@[e].upper
    }

    /// Arc `a` leaves node `u`.
    pub open spec fn leaves(&self, u: int, a: int) -> bool {
        in_range(self.start@, u, a)
    }

    /// An arc found among the arcs of `u` has `u` as its tail.
    pub proof fn lemma_tail(&self, u: int, a: int)
        requires
            self.wf(),
            self.leaves(u, a),
        ensures
            0 <= a < 2 * self.num_edges,
            self.tail(a) == u,
            self.arc_ok(a),
    {
        assert(self.start@[u + 1] <= self.start@[self.num_nodes as int]);
        assert(self.arc_ok(a));
        lemma_range_unique(self.start@, self.num_nodes as int, 2 * self.num_edges, u, self.tail(a), a);
    }

    /// Rebuilds the structure for `graph`, with the flows and excesses of
    /// `graph` and all potentials zero.
    pub fn build(&mut self, graph: &Graph)
        requires
            graph.wf(),
            graph.node_count() < usize::MAX,
            2 * graph@.len() <= usize::MAX,
        ensures
            final(self).wf(),
            final(self).models(graph),
            final(self).excesses@ == graph.excesses@,
            forall|u: int| 0 <= u < final(self).num_nodes ==> #[trigger] final(self).potentials@[u] == 0,
            final(self).start@.len() == final(self).num_nodes + 1,
            forall|j: int|
                0 <= j <= final(self).num_nodes ==> #[trigger] final(self).start@[j] == incidences_below(
                    ends_of(graph.edges@),
                    graph.edges@.len() as int,
                    j,
                ),
            forall|e: int|
                0 <= e < graph.edges@.len() ==> #[trigger] final(self).edge_index_to_inside_edge_index@[e] == slot_from(
                    ends_of(graph.edges@),
                    e,
                ),
            forall|e: int|
                0 <= e < graph.edges@.len() ==> #[trigger] final(self).inside_edge_list@[slot_from(ends_of(graph.edges@), e)]
                    == (InsideEdge {
                    to: graph.edges@[e].to,
                    flow: graph.edges@[e].flow,
                    upper: graph.edges@[e].upper,
                    cost: graph.edges@[e].cost,
                    rev: slot_to(ends_of(graph.edges@), e) as usize,
                }),
            forall|e: int|
                0 <= e < graph.edges@.len() ==> #[trigger] final(self).inside_edge_list@[slot_to(ends_of(graph.edges@), e)]
                    == (InsideEdge {
                    to: graph.edges@[e].from,
                    flow: (graph.edges@[e].upper - graph.edges@[e].flow) as i64,
                    upper: graph.edges@[e].upper,
                    cost: (-graph.edges@[e].cost) as i64,
                    rev: slot_from(ends_of(graph.edges@), e) as usize,
                }),
    {
        let n = graph.num_nodes();
        let m = graph.num_edges();
        let mut ends: Vec<(usize, usize)> = Vec::new();
        for e in 0..m
            invariant
                graph.wf(),
                m == graph@.len(),
                n == graph.node_count(),
                ends@.len() == e,
                forall|i: int| 0 <= i < e ==> #[trigger] ends@[i] == (graph.edges@[i].from, graph.edges@[i].to),
        {
            ends.push((graph.edges[e].from, graph.edges[e].to));
        }
        let Layout { start, forward, backward, owner } = arc_layout(n, &ends);
        proof {
            assert(ends@ =~= ends_of(graph.edges@));
        }

        self.num_nodes = n;
        self.num_edges = m;
        self.excesses = graph.excesses.clone();
        self.start = start;
        self.potentials = vec![0i64; n];
        self.inside_edge_list = vec![InsideEdge { to: 0, flow: 0, upper: 0, cost: 0, rev: 0 }; 2 * m];
        for e in 0..m
            invariant
                graph.wf(),
                m == graph@.len(),
                n == graph.node_count(),
                2 * m <= usize::MAX,
                ends@.len() == m,
                forall|i: int| 0 <= i < m ==> #[trigger] ends@[i] == (graph.edges@[i].from, graph.edges@[i].to),
                layout_serves(self.start@, forward@, backward@, owner@, n as int, ends@),
                ends@ == ends_of(graph.edges@),
                forall|j: int| 0 <= j <= n ==> #[trigger] self.start@[j] == incidences_below(ends@, m as int, j),
                forall|i: int| 0 <= i < m ==> #[trigger] forward@[i] == slot_from(ends@, i),
                forall|i: int| 0 <= i < m ==> #[trigger] backward@[i] == slot_to(ends@, i),
                self.num_nodes == n,
                self.num_edges == m,
                n < usize::MAX,
                self.excesses@ == graph.excesses@,
                self.potentials@.len() == n,
                forall|u: int| 0 <= u < n ==> #[trigger] self.potentials@[u] == 0,
                self.inside_edge_list@.len() == 2 * m,
                forall|i: int|
                    0 <= i < e ==> (#[trigger] self.inside_edge_list@[forward@[i] as int]) == (InsideEdge {
                        to: graph.edges@[i].to,
                        flow: graph.edges@[i].flow,
                        upper: graph.edges@[i].upper,
                        cost: graph.edges@[i].cost,
                        rev: backward@[i],
                    }),
                forall|i: int|
                    0 <= i < e ==> (#[trigger] self.inside_edge_list@[backward@[i] as int]) == (InsideEdge {
                        to: graph.edges@[i].from,
                        flow: (graph.edges@[i].upper - graph.edges@[i].flow) as i64,
                        upper: graph.edges@[i].upper,
                        cost: (-graph.edges@[i].cost) as i64,
                        rev: forward@[i],
                    }),
        {
            let edge = &graph.edges[e];
            let slot_from = forward[e];
            let slot_to = backward[e];
            proof {
                assert(in_range(self.start@, ends@[e as int].0 as int, forward@[e as int] as int));
                assert(in_range(self.start@, ends@[e as int].1 as int, backward@[e as int] as int));
                assert(self.start@[ends@[e as int].0 as int + 1] <= self.start@[n as int]);
                assert(self.start@[ends@[e as int].1 as int + 1] <= self.start@[n as int]);
                assert forall|i: int| 0 <= i < e implies forward@[i] != slot_from && forward@[i] != slot_to
                    && backward@[i] != slot_from && backward@[i] != slot_to by {
                    assert(owner@[forward@[i] as int] == i);
                    assert(owner@[backward@[i] as int] == i);
                }
            }
            // u -> v
            self.inside_edge_list[slot_from] = InsideEdge {
                to: edge.to,
                flow: edge.flow,
                upper: edge.upper,
                cost: edge.cost,
                rev: slot_to,
            };
            // v -> u
            self.inside_edge_list[slot_to] = InsideEdge {
                to: edge.from,
                flow: edge.upper - edge.flow,
                upper: edge.upper,
                cost: -edge.cost,
                rev: slot_from,
            };
        }
        let ghost slots = forward@;
        self.edge_index_to_inside_edge_index = forward;
        proof {
            let map = self.edge_index_to_inside_edge_index@;
            assert(map == slots);
            assert(layout_serves(self.start@, map, backward@, owner@, n as int, ends@));
            assert forall|e: int| 0 <= e < m implies #[trigger] self.inside_edge_list@[slot_from(ends@, e)] == (InsideEdge {
                to: graph.edges@[e].to,
                flow: graph.edges@[e].flow,
                upper: graph.edges@[e].upper,
                cost: graph.edges@[e].cost,
                rev: slot_to(ends@, e) as usize,
            }) by {
                assert(map[e] == slot_from(ends@, e));
                assert(backward@[e] == slot_to(ends@, e));
            }
            assert forall|e: int| 0 <= e < m implies #[trigger] self.inside_edge_list@[slot_to(ends@, e)] == (InsideEdge {
                to: graph.edges@[e].from,
                flow: (graph.edges@[e].upper - graph.edges@[e].flow) as i64,
                upper: graph.edges@[e].upper,
                cost: (-graph.edges@[e].cost) as i64,
                rev: slot_from(ends@, e) as usize,
            }) by {
                assert(map[e] == slot_from(ends@, e));
                assert(backward@[e] == slot_to(ends@, e));
            }
            assert forall|a: int| 0 <= a < 2 * self.num_edges implies arc_valid(
                self.inside_edge_list@,
                self.start@,
                self.num_nodes as int,
                a,
            ) by {
                let i = owner@[a];
                assert(0 <= i < m);
                assert(ends@[i] == (graph.edges@[i].from, graph.edges@[i].to));
                assert(in_range(self.start@, ends@[i].0 as int, map[i] as int));
                assert(in_range(self.start@, ends@[i].1 as int, backward@[i] as int));
                assert(self.start@[ends@[i].0 as int + 1] <= self.start@[n as int]);
                assert(self.start@[ends@[i].1 as int + 1] <= self.start@[n as int]);
                assert(self.inside_edge_list@[map[i] as int].rev == backward@[i]);
                assert(self.inside_edge_list@[backward@[i] as int].rev == map[i]);
            }
            assert forall|e: int| 0 <= e < self.num_edges implies self.inside_edge_list@[(
            #[trigger] self.edge_index_to_inside_edge_index@[e]) as int].upper == graph.edges@[e].upper by {
                assert(in_range(self.start@, ends@[e].0 as int, map[e] as int));
                assert(self.start@[ends@[e].0 as int + 1] <= self.start@[n as int]);
            }
        }
    }

    /// Writes the excess of every node and the flow of every edge back into `graph`.
    pub fn set_flow(&self, graph: &mut Graph)
        requires
            self.wf(),
            old(graph).wf(),
            self.models(old(graph)),
        ensures
            final(graph).wf(),
            final(graph).num_nodes == old(graph).num_nodes,
            final(graph).num_edges == old(graph).num_edges,
            final(graph).b == old(graph).b,
            final(graph).lowers == old(graph).lowers,
            final(graph).is_reversed == old(graph).is_reversed,
            final(graph).excesses@ == self.excesses@,
            forall|e: int|
                0 <= e < old(graph).num_edges ==> #[trigger] final(graph).edges@[e] == (Edge {
                    flow: self.inside_edge_list@[self.edge_index_to_inside_edge_index@[e] as int].flow,
                    ..old(graph).edges@[e]
                }),
            same_network(final(graph).links(), old(graph).links()),
    {
        graph.excesses = self.excesses.clone();
        let m = graph.num_edges();
        for edge_id in 0..m
            invariant
                self.wf(),
                graph.wf(),
                self.models(old(graph)),
                m == graph.num_edges,
                graph.num_nodes == old(graph).num_nodes,
                graph.num_edges == old(graph).num_edges,
                graph.b == old(graph).b,
                graph.lowers == old(graph).lowers,
                graph.is_reversed == old(graph).is_reversed,
                graph.excesses@ == self.excesses@,
                graph.edges@.len() == old(graph).edges@.len(),
                forall|e: int|
                    0 <= e < edge_id ==> #[trigger] graph.edges@[e] == (Edge {
                        flow: self.inside_edge_list@[self.edge_index_to_inside_edge_index@[e] as int].flow,
                        ..old(graph).edges@[e]
                    }),
                forall|e: int| edge_id <= e < m ==> #[trigger] graph.edges@[e] == old(graph).edges@[e],
        {
            let i = self.edge_index_to_inside_edge_index[edge_id];
            proof {
                assert(self.arc_ok(i as int));
            }
            graph.edges[edge_id].flow = self.inside_edge_list[i].flow;
        }
        proof {
            assert forall|e: int| 0 <= e < m implies (#[trigger] graph.links()[e]).from == old(graph).links()[e].from
                && graph.links()[e].to == old(graph).links()[e].to && graph.links()[e].lower == old(graph).links()[e].lower && graph.links()[e].upper == old(graph).links()[e].upper && graph.links()[e].cost
                == old(graph).links()[e].cost by {
                assert(graph.edges@[e].from == old(graph).edges@[e].from);
            }
        }
    }

    /// The arcs out of node `u`.
    #[inline]
    pub fn neighbors(&self, u: usize) -> (arcs: &[InsideEdge])
        requires
            self.wf(),
            u < self.num_nodes,
        ensures
            arcs@ == self.inside_edge_list@.subrange(self.start@[u as int] as int, self.start@[u + 1] as int),
    {
        proof {
            assert(self.start@[u as int] <= self.start@[u + 1]);
            assert(self.start@[u + 1] <= self.start@[self.num_nodes as int]);
        }
        &self.inside_edge_list[self.start[u]..self.start[u + 1]]
    }

    /// Puts `flow` more onto arc `edge_id` and takes it off the reverse arc.
    #[inline]
    pub fn add_flow(&mut self, edge_id: usize, flow: i64)
        requires
            old(self).wf(),
            edge_id < old(self).inside_edge_list@.len(),
            0 <= old(self).inside_edge_list@[edge_id as int].flow + flow <= old(self).inside_edge_list@[edge_id as int].upper,
        ensures
            final(self).wf(),
            final(self).same_shape(old(self)),
            final(self).potentials == old(self).potentials,
            final(self).excesses == old(self).excesses,
            final(self).inside_edge_list@[edge_id as int].flow == old(self).inside_edge_list@[edge_id as int].flow + flow,
            forall|a: int|
                0 <= a < old(self).inside_edge_list@.len() && a != edge_id && a != old(self).inside_edge_list@[edge_id as int].rev
                    ==> #[trigger] final(self).inside_edge_list@[a] == old(self).inside_edge_list@[a],
            final(self).inside_edge_list@ == crate::minimum_cost_flow::pushing::moved(
                old(self).inside_edge_list@,
                edge_id as int,
                flow as int,
            ),
    {
        proof {
            assert(self.arc_ok(edge_id as int));
            assert(self.arc_ok(self.inside_edge_list@[edge_id as int].rev as int));
        }
        let rev = self.inside_edge_list[edge_id].rev;
        self.inside_edge_list[edge_id].flow += flow;
        self.inside_edge_list[rev].flow -= flow;
        proof {
            assert(self.inside_edge_list@ =~= crate::minimum_cost_flow::pushing::moved(
                old(self).inside_edge_list@,
                edge_id as int,
                flow as int,
            ));
        }
        proof {
            assert forall|b: int| 0 <= b < 2 * self.num_edges implies arc_valid(
                self.inside_edge_list@,
                self.start@,
                self.num_nodes as int,
                b,
            ) by {
                assert(old(self).arc_ok(b));
                assert(old(self).arc_ok(old(self).inside_edge_list@[b].rev as int));
            }
        }
    }

    /// When the flows change but the shape stays, the structure still
    /// has for every edge of the graph a forward arc of the same capacity.
    pub proof fn lemma_models_same_shape(&self, other: &CSR, graph: &Graph)
        requires
            self.same_shape(other),
            other.wf(),
            other.models(graph),
        ensures
            self.models(graph),
    {
        assert forall|e: int| 0 <= e < self.num_edges implies self.inside_edge_list@[(
        #[trigger] self.edge_index_to_inside_edge_index@[e]) as int].upper == graph.edges@[e].upper by {
            assert(other.edge_index_to_inside_edge_index@[e] < 2 * other.num_edges);
        }
    }

    /// `self` and `other` are the same graph up to flows, costs, excesses
    /// and potentials.
    pub open spec fn same_shape_but_costs(&self, other: &CSR) -> bool {
        &&& self.num_nodes == other.num_nodes
        &&& self.num_edges == other.num_edges
        &&& self.start@ == other.start@
        &&& self.edge_index_to_inside_edge_index@ == other.edge_index_to_inside_edge_index@
        &&& self.inside_edge_list@.len() == other.inside_edge_list@.len()
        &&& forall|a: int|
            0 <= a < self.inside_edge_list@.len() ==> (#[trigger] self.inside_edge_list@[a]).to
                == other.inside_edge_list@[a].to && self.inside_edge_list@[a].rev == other.inside_edge_list@[a].rev
                && self.inside_edge_list@[a].upper == other.inside_edge_list@[a].upper
    }

    /// Gives arc `edge_id` the cost `cost`.
    pub fn set_cost(&mut self, edge_id: usize, cost: i64)
        requires
            old(self).wf(),
            edge_id < old(self).inside_edge_list@.len(),
        ensures
            final(self).wf(),
            final(self).same_shape_but_costs(old(self)),
            final(self).potentials == old(self).potentials,
            final(self).excesses == old(self).excesses,
            final(self).inside_edge_list@ == old(self).inside_edge_list@.update(
                edge_id as int,
                InsideEdge { cost, ..old(self).inside_edge_list@[edge_id as int] },
            ),
    {
        self.inside_edge_list[edge_id].cost = cost;
        proof {
            assert forall|b: int| 0 <= b < 2 * self.num_edges implies arc_valid(
                self.inside_edge_list@,
                self.start@,
                self.num_nodes as int,
                b,
            ) by {
                assert(old(self).arc_ok(b));
                assert(old(self).arc_ok(old(self).inside_edge_list@[b].rev as int));
            }
        }
    }

    /// When flows and costs change but the shape stays, the structure
    /// still has for every edge of the graph a forward arc of the same capacity.
    pub proof fn lemma_models_but_costs(&self, other: &CSR, graph: &Graph)
        requires
            self.same_shape_but_costs(other),
            other.wf(),
            other.models(graph),
        ensures
            self.models(graph),
    {
        assert forall|e: int| 0 <= e < self.num_edges implies self.inside_edge_list@[(
        #[trigger] self.edge_index_to_inside_edge_index@[e]) as int].upper == graph.edges@[e].upper by {
            assert(other.edge_index_to_inside_edge_index@[e] < 2 * other.num_edges);
        }
    }

    /// No arc with residual capacity leads to a node with a label greater
    /// than the label of its tail plus its cost.
    pub open spec fn labels_settled(&self, labels: Seq<i64>) -> bool {
        &&& labels.len() == self.num_nodes
        &&& forall|u: int, a: int|
            #[trigger] self.leaves(u, a) && self.residual(a) > 0 ==> labels[self.inside_edge_list@[a].to as int]
                <= clamp(labels[u] + self.inside_edge_list@[a].cost)
    }

    /// The potentials are the negated `labels`.
    pub open spec fn priced_by(&self, labels: Seq<i64>) -> bool {
        forall|u: int| 0 <= u < self.num_nodes ==> #[trigger] self.potentials@[u] == clamp(-labels[u])
    }

    /// Computes node potentials for the flow as it stands: corrects
    /// labels along the arcs with residual capacity, round after round,
    /// until a round changes no label, and makes the labels, negated, the
    /// potentials. Gives up after `num_nodes` rounds, leaves the
    /// potentials as they are and says so.
    fn price(&mut self) -> (settled: bool)
        requires
            old(self).wf(),
        ensures
            final(self).wf(),
            final(self).same_shape(old(self)),
            final(self).inside_edge_list == old(self).inside_edge_list,
            final(self).excesses == old(self).excesses,
            !settled ==> final(self).potentials == old(self).potentials,
            settled ==> exists|labels: Seq<i64>| #[trigger]
                final(self).labels_settled(labels) && final(self).priced_by(labels),
            settled == settles_within(
                old(self),
                Seq::new(old(self).num_nodes as nat, |u: int| 0i64),
                old(self).num_nodes as nat,
            ).is_some(),
            settled ==> final(self).priced_by(
                settles_within(
                    old(self),
                    Seq::new(old(self).num_nodes as nat, |u: int| 0i64),
                    old(self).num_nodes as nat,
                ).unwrap(),
            ),
    {
        let n = self.num_nodes;
        let mut dist: Vec<i64> = vec![0i64; n];
        proof {
            assert(dist@ =~= Seq::new(n as nat, |u: int| 0i64));
        }
        for round in 0..n
            invariant
                self.wf(),
                *self == *old(self),
                n == self.num_nodes,
                dist@.len() == n,
                settles_within(self, dist@, (n - round) as nat) == settles_within(
                    self,
                    Seq::new(n as nat, |u: int| 0i64),
                    n as nat,
                ),
        {
            let mut updated = false;
            let ghost begun = dist@;
            proof {
                assert(self.start@[0] == 0);
            }
            for u in 0..n
                invariant
                    self.wf(),
                    *self == *old(self),
                    n == self.num_nodes,
                    dist@.len() == n,
                    begun.len() == n,
                    (dist@, updated) == corrected(self, begun, self.start@[u as int] as int),
                    !updated ==> dist@ == begun && forall|w: int, a: int|
                        #[trigger] self.leaves(w, a) && w < u && self.residual(a) > 0
                            ==> dist@[self.inside_edge_list@[a].to as int] <= clamp(
                            dist@[w] + self.inside_edge_list@[a].cost,
                        ),
            {
                proof {
                    assert(self.start@[u as int] <= self.start@[u + 1]);
                    assert(self.start@[u + 1] <= self.start@[n as int]);
                }
                let first = self.start[u];
                let last = self.start[u + 1];
                for edge_index in first..last
                    invariant
                        self.wf(),
                        *self == *old(self),
                        n == self.num_nodes,
                        u < n,
                        dist@.len() == n,
                        begun.len() == n,
                        first == self.start@[u as int],
                        last == self.start@[u + 1],
                        first <= last,
                        last <= self.inside_edge_list@.len(),
                        (dist@, updated) == corrected(self, begun, edge_index as int),
                        !updated ==> dist@ == begun && forall|w: int, a: int|
                            #[trigger] self.leaves(w, a) && (w < u || (w == u && a < edge_index)) && self.residual(a)
                                > 0 ==> dist@[self.inside_edge_list@[a].to as int] <= clamp(
                                dist@[w] + self.inside_edge_list@[a].cost,
                            ),
                {
                    proof {
                        self.lemma_tail(u as int, edge_index as int);
                        self.lemma_corrected_len(begun, edge_index as int);
                    }
                    let edge = &self.inside_edge_list[edge_index];
                    let through = sat_add(dist[u], edge.cost);
                    if edge.residual_capacity() > 0 && through < dist[edge.to] {
                        dist[edge.to] = through;
                        updated = true;
                    }
                }
            }
            proof {
                assert(self.start@[n as int] == self.inside_edge_list@.len());
            }
            if !updated {
                for u in 0..n
                    invariant
                        self.wf(),
                        self.same_shape(old(self)),
                        self.inside_edge_list == old(self).inside_edge_list,
                        self.excesses == old(self).excesses,
                        n == self.num_nodes,
                        dist@.len() == n,
                        forall|w: int| 0 <= w < u ==> #[trigger] self.potentials@[w] == clamp(-dist@[w]),
                {
                    self.potentials[u] = sat_neg(dist[u]);
                }
                proof {
                    assert forall|w: int, a: int| #[trigger] self.leaves(w, a) && self.residual(a) > 0 implies dist@[self.inside_edge_list@[a].to as int]
                        <= clamp(dist@[w] + self.inside_edge_list@[a].cost) by {
                        if self.leaves(w, a) {
                            assert(old(self).leaves(w, a));
                        }
                    }
                    assert(self.labels_settled(dist@));
                    assert(self.priced_by(dist@));
                    assert(settles_within(old(self), begun, (n - round) as nat) == Some(begun));
                }
                return true;
            }
        }
        false
    }

    /// Correcting labels keeps their number.
    pub proof fn lemma_corrected_len(&self, labels: Seq<i64>, upto: int)
        requires
            self.wf(),
            labels.len() == self.num_nodes,
            upto <= self.inside_edge_list@.len(),
        ensures
            corrected(self, labels, upto).0.len() == labels.len(),
        decreases upto,
    {
        if upto > 0 {
            self.lemma_corrected_len(labels, upto - 1);
            assert(self.arc_ok(upto - 1));
        }
    }

    /// Moves `flow` along arc `edge_id` out of node `u`: onto the arc, off
    /// its reverse, out of the excess of `u` and into the excess of the
    /// head. An excess that an `i64` cannot hold stays at the nearest value.
    #[inline]
    pub fn push_flow(&mut self, u: usize, edge_id: usize, flow: i64)
        requires
            old(self).wf(),
            u < old(self).num_nodes,
            edge_id < old(self).inside_edge_list@.len(),
            0 <= old(self).inside_edge_list@[edge_id as int].flow + flow <= old(self).inside_edge_list@[edge_id as int].upper,
        ensures
            final(self).wf(),
            final(self).same_shape(old(self)),
            final(self).potentials == old(self).potentials,
            final(self).inside_edge_list@[edge_id as int].flow == old(self).inside_edge_list@[edge_id as int].flow + flow,
            forall|a: int|
                0 <= a < old(self).inside_edge_list@.len() && a != edge_id && a != old(self).inside_edge_list@[edge_id as int].rev
                    ==> #[trigger] final(self).inside_edge_list@[a] == old(self).inside_edge_list@[a],
            final(self).excesses@ == old(self).excesses@.update(
                u as int,
                clamp(old(self).excesses@[u as int] - flow) as i64,
            ).update(
                old(self).inside_edge_list@[edge_id as int].to as int,
                clamp(
                    old(self).excesses@.update(u as int, clamp(old(self).excesses@[u as int] - flow) as i64)[old(self).inside_edge_list@[edge_id as int].to as int] + flow,
                ) as i64,
            ),
            final(self).inside_edge_list@ == crate::minimum_cost_flow::pushing::moved(
                old(self).inside_edge_list@,
                edge_id as int,
                flow as int,
            ),
    {
        proof {
            assert(self.arc_ok(edge_id as int));
            assert(self.arc_ok(self.inside_edge_list@[edge_id as int].rev as int));
        }
        let rev = self.inside_edge_list[edge_id].rev;
        let to = self.inside_edge_list[edge_id].to;
        self.inside_edge_list[edge_id].flow += flow;
        self.inside_edge_list[rev].flow -= flow;
        proof {
            assert(self.inside_edge_list@ =~= crate::minimum_cost_flow::pushing::moved(
                old(self).inside_edge_list@,
                edge_id as int,
                flow as int,
            ));
        }
        self.excesses[u] = sat_sub(self.excesses[u], flow);
        self.excesses[to] = sat_add(self.excesses[to], flow);
        proof {
            assert forall|b: int| 0 <= b < 2 * self.num_edges implies arc_valid(
                self.inside_edge_list@,
                self.start@,
                self.num_nodes as int,
                b,
            ) by {
                assert(old(self).arc_ok(b));
                assert(old(self).arc_ok(old(self).inside_edge_list@[b].rev as int));
            }
        }
    }

    /// Reduced cost of an arc out of `u` under the potentials, each step of
    /// the sum kept within the range of `i64`.
    pub open spec fn reduced(&self, u: int, e: InsideEdge) -> int {
        clamp(clamp(e.cost - self.potentials@[u]) + self.potentials@[e.to as int])
    }

    /// Reduced cost of the arc `e` out of node `u`: its cost, less the
    /// potential of `u`, plus the potential of its head.
    #[inline]
    pub fn reduced_cost(&self, u: usize, e: &InsideEdge) -> (cost: i64)
        requires
            self.potentials@.len() == self.num_nodes,
            u < self.num_nodes,
            e.to < self.num_nodes,
        ensures
            cost == self.reduced(u as int, *e),
    {
        sat_add(sat_sub(e.cost, self.potentials[u]), self.potentials[e.to])
    }

    /// Reduced cost of the reverse of the arc `e` out of node `u`.
    #[inline]
    pub fn reduced_cost_rev(&self, u: usize, e: &InsideEdge) -> (cost: i64)
        requires
            self.potentials@.len() == self.num_nodes,
            u < self.num_nodes,
            e.to < self.num_nodes,
        ensures
            cost == clamp(-self.reduced(u as int, *e)),
    {
        sat_neg(self.reduced_cost(u, e))
    }

    /// No arc with residual capacity leads from a settled node to one that is not.
    pub open spec fn closed_under_residual(&self, visited: Seq<bool>) -> bool {
        forall|a: int|
            0 <= a < self.inside_edge_list@.len() && visited[self.tail(a)] && self.residual(a) > 0
                ==> visited[(#[trigger] self.inside_edge_list@[a]).to as int]
    }

    /// Length of the arc `arc` out of `u` for a search: its reduced cost,
    /// or zero where the reduced cost is negative and `clip` is set.
    pub open spec fn length(&self, u: int, arc: InsideEdge, clip: bool) -> int {
        if clip && self.reduced(u, arc) < 0 {
            0
        } else {
            self.reduced(u, arc)
        }
    }

    /// No arc with residual capacity has a negative length.
    pub open spec fn lengths_nonnegative(&self, clip: bool) -> bool {
        forall|a: int|
            0 <= a < self.inside_edge_list@.len() && self.residual(a) > 0 ==> self.length(
                self.tail(a),
                #[trigger] self.inside_edge_list@[a],
                clip,
            ) >= 0
    }

    /// The distance of every settled node but `source` is the distance of
    /// the node from which it was reached plus the length of the arc by
    /// which it was reached.
    pub open spec fn tree_is_tight(
        &self,
        source: int,
        visited: Seq<bool>,
        dist: Seq<Option<i64>>,
        prev: Seq<Option<usize>>,
        clip: bool,
    ) -> bool {
        forall|w: int|
            0 <= w < self.num_nodes && visited[w] && w != source && (#[trigger] prev[w]).is_some() ==> {
                let e = prev[w].unwrap() as int;
                dist[w] == Some(
                    clamp(dist[self.tail(e)].unwrap() + self.length(self.tail(e), self.inside_edge_list@[e], clip)) as i64,
                )
            }
    }

    /// No arc with residual capacity from a settled node other than
    /// `target` to a settled node is a shortcut: the distance of its head
    /// is at most the distance of its tail plus its length.
    pub open spec fn no_shortcut(
        &self,
        visited: Seq<bool>,
        dist: Seq<Option<i64>>,
        target: Option<usize>,
        clip: bool,
    ) -> bool {
        forall|a: int|
            0 <= a < self.inside_edge_list@.len() && visited[self.tail(a)] && target != Some(self.tail(a) as usize)
                && self.residual(a) > 0 && visited[(#[trigger] self.inside_edge_list@[a]).to as int]
                ==> dist[self.inside_edge_list@[a].to as int].unwrap() <= clamp(
                dist[self.tail(a)].unwrap() + self.length(self.tail(a), self.inside_edge_list@[a], clip),
            )
    }

    /// No arc with residual capacity that leaves the settled nodes leads
    /// nearer than node `t` is: the distance of its tail plus its length
    /// is no less than the distance of `t`.
    pub open spec fn none_nearer(&self, visited: Seq<bool>, dist: Seq<Option<i64>>, t: int, clip: bool) -> bool {
        forall|a: int|
            0 <= a < self.inside_edge_list@.len() && visited[self.tail(a)] && self.residual(a) > 0 && !visited[(
            #[trigger] self.inside_edge_list@[a]).to as int] ==> dist[t].unwrap() <= clamp(
                dist[self.tail(a)].unwrap() + self.length(self.tail(a), self.inside_edge_list@[a], clip),
            )
    }

    /// What `paths` holds is the outcome of a search from `source`: a tree
    /// of settled nodes, in which every node has the distance that the
    /// tree path from `source` gives it; and either a settled node with a
    /// deficit at which the search stopped, or no arc with residual
    /// capacity that leaves the settled nodes. Where no arc with residual
    /// capacity has a negative length, the distances are those of
    /// shortest paths: no arc between settled nodes is a shortcut.
    pub open spec fn found(&self, source: int, paths: &Paths, clip: bool, stop_at_deficit: bool) -> bool {
        &&& paths.dist@.len() == self.num_nodes
        &&& exists|rank: Seq<int>| #[trigger] is_path_tree(self, source, paths.visited@, paths.prev@, rank)
        &&& forall|w: int| 0 <= w < self.num_nodes && paths.visited@[w] ==> (#[trigger] paths.dist@[w]).is_some()
        &&& paths.dist@[source] == Some(0i64)
        &&& self.tree_is_tight(source, paths.visited@, paths.dist@, paths.prev@, clip)
        &&& self.lengths_nonnegative(clip) ==> self.no_shortcut(paths.visited@, paths.dist@, paths.target, clip)
        &&& paths.target.is_none() ==> forall|w: int|
            0 <= w < self.num_nodes && (#[trigger] paths.prev@[w]).is_some() ==> paths.visited@[w]
        &&& paths.target.is_none() ==> forall|w: int|
            0 <= w < self.num_nodes && (#[trigger] paths.dist@[w]).is_some() ==> paths.visited@[w]
        &&& self.lengths_nonnegative(clip) && paths.target.is_some() ==> self.none_nearer(
            paths.visited@,
            paths.dist@,
            paths.target.unwrap() as int,
            clip,
        )
        &&& match paths.target {
            Some(t) => stop_at_deficit && t < self.num_nodes && paths.visited@[t as int] && self.excesses@[t as int] < 0,
            None => {
                &&& self.closed_under_residual(paths.visited@)
                &&& stop_at_deficit ==> forall|w: int|
                    0 <= w < self.num_nodes && #[trigger] paths.visited@[w] ==> self.excesses@[w] >= 0
            },
        }
    }

    /// The labels of a search in progress fit together: every entry of
    /// the queue has a key that is no less than the distance of its
    /// node, every node that is reached and not settled waits with its
    /// distance as the key, and every node that was reached by an arc has
    /// the distance of the tail of the arc plus the length of the arc.
    pub open spec fn labels_fit(
        &self,
        source: int,
        visited: Seq<bool>,
        dist: Seq<Option<i64>>,
        prev: Seq<Option<usize>>,
        queue: Seq<(i64, usize)>,
        clip: bool,
    ) -> bool {
        &&& dist[source] == Some(0i64)
        &&& forall|i: int|
            0 <= i < queue.len() ==> (#[trigger] queue[i]).1 < self.num_nodes && dist[queue[i].1 as int].is_some()
                && dist[queue[i].1 as int].unwrap() <= queue[i].0
        &&& forall|x: int|
            0 <= x < self.num_nodes && !visited[x] && (#[trigger] dist[x]).is_some() ==> queue.contains(
                (dist[x].unwrap(), x as usize),
            )
        &&& forall|w: int|
            0 <= w < self.num_nodes && w != source && (#[trigger] prev[w]).is_some() ==> {
                let e = prev[w].unwrap() as int;
                &&& 0 <= e < self.inside_edge_list@.len()
                &&& visited[self.tail(e)]
                &&& dist[self.tail(e)].is_some()
                &&& dist[w] == Some(
                    clamp(dist[self.tail(e)].unwrap() + self.length(self.tail(e), self.inside_edge_list@[e], clip)) as i64,
                )
            }
    }

    /// The settled nodes are no farther than `horizon` and the entries of
    /// the queue no nearer, and no arc with residual capacity from a
    /// settled node whose arcs were gone through is a shortcut.
    pub open spec fn settled_in_order(
        &self,
        visited: Seq<bool>,
        dist: Seq<Option<i64>>,
        queue: Seq<(i64, usize)>,
        horizon: int,
    ) -> bool {
        &&& forall|x: int| 0 <= x < self.num_nodes && #[trigger] visited[x] ==> dist[x].unwrap() <= horizon
        &&& forall|i: int| 0 <= i < queue.len() ==> horizon <= (#[trigger] queue[i]).0
    }

    /// Arc `a` is no shortcut: its head is reached, and no farther than
    /// its tail plus its length.
    pub open spec fn is_no_shortcut(&self, dist: Seq<Option<i64>>, a: int, clip: bool) -> bool {
        let arc = self.inside_edge_list@[a];
        dist[arc.to as int].is_some() && dist[arc.to as int].unwrap() <= clamp(
            dist[self.tail(a)].unwrap() + self.length(self.tail(a), arc, clip),
        )
    }

    /// Searches from `source` along arcs with residual capacity, nearest
    /// node first, with the reduced cost as the length of an arc. With
    /// `clip`, a negative reduced cost counts as zero. With
    /// `stop_at_deficit`, the search stops at the first node it settles
    /// that has a negative excess.
    #[verifier::spinoff_prover]
    #[verifier::rlimit(100)]
    pub fn shortest_paths(&self, source: usize, clip: bool, stop_at_deficit: bool) -> (paths: Paths)
        requires
            self.wf(),
            source < self.num_nodes,
        ensures
            self.found(source as int, &paths, clip, stop_at_deficit),
    {
        let n = self.num_nodes;
        let mut prev: Vec<Option<usize>> = vec![None; n];
        let mut queue = MinQueue::new();
        let mut dist: Vec<Option<i64>> = vec![None; n];
        let mut visited: Vec<bool> = vec![false; n];
        let mut target: Option<usize> = None;

        queue.push(0, source);
        dist[source] = Some(0);
        let ghost mut rank: Seq<int> = Seq::new(n as nat, |w: int| 0int);
        let ghost mut clock: int = 0;
        let ghost mut horizon: int = 0;
        let ghost nonnegative = self.lengths_nonnegative(clip);
        proof {
            assert(queue@[0] == (0i64, source));
            assert(waits(queue@, source));
            assert(queue@.contains((0i64, source)));
        }
        while target.is_none() && queue.len() > 0
            invariant
                self.wf(),
                n == self.num_nodes,
                source < n,
                visited@.len() == n,
                prev@.len() == n,
                dist@.len() == n,
                rank.len() == n,
                0 <= clock,
                nonnegative == self.lengths_nonnegative(clip),
                prev@[source as int].is_none(),
                visited@[source as int] || (queue@ =~= seq![(0i64, source)] && target.is_none() && forall|x: int|
                    0 <= x < n ==> !#[trigger] visited@[x]),
                self.labels_fit(source as int, visited@, dist@, prev@, queue@, clip),
                nonnegative ==> self.settled_in_order(visited@, dist@, queue@, horizon),
                forall|x: int|
                    0 <= x < n && !visited@[x] && (#[trigger] dist@[x]).is_some() ==> waits(queue@, x as usize),
                forall|x: int| 0 <= x < n && (#[trigger] prev@[x]).is_some() ==> dist@[x].is_some(),
                forall|w: int| 0 <= w < n && #[trigger] visited@[w] ==> 0 <= rank[w] < clock && dist@[w].is_some(),
                forall|w: int|
                    0 <= w < n && w != source && (#[trigger] prev@[w]) == prev@[w] && (visited@[w] || prev@[w].is_some())
                        ==> {
                        &&& prev@[w] matches Some(e)
                        &&& e < self.inside_edge_list@.len()
                        &&& self.inside_edge_list@[e as int].to == w
                        &&& self.residual(e as int) > 0
                        &&& visited@[self.tail(e as int)]
                        &&& 0 <= rank[self.tail(e as int)]
                        &&& visited@[w] ==> rank[self.tail(e as int)] < rank[w]
                    },
                forall|i: int|
                    0 <= i < queue@.len() && (#[trigger] queue@[i]).1 != source ==> prev@[queue@[i].1 as int].is_some(),
                forall|a: int|
                    0 <= a < self.inside_edge_list@.len() && visited@[self.tail(a)] && target != Some(
                        self.tail(a) as usize,
                    ) && self.residual(a) > 0 ==> (visited@[(#[trigger] self.inside_edge_list@[a]).to as int] || waits(
                        queue@,
                        self.inside_edge_list@[a].to,
                    )) && (nonnegative ==> self.is_no_shortcut(dist@, a, clip)),
                match target {
                    Some(t) => stop_at_deficit && t < n && visited@[t as int] && self.excesses@[t as int] < 0,
                    None => stop_at_deficit ==> forall|w: int|
                        0 <= w < n && #[trigger] visited@[w] ==> self.excesses@[w] >= 0,
                },
                nonnegative && target.is_some() ==> dist@[target.unwrap() as int] == Some(horizon as i64),
            decreases occurrences(visited@, false), queue@.len(),
        {
            let ghost waiting = queue@;
            let (d, u) = queue.pop().unwrap();
            let ghost taken = choose|i: int| 0 <= i < waiting.len() && #[trigger] waiting[i] == (d, u) && queue@ == waiting.remove(i);
            proof {
                assert forall|i: int| 0 <= i < queue@.len() implies (#[trigger] queue@[i]).1 < n && dist@[queue@[i].1 as int].is_some()
                    && dist@[queue@[i].1 as int].unwrap() <= queue@[i].0 && (queue@[i].1 != source
                    ==> prev@[queue@[i].1 as int].is_some()) && d <= queue@[i].0 && (nonnegative ==> horizon
                    <= queue@[i].0) by {
                    if i < taken {
                        assert(queue@[i] == waiting[i]);
                    } else {
                        assert(queue@[i] == waiting[i + 1]);
                    }
                }
                assert forall|x: usize| x != u && waits(waiting, x) implies #[trigger] waits(queue@, x) by {
                    lemma_waits_after_remove(waiting, taken, x);
                }
                assert forall|item: (i64, usize)| item.1 != u && waiting.contains(item) implies #[trigger] queue@.contains(
                    item,
                ) by {
                    lemma_contains_after_remove(waiting, taken, item);
                }
            }
            if !visited[u] {
                let ghost seen = visited@;
                proof {
                    // the entry that was taken carries the distance of its node
                    let du = dist@[u as int].unwrap();
                    assert(waiting.contains((du, u)));
                    let j = choose|j: int| 0 <= j < waiting.len() && waiting[j] == (du, u);
                    assert(comes_first((d, u), waiting[j]));
                    assert(d == du);
                    if nonnegative {
                        assert(horizon <= waiting[taken].0);
                    }
                }
                visited[u] = true;
                proof {
                    lemma_occurrences_overwrite(seen, u as int, false, true);
                    rank = rank.update(u as int, clock);
                    clock = clock + 1;
                    horizon = d as int;
                    assert(waiting[taken].1 == u);
                    if u != source {
                        assert(prev@[u as int].is_some());
                        assert(seen[source as int]);
                    }
                    assert(self.labels_fit(source as int, visited@, dist@, prev@, queue@, clip)) by {
                        assert forall|x: int|
                            0 <= x < self.num_nodes && !visited@[x] && (#[trigger] dist@[x]).is_some() implies queue@.contains(
                            (dist@[x].unwrap(), x as usize),
                        ) by {
                            assert(waiting.contains((dist@[x].unwrap(), x as usize)));
                        }
                        assert forall|w: int|
                            0 <= w < self.num_nodes && w != source && (#[trigger] prev@[w]).is_some() implies {
                            let e = prev@[w].unwrap() as int;
                            &&& 0 <= e < self.inside_edge_list@.len()
                            &&& visited@[self.tail(e)]
                            &&& dist@[self.tail(e)].is_some()
                            &&& dist@[w] == Some(
                                clamp(
                                    dist@[self.tail(e)].unwrap() + self.length(
                                        self.tail(e),
                                        self.inside_edge_list@[e],
                                        clip,
                                    ),
                                ) as i64,
                            )
                        } by {
                            let e = prev@[w].unwrap() as int;
                            assert(seen[self.tail(e)]);
                        }
                    }
                }
                if stop_at_deficit && self.excesses[u] < 0 {
                    target = Some(u);
                } else {
                    proof {
                        assert(self.start@[u as int] <= self.start@[u + 1]);
                        assert(self.start@[u + 1] <= self.start@[n as int]);
                    }
                    let first = self.start[u];
                    let last = self.start[u + 1];
                    for edge_id in first..last
                        invariant
                            self.wf(),
                            n == self.num_nodes,
                            source < n,
                            u < n,
                            target.is_none(),
                            visited@.len() == n,
                            prev@.len() == n,
                            dist@.len() == n,
                            rank.len() == n,
                            first == self.start@[u as int],
                            last == self.start@[u + 1],
                            first <= last <= self.inside_edge_list@.len(),
                            visited@[u as int],
                            visited@[source as int],
                            0 <= rank[u as int],
                            horizon == d,
                            dist@[u as int] == Some(d),
                            nonnegative == self.lengths_nonnegative(clip),
                            prev@[source as int].is_none(),
                            stop_at_deficit ==> forall|w: int|
                                0 <= w < n && #[trigger] visited@[w] ==> self.excesses@[w] >= 0,
                            self.labels_fit(source as int, visited@, dist@, prev@, queue@, clip),
                            nonnegative ==> self.settled_in_order(visited@, dist@, queue@, horizon),
                            forall|x: int|
                                0 <= x < n && !visited@[x] && (#[trigger] dist@[x]).is_some() ==> waits(
                                    queue@,
                                    x as usize,
                                ),
                            forall|x: int| 0 <= x < n && (#[trigger] prev@[x]).is_some() ==> dist@[x].is_some(),
                            forall|w: int|
                                0 <= w < n && #[trigger] visited@[w] ==> 0 <= rank[w] < clock && dist@[w].is_some(),
                            forall|w: int|
                                0 <= w < n && w != source && (#[trigger] prev@[w]) == prev@[w] && (visited@[w]
                                    || prev@[w].is_some()) ==> {
                                    &&& prev@[w] matches Some(e)
                                    &&& e < self.inside_edge_list@.len()
                                    &&& self.inside_edge_list@[e as int].to == w
                                    &&& self.residual(e as int) > 0
                                    &&& visited@[self.tail(e as int)]
                                    &&& 0 <= rank[self.tail(e as int)]
                                    &&& visited@[w] ==> rank[self.tail(e as int)] < rank[w]
                                },
                            forall|i: int|
                                0 <= i < queue@.len() && (#[trigger] queue@[i]).1 != source
                                    ==> prev@[queue@[i].1 as int].is_some(),
                            forall|a: int|
                                0 <= a < self.inside_edge_list@.len() && visited@[self.tail(a)] && self.tail(a) != u
                                    && self.residual(a) > 0 ==> (visited@[(
                                #[trigger] self.inside_edge_list@[a]).to as int] || waits(
                                    queue@,
                                    self.inside_edge_list@[a].to,
                                )) && (nonnegative ==> self.is_no_shortcut(dist@, a, clip)),
                            forall|a: int|
                                first <= a < edge_id && self.residual(a) > 0 ==> (visited@[(
                                #[trigger] self.inside_edge_list@[a]).to as int] || waits(
                                    queue@,
                                    self.inside_edge_list@[a].to,
                                )) && (nonnegative ==> self.is_no_shortcut(dist@, a, clip)),
                    {
                        proof {
                            self.lemma_tail(u as int, edge_id as int);
                        }
                        let edge = &self.inside_edge_list[edge_id];
                        let to = edge.to;
                        let ghost labels = dist@;
                        if edge.residual_capacity() != 0 {
                            let reduced = self.reduced_cost(u, edge);
                            let length = if clip && reduced < 0 {
                                0
                            } else {
                                reduced
                            };
                            let new_dist = sat_add(d, length);
                            proof {
                                assert(length == self.length(u as int, *edge, clip));
                                if nonnegative {
                                    assert(length >= 0);
                                    assert(new_dist >= d);
                                }
                            }
                            if !visited[to] {
                                let improves = match dist[to] {
                                    None => true,
                                    Some(known) => known > new_dist,
                                };
                                if improves {
                                    let ghost waiting_now = queue@;
                                    let ghost reached = prev@;
                                    dist[to] = Some(new_dist);
                                    prev[to] = Some(edge_id);
                                    queue.push(new_dist, to);
                                    proof {
                                        assert forall|x: usize| waits(waiting_now, x) || x == to implies #[trigger] waits(
                                            queue@,
                                            x,
                                        ) by {
                                            lemma_waits_after_push(waiting_now, (new_dist, to), x);
                                        }
                                        assert forall|item: (i64, usize)|
                                            waiting_now.contains(item) || item == (new_dist, to) implies #[trigger] queue@.contains(
                                            item,
                                        ) by {
                                            crate::counting::lemma_contains_after_push(waiting_now, (new_dist, to), item);
                                        }
                                        assert forall|i: int| 0 <= i < queue@.len() implies (#[trigger] queue@[i]).1 < n
                                            && dist@[queue@[i].1 as int].is_some() && dist@[queue@[i].1 as int].unwrap()
                                            <= queue@[i].0 && (queue@[i].1 != source
                                            ==> prev@[queue@[i].1 as int].is_some()) && (nonnegative ==> horizon
                                            <= queue@[i].0) by {
                                            if i < waiting_now.len() {
                                                assert(queue@[i] == waiting_now[i]);
                                                assert(labels[waiting_now[i].1 as int].unwrap() <= waiting_now[i].0);
                                            }
                                        }
                                        assert forall|x: int|
                                            0 <= x < self.num_nodes && !visited@[x] && (#[trigger] dist@[x]).is_some() implies queue@.contains(
                                            (dist@[x].unwrap(), x as usize),
                                        ) by {
                                            if x != to {
                                                assert(labels[x].is_some());
                                                assert(waiting_now.contains((labels[x].unwrap(), x as usize)));
                                            }
                                        }
                                        assert forall|w: int|
                                            0 <= w < self.num_nodes && w != source && (#[trigger] prev@[w]).is_some() implies {
                                            let e = prev@[w].unwrap() as int;
                                            &&& 0 <= e < self.inside_edge_list@.len()
                                            &&& visited@[self.tail(e)]
                                            &&& dist@[self.tail(e)].is_some()
                                            &&& dist@[w] == Some(
                                                clamp(
                                                    dist@[self.tail(e)].unwrap() + self.length(
                                                        self.tail(e),
                                                        self.inside_edge_list@[e],
                                                        clip,
                                                    ),
                                                ) as i64,
                                            )
                                        } by {
                                            if w != to {
                                                assert(reached[w].is_some());
                                                let e = reached[w].unwrap() as int;
                                                assert(labels[self.tail(e)] == dist@[self.tail(e)]);
                                            }
                                        }
                                        assert(self.labels_fit(source as int, visited@, dist@, prev@, queue@, clip));
                                        if nonnegative {
                                            assert forall|x: int| 0 <= x < self.num_nodes && #[trigger] visited@[x] implies dist@[x].unwrap()
                                                <= horizon by {
                                                assert(labels[x] == dist@[x]);
                                            }
                                        }
                                        assert forall|a: int|
                                            0 <= a < self.inside_edge_list@.len() && visited@[self.tail(a)] && self.tail(
                                                a,
                                            ) != u && self.residual(a) > 0 implies (visited@[(
                                        #[trigger] self.inside_edge_list@[a]).to as int] || waits(
                                            queue@,
                                            self.inside_edge_list@[a].to,
                                        )) && (nonnegative ==> self.is_no_shortcut(dist@, a, clip)) by {
                                            assert(self.arc_ok(a));
                                            if nonnegative {
                                                assert(self.is_no_shortcut(labels, a, clip));
                                                assert(labels[self.tail(a)] == dist@[self.tail(a)]);
                                            }
                                            let head = self.inside_edge_list@[a].to;
                                            if !visited@[head as int] {
                                                assert(waits(waiting_now, head));
                                            }
                                        }
                                        assert forall|a: int|
                                            first <= a < edge_id + 1 && self.residual(a) > 0 implies (visited@[(
                                        #[trigger] self.inside_edge_list@[a]).to as int] || waits(
                                            queue@,
                                            self.inside_edge_list@[a].to,
                                        )) && (nonnegative ==> self.is_no_shortcut(dist@, a, clip)) by {
                                            self.lemma_tail(u as int, a);
                                            if a < edge_id {
                                                if nonnegative {
                                                    assert(self.is_no_shortcut(labels, a, clip));
                                                }
                                                let head = self.inside_edge_list@[a].to;
                                                if !visited@[head as int] {
                                                    assert(waits(waiting_now, head));
                                                }
                                            }
                                        }
                                    }
                                } else {
                                    proof {
                                        assert(dist@[to as int].is_some());
                                    }
                                }
                            } else {
                                proof {
                                    if nonnegative {
                                        assert(dist@[to as int].unwrap() <= horizon);
                                    }
                                }
                            }
                        }
                    }
                }
            } else {
                proof {
                    assert(self.labels_fit(source as int, visited@, dist@, prev@, queue@, clip)) by {
                        assert forall|x: int|
                            0 <= x < self.num_nodes && !visited@[x] && (#[trigger] dist@[x]).is_some() implies queue@.contains(
                            (dist@[x].unwrap(), x as usize),
                        ) by {
                            assert(waiting.contains((dist@[x].unwrap(), x as usize)));
                        }
                    }
                }
            }
        }
        proof {
            assert(is_path_tree(self, source as int, visited@, prev@, rank));
            if nonnegative && target.is_some() {
                let t = target.unwrap() as int;
                assert forall|a: int|
                    0 <= a < self.inside_edge_list@.len() && visited@[self.tail(a)] && self.residual(a) > 0 && !visited@[(
                    #[trigger] self.inside_edge_list@[a]).to as int] implies dist@[t].unwrap() <= clamp(
                    dist@[self.tail(a)].unwrap() + self.length(self.tail(a), self.inside_edge_list@[a], clip),
                ) by {
                    let head = self.inside_edge_list@[a].to as int;
                    if self.tail(a) != t {
                        assert(self.is_no_shortcut(dist@, a, clip));
                        assert(queue@.contains((dist@[head].unwrap(), head as usize)));
                        let i = choose|i: int| 0 <= i < queue@.len() && queue@[i] == (dist@[head].unwrap(), head as usize);
                        assert(horizon <= queue@[i].0);
                    } else {
                        assert(self.length(self.tail(a), self.inside_edge_list@[a], clip) >= 0);
                    }
                }
                assert(self.none_nearer(visited@, dist@, t, clip));
            }
            if target.is_none() {
                assert forall|w: int| 0 <= w < n && (#[trigger] prev@[w]).is_some() implies visited@[w] by {
                    assert(dist@[w].is_some());
                    assert(!waits(queue@, w as usize));
                }
                assert forall|w: int| 0 <= w < n && (#[trigger] dist@[w]).is_some() implies visited@[w] by {
                    assert(!waits(queue@, w as usize));
                }
                assert forall|a: int|
                    0 <= a < self.inside_edge_list@.len() && visited@[self.tail(a)] && self.residual(a) > 0 implies visited@[(
                #[trigger] self.inside_edge_list@[a]).to as int] by {
                    assert(!waits(queue@, self.inside_edge_list@[a].to));
                }
            }
        }
        let paths = Paths { dist, prev, visited, target };
        proof {
            assert(is_path_tree(self, source as int, paths.visited@, paths.prev@, rank));
        }
        paths
    }

    /// Searches from `source` along arcs with residual capacity, nearest
    /// node first, with the reduced cost as the length of an arc. Returns
    /// the distance found for every node that was reached and the arc by
    /// which it was reached.
    pub fn calculate_distance_from_source(&mut self, source: usize) -> (found: (Vec<Option<i64>>, Vec<Option<usize>>))
        requires
            old(self).wf(),
            source < old(self).num_nodes,
        ensures
            *final(self) == *old(self),
            exists|paths: Paths|
                paths.dist == found.0 && paths.prev == found.1 && paths.target.is_none() && #[trigger] final(self).found(
                    source as int,
                    &paths,
                    false,
                    false,
                ),
    {
        let paths = self.shortest_paths(source, false, false);
        let ghost witness = paths;
        let Paths { dist, prev, visited, target } = paths;
        proof {
            assert(witness.dist == dist && witness.prev == prev);
            assert(self.found(source as int, &witness, false, false));
        }
        (dist, prev)
    }
}

/// Closes a solve: computes the excess that the flow leaves at every node
/// of `graph` and tells what the flow is.
///
/// Where the flow leaves a node with an excess, a maximum flow decides
/// whether any flow meets the supplies: if none does, the status is
/// `Infeasible`; if one does, it takes the place of the flow of `graph`.
/// Where the flow meets the supplies but `potentials` do not certify it,
/// node potentials are computed for the flow by `CSR::price` and tried in
/// turn; and where these do not certify it either, flow is moved around
/// cycles of negative cost until the flow has minimum cost.
pub fn certify(graph: &mut Graph, potentials: &Vec<i64>) -> (status: Status)
    requires
        old(graph).wf(),
        old(graph).settleable(),
        fits(old(graph)),
        supply_sum(old(graph).b@) == 0,
        potentials@.len() >= old(graph).node_count(),
    ensures
        final(graph).decides(old(graph), status),
        status == Status::Optimal || status == Status::Infeasible,
{
    let mut status = graph.conclude(potentials);
    let ghost concluded = *graph;
    if status == Status::Infeasible {
        proof {
            lemma_fits_same_problem(graph, old(graph));
            graph.lemma_settleable_same_problem(old(graph));
        }
        if !find_feasible_flow(graph) {
            proof {
                graph.lemma_settled_alike(&concluded);
                lemma_same_network_transitive(graph.links(), concluded.links(), old(graph).links());
                assert(!old(graph).is_satisfiable()) by {
                    if old(graph).is_satisfiable() {
                        let other = choose|other: Seq<Link>|
                            same_network(other, old(graph).links()) && #[trigger] is_feasible(
                                other,
                                old(graph).supplies(),
                                old(graph).node_count() as int,
                            );
                        lemma_same_network_symmetric(concluded.links(), old(graph).links());
                        lemma_same_network_transitive(other, old(graph).links(), concluded.links());
                        assert(concluded.supplies() =~= old(graph).supplies());
                    }
                }
            }
            return Status::Infeasible;
        }
        let ghost found = *graph;
        proof {
            graph.lemma_settleable_same_problem(old(graph));
        }
        status = graph.conclude(potentials);
        proof {
            lemma_same_network_transitive(found.links(), concluded.links(), old(graph).links());
            graph.lemma_settled_alike(&found);
        }
    }
    proof {
        graph.lemma_balanced_is_feasible();
        assert(old(graph).is_satisfiable()) by {
            assert(graph.supplies() =~= old(graph).supplies());
            assert(is_feasible(graph.links(), old(graph).supplies(), old(graph).node_count() as int));
        }
    }
    if status != Status::NotSolved {
        return status;
    }
    let mut csr = CSR::default();
    csr.build(graph);
    if csr.price() {
        let ghost priced = *graph;
        proof {
            graph.lemma_settleable_same_problem(old(graph));
        }
        let status = graph.conclude(&csr.potentials);
        proof {
            lemma_same_network_transitive(graph.links(), priced.links(), old(graph).links());
            graph.lemma_settled_alike(&priced);
        }
        if status != Status::NotSolved {
            return status;
        }
    }
    let ghost balanced = *graph;
    let labels = cancel_negative_cycles(graph);
    proof {
        lemma_same_network_transitive(graph.links(), balanced.links(), old(graph).links());
        assert(graph.settled()) by {
            assert forall|u: int| 0 <= u < graph.excesses@.len() implies #[trigger] graph.excesses@[u] == graph.b@[u]
                - net_out(graph.links(), u) by {
                assert(balanced.excesses@[u] == balanced.b@[u] - net_out(balanced.links(), u));
                assert(net_out(graph.links(), u) == net_out(balanced.links(), u));
            }
        }
        assert(graph.balanced()) by {
            assert forall|u: int| 0 <= u < graph.excesses@.len() implies #[trigger] graph.excesses@[u] == 0 by {
                assert(balanced.excesses@[u] == 0);
            }
        }
        graph.lemma_balanced_is_feasible();
        graph.lemma_links_within_bounds();
        let pi = potentials_from(labels@);
        lemma_settled_is_slack(graph.links(), labels@, graph.node_count() as int);
        assert(is_slack(graph.links(), pi));
        crate::minimum_cost_flow::optimality::lemma_slack_flow_is_minimum(
            graph.links(),
            graph.supplies(),
            pi,
            graph.node_count() as int,
        );
    }
    Status::Optimal
}

/// The labels after the arcs before `upto` have been corrected in turn,
/// and whether a label changed: an arc with residual capacity gives its
/// head the label of its tail plus its cost, within the range of `i64`,
/// where that is less than the label of the head.
pub open spec fn corrected(csr: &CSR, labels: Seq<i64>, upto: int) -> (Seq<i64>, bool)
    decreases upto,
{
    if upto <= 0 {
        (labels, false)
    } else {
        let before = corrected(csr, labels, upto - 1);
        let arc = csr.inside_edge_list@[upto - 1];
        let through = clamp(before.0[csr.tail(upto - 1)] + arc.cost) as i64;
        if csr.residual(upto - 1) > 0 && through < before.0[arc.to as int] {
            (before.0.update(arc.to as int, through), true)
        } else {
            before
        }
    }
}

/// The labels that `rounds` rounds of corrections of all arcs, begun with
/// `labels`, come to rest at: the labels before the first round that
/// changes none. Nothing where every round changes a label.
pub open spec fn settles_within(csr: &CSR, labels: Seq<i64>, rounds: nat) -> Option<Seq<i64>>
    decreases rounds,
{
    if rounds == 0 {
        None
    } else {
        let round = corrected(csr, labels, csr.inside_edge_list@.len() as int);
        if !round.1 {
            Some(labels)
        } else {
            settles_within(csr, round.0, (rounds - 1) as nat)
        }
    }
}

/// The two nodes of every edge.
pub open spec fn ends_of(edges: Seq<crate::minimum_cost_flow::graph::Edge>) -> Seq<(usize, usize)> {
    Seq::new(edges.len(), |i: int| (edges[i].from, edges[i].to))
}

} // verus!
