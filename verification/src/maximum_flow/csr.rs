use crate::adjacency::{Layout, arc_layout, in_range, incidences_below, is_partition, layout_serves, slot_from, slot_to};
use crate::counting::{lemma_contains_after_pop_front, lemma_contains_after_push, lemma_occurrences_all, lemma_occurrences_overwrite, lemma_occurrences_positive, occurrences};
use crate::maximum_flow::cut::is_saturated_cut;
use crate::maximum_flow::graph::Graph;
use crate::network::endpoints_below;
use crate::network::{lemma_net_out_with_flow, net_out, same_network, with_flow, Link};
use std::collections::VecDeque;
use vstd::prelude::*;

verus! {

/// One arc of the residual graph. Arcs come in pairs: `rev` is the index of
/// the arc in the opposite direction, which carries the complementary flow.
#[derive(PartialEq, Eq, Structural, Debug, Clone, Copy)]
pub struct InsideEdge {
    pub to: usize,
    pub flow: i64,
    pub upper: i64,
    pub rev: usize,
}

impl Default for InsideEdge {
    fn default() -> (edge: Self)
        ensures
            edge == (InsideEdge { to: 0, flow: 0, upper: 0, rev: 0 }),
    {
        InsideEdge { to: 0, flow: 0, upper: 0, rev: 0 }
    }
}

impl InsideEdge {
    /// How much more flow the arc can take.
    pub fn residual_capacity(&self) -> (residual: i64)
        requires
            i64::MIN <= self.upper - self.flow <= i64::MAX,
        ensures
            residual == self.upper - self.flow,
    {
        self.upper - self.flow
    }
}

/// Residual graph in compressed sparse-row form: the arcs out of node `u` are
/// `inside_edge_list[start[u]..start[u + 1]]`.
pub struct CSR {
    pub num_nodes: usize,
    pub num_edges: usize,
    pub edge_index_to_inside_edge_index: Vec<usize>,
    pub start: Vec<usize>,
    pub inside_edge_list: Vec<InsideEdge>,
    /// Distance label of every node; `num_nodes` stands for "cannot reach the sink".
    pub distances: Vec<usize>,
    pub que: VecDeque<usize>,
    /// The edge that every arc was made from.
    pub owner: Ghost<Seq<int>>,
}

impl Default for CSR {
    fn default() -> (csr: Self)
        ensures
            csr.num_nodes == 0,
            csr.num_edges == 0,
    {
        CSR {
            num_nodes: 0,
            num_edges: 0,
            edge_index_to_inside_edge_index: Vec::new(),
            start: Vec::new(),
            inside_edge_list: Vec::new(),
            distances: Vec::new(),
            que: VecDeque::new(),
            owner: Ghost(Seq::empty()),
        }
    }
}

/// Arc `a` of `list` is paired with its reverse, lies among the arcs of its
/// tail, carries a flow within its capacity and belongs to an edge.
pub open spec fn arc_valid(
    list: Seq<InsideEdge>,
    start: Seq<usize>,
    map: Seq<usize>,
    owner: Seq<int>,
    n: int,
    m: int,
    a: int,
) -> bool {
    let arc = list[a];
    let back = list[arc.rev as int];
    &&& arc.to < n
    &&& arc.rev < list.len()
    &&& arc.rev != a
    &&& back.rev == a
    &&& back.upper == arc.upper
    &&& 0 <= arc.flow <= arc.upper
    &&& back.flow == arc.upper - arc.flow
    &&& in_range(start, back.to as int, a)
    &&& 0 <= owner[a] < m
    &&& owner[arc.rev as int] == owner[a]
    &&& (map[owner[a]] == a || map[owner[a]] == arc.rev)
}

impl CSR {
    /// Node that arc `a` leaves.
    pub open spec fn tail(&self, a: int) -> int {
        self.inside_edge_list@[self.inside_edge_list@[a].rev as int].to as int
    }

    /// Residual capacity of arc `a`.
    pub open spec fn residual(&self, a: int) -> int {
        self.inside_edge_list@[a].upper - self.inside_edge_list@[a].flow
    }

    /// Arc `a` is paired with its reverse, lies among the arcs of its tail,
    /// carries a flow within its capacity and belongs to an edge.
    pub open spec fn arc_ok(&self, a: int) -> bool {
        arc_valid(
            self.inside_edge_list@,
            self.start@,
            self.edge_index_to_inside_edge_index@,
            self.owner@,
            self.num_nodes as int,
            self.num_edges as int,
            a,
        )
    }

    /// The arcs form a residual graph of `num_edges` paired arcs over `num_nodes` nodes.
    pub open spec fn graph_ok(&self) -> bool {
        &&& self.num_nodes < usize::MAX
        &&& is_partition(self.start@, self.num_nodes as int, 2 * self.num_edges)
        &&& self.inside_edge_list@.len() == 2 * self.num_edges
        &&& self.edge_index_to_inside_edge_index@.len() == self.num_edges
        &&& self.owner@.len() == 2 * self.num_edges
        &&& forall|a: int|
            #![trigger self.inside_edge_list@[a]]
            #![trigger arc_valid(self.inside_edge_list@, self.start@, self.edge_index_to_inside_edge_index@, self.owner@, self.num_nodes as int, self.num_edges as int, a)]
            0 <= a < 2 * self.num_edges ==> arc_valid(
                self.inside_edge_list@,
                self.start@,
                self.edge_index_to_inside_edge_index@,
                self.owner@,
                self.num_nodes as int,
                self.num_edges as int,
                a,
            )
        &&& forall|e: int|
            0 <= e < self.num_edges ==> (#[trigger] self.edge_index_to_inside_edge_index@[e]) < 2 * self.num_edges
                && self.owner@[self.edge_index_to_inside_edge_index@[e] as int] == e
    }

    /// The structure is a residual graph with a distance label of at most
    /// `num_nodes` for every node.
    pub open spec fn wf(&self) -> bool {
        &&& self.graph_ok()
        &&& self.distances@.len() == self.num_nodes
        &&& forall|u: int| 0 <= u < self.num_nodes ==> #[trigger] self.distances@[u] <= self.num_nodes
    }

    /// `self` and `other` are the same graph up to flows and distance labels.
    pub open spec fn same_shape(&self, other: &CSR) -> bool {
        &&& self.num_nodes == other.num_nodes
        &&& self.num_edges == other.num_edges
        &&& self.start@ == other.start@
        &&& self.edge_index_to_inside_edge_index@ == other.edge_index_to_inside_edge_index@
        &&& self.owner@ == other.owner@
        &&& self.inside_edge_list@.len() == other.inside_edge_list@.len()
        &&& forall|a: int|
            0 <= a < self.inside_edge_list@.len() ==> (#[trigger] self.inside_edge_list@[a]).to
                == other.inside_edge_list@[a].to && self.inside_edge_list@[a].rev == other.inside_edge_list@[a].rev
                && self.inside_edge_list@[a].upper == other.inside_edge_list@[a].upper
    }

    /// Edge `e` of the graph that the structure was built from, with the flow
    /// that its forward arc carries now.
    pub open spec fn link(&self, e: int) -> Link {
        let a = self.edge_index_to_inside_edge_index@[e] as int;
        Link {
            from: self.tail(a),
            to: self.inside_edge_list@[a].to as int,
            flow: self.inside_edge_list@[a].flow as int,
            lower: 0,
            upper: self.inside_edge_list@[a].upper as int,
            cost: 0,
        }
    }

    /// The network that the structure stands for.
    pub open spec fn links(&self) -> Seq<Link> {
        Seq::new(self.num_edges as nat, |e: int| self.link(e))
    }

    /// Arc `a` leaves node `u`.
    pub open spec fn leaves(&self, u: int, a: int) -> bool {
        in_range(self.start@, u, a)
    }

    /// An arc found among the arcs of `u` has `u` as its tail.
    pub proof fn lemma_tail(&self, u: int, a: int)
        requires
            self.wf(),
            self.leaves(u, a),
        ensures
            0 <= a < 2 * self.num_edges,
            self.tail(a) == u,
            self.arc_ok(a),
    {
        assert(self.start@[u + 1] <= self.start@[self.num_nodes as int]);
        assert(self.arc_ok(a));
        crate::adjacency::lemma_range_unique(self.start@, self.num_nodes as int, 2 * self.num_edges, u, self.tail(a), a);
    }

    /// Rebuilds the structure for `graph`, with no flow on any edge.
    pub fn build(&mut self, graph: &mut Graph)
        requires
            old(graph).wf(),
            old(graph).node_count() < usize::MAX,
            2 * old(graph)@.len() <= usize::MAX,
            forall|e: int| 0 <= e < old(graph)@.len() ==> 0 <= (#[trigger] old(graph)@[e]).upper,
        ensures
            *final(graph) == *old(graph),
            final(self).wf(),
            final(self).num_nodes == old(graph).node_count(),
            final(self).num_edges == old(graph)@.len(),
            same_network(final(self).links(), old(graph).links()),
            forall|e: int| 0 <= e < old(graph)@.len() ==> (#[trigger] final(self).links()[e]).flow == 0,
            forall|u: int| 0 <= u < final(self).num_nodes ==> #[trigger] final(self).distances@[u] == final(self).num_nodes,
            final(self).distances@.len() == final(self).num_nodes,
            final(self).que@.len() == 0,
            final(self).start@.len() == final(self).num_nodes + 1,
            forall|j: int|
                0 <= j <= final(self).num_nodes ==> #[trigger] final(self).start@[j] == incidences_below(
                    ends_of(old(graph)@),
                    old(graph)@.len() as int,
                    j,
                ),
            forall|e: int|
                0 <= e < old(graph)@.len() ==> #[trigger] final(self).edge_index_to_inside_edge_index@[e] == slot_from(
                    ends_of(old(graph)@),
                    e,
                ),
            forall|e: int|
                0 <= e < old(graph)@.len() ==> #[trigger] final(self).inside_edge_list@[slot_from(ends_of(old(graph)@), e)]
                    == (InsideEdge {
                    to: old(graph)@[e].to,
                    flow: 0,
                    upper: old(graph)@[e].upper,
                    rev: slot_to(ends_of(old(graph)@), e) as usize,
                }),
            forall|e: int|
                0 <= e < old(graph)@.len() ==> #[trigger] final(self).inside_edge_list@[slot_to(ends_of(old(graph)@), e)]
                    == (InsideEdge {
                    to: old(graph)@[e].from,
                    flow: old(graph)@[e].upper,
                    upper: old(graph)@[e].upper,
                    rev: slot_from(ends_of(old(graph)@), e) as usize,
                }),
    {
        let n = graph.num_nodes();
        let m = graph.num_edges();
        let mut ends: Vec<(usize, usize)> = Vec::new();
        for e in 0..m
            invariant
                graph.wf(),
                m == graph@.len(),
                n == graph.node_count(),
                ends@.len() == e,
                forall|i: int| 0 <= i < e ==> #[trigger] ends@[i] == (graph@[i].from, graph@[i].to),
        {
            ends.push((graph.edges[e].from, graph.edges[e].to));
        }
        let Layout { start, forward, backward, owner } = arc_layout(n, &ends);
        proof {
            assert(ends@ =~= ends_of(graph@));
        }

        self.num_nodes = n;
        self.num_edges = m;
        self.start = start;
        self.owner = owner;
        self.distances = vec![n; n];
        self.que = VecDeque::new();
        self.inside_edge_list = vec![InsideEdge { to: 0, flow: 0, upper: 0, rev: 0 }; 2 * m];
        for e in 0..m
            invariant
                graph.wf(),
                m == graph@.len(),
                n == graph.node_count(),
                2 * m <= usize::MAX,
                ends@.len() == m,
                forall|i: int| 0 <= i < m ==> #[trigger] ends@[i] == (graph@[i].from, graph@[i].to),
                forall|i: int| 0 <= i < m ==> 0 <= (#[trigger] graph@[i]).upper,
                layout_serves(self.start@, forward@, backward@, self.owner@, n as int, ends@),
                ends@ == ends_of(graph@),
                self.que@.len() == 0,
                forall|j: int| 0 <= j <= n ==> #[trigger] self.start@[j] == incidences_below(ends@, m as int, j),
                forall|i: int| 0 <= i < m ==> #[trigger] forward@[i] == slot_from(ends@, i),
                forall|i: int| 0 <= i < m ==> #[trigger] backward@[i] == slot_to(ends@, i),
                self.num_nodes == n,
                self.num_edges == m,
                n < usize::MAX,
                self.distances@.len() == n,
                forall|u: int| 0 <= u < n ==> #[trigger] self.distances@[u] == n,
                self.inside_edge_list@.len() == 2 * m,
                forall|i: int|
                    0 <= i < e ==> (#[trigger] self.inside_edge_list@[forward@[i] as int]) == (InsideEdge {
                        to: graph@[i].to,
                        flow: 0,
                        upper: graph@[i].upper,
                        rev: backward@[i],
                    }),
                forall|i: int|
                    0 <= i < e ==> (#[trigger] self.inside_edge_list@[backward@[i] as int]) == (InsideEdge {
                        to: graph@[i].from,
                        flow: graph@[i].upper,
                        upper: graph@[i].upper,
                        rev: forward@[i],
                    }),
        {
            let edge = &graph.edges[e];
            let slot_from = forward[e];
            let slot_to = backward[e];
            proof {
                assert(in_range(self.start@, ends@[e as int].0 as int, forward@[e as int] as int));
                assert(in_range(self.start@, ends@[e as int].1 as int, backward@[e as int] as int));
                assert(self.start@[ends@[e as int].0 as int + 1] <= self.start@[n as int]);
                assert(self.start@[ends@[e as int].1 as int + 1] <= self.start@[n as int]);
                assert forall|i: int| 0 <= i < e implies forward@[i] != slot_from && forward@[i] != slot_to
                    && backward@[i] != slot_from && backward@[i] != slot_to by {
                    assert(self.owner@[forward@[i] as int] == i);
                    assert(self.owner@[backward@[i] as int] == i);
                }
            }
            self.inside_edge_list[slot_from] = InsideEdge { to: edge.to, flow: 0, upper: edge.upper, rev: slot_to };
            self.inside_edge_list[slot_to] = InsideEdge { to: edge.from, flow: edge.upper, upper: edge.upper, rev: slot_from };
        }
        let ghost slots = forward@;
        self.edge_index_to_inside_edge_index = forward;
        proof {
            let map = self.edge_index_to_inside_edge_index@;
            assert(map == slots);
            assert(layout_serves(self.start@, map, backward@, self.owner@, n as int, ends@));
            assert forall|e: int| 0 <= e < m implies #[trigger] self.inside_edge_list@[slot_from(ends@, e)] == (InsideEdge {
                to: graph@[e].to,
                flow: 0,
                upper: graph@[e].upper,
                rev: slot_to(ends@, e) as usize,
            }) by {
                assert(map[e] == slot_from(ends@, e));
                assert(backward@[e] == slot_to(ends@, e));
            }
            assert forall|e: int| 0 <= e < m implies #[trigger] self.inside_edge_list@[slot_to(ends@, e)] == (InsideEdge {
                to: graph@[e].from,
                flow: graph@[e].upper,
                upper: graph@[e].upper,
                rev: slot_from(ends@, e) as usize,
            }) by {
                assert(map[e] == slot_from(ends@, e));
                assert(backward@[e] == slot_to(ends@, e));
            }
            assert forall|a: int| 0 <= a < 2 * self.num_edges implies arc_valid(
                self.inside_edge_list@,
                self.start@,
                self.edge_index_to_inside_edge_index@,
                self.owner@,
                self.num_nodes as int,
                self.num_edges as int,
                a,
            ) by {
                let i = self.owner@[a];
                assert(0 <= i < m);
                assert(ends@[i] == (graph@[i].from, graph@[i].to));
                assert(in_range(self.start@, ends@[i].0 as int, map[i] as int));
                assert(in_range(self.start@, ends@[i].1 as int, backward@[i] as int));
                assert(self.start@[ends@[i].0 as int + 1] <= self.start@[n as int]);
                assert(self.start@[ends@[i].1 as int + 1] <= self.start@[n as int]);
                assert(self.inside_edge_list@[map[i] as int].rev == backward@[i]);
                assert(self.inside_edge_list@[backward@[i] as int].rev == map[i]);
            }
            assert forall|e: int| 0 <= e < m implies final(self).links()[e].from == graph.links()[e].from
                && final(self).links()[e].to == graph.links()[e].to by {
                assert(self.inside_edge_list@[map[e] as int].rev == backward@[e]);
                assert(self.inside_edge_list@[backward@[e] as int].to == graph@[e].from);
            }
        }
    }

    /// Writes the flow of every edge back into `graph`.
    pub fn set_flow(&self, graph: &mut Graph)
        requires
            self.wf(),
            old(graph).wf(),
            same_network(self.links(), old(graph).links()),
        ensures
            final(graph).wf(),
            final(graph).node_count() == old(graph).node_count(),
            final(graph).links() == self.links(),
    {
        let m = graph.num_edges();
        for edge_id in 0..m
            invariant
                self.wf(),
                graph.wf(),
                m == self.num_edges,
                m == graph@.len(),
                graph.node_count() == old(graph).node_count(),
                same_network(self.links(), graph.links()),
                forall|e: int| 0 <= e < edge_id ==> (#[trigger] graph@[e]).flow == self.links()[e].flow,
        {
            let i = self.edge_index_to_inside_edge_index[edge_id];
            let ghost before = graph.links();
            graph.edges[edge_id].flow = self.inside_edge_list[i].flow;
            proof {
                assert forall|e: int| 0 <= e < m implies (#[trigger] graph.links()[e]).from == before[e].from
                    && graph.links()[e].to == before[e].to && graph.links()[e].upper == before[e].upper by {}
            }
        }
        proof {
            assert(graph.links() =~= self.links());
        }
    }

    /// The arcs out of node `u`.
    #[inline]
    pub fn neighbors(&self, u: usize) -> (arcs: &[InsideEdge])
        requires
            self.wf(),
            u < self.num_nodes,
        ensures
            arcs@ == self.inside_edge_list@.subrange(self.start@[u as int] as int, self.start@[u + 1] as int),
    {
        proof {
            assert(self.start@[u as int] <= self.start@[u + 1]);
            assert(self.start@[u + 1] <= self.start@[self.num_nodes as int]);
        }
        &self.inside_edge_list[self.start[u]..self.start[u + 1]]
    }

    /// Adds `flow` to arc `inside_edge_index` and takes it from the reverse arc.
    #[inline]
    pub fn push_flow(&mut self, inside_edge_index: usize, flow: i64)
        requires
            old(self).wf(),
            inside_edge_index < old(self).inside_edge_list@.len(),
            0 <= old(self).inside_edge_list@[inside_edge_index as int].flow + flow <= old(self).inside_edge_list@[inside_edge_index as int].upper,
        ensures
            final(self).wf(),
            final(self).same_shape(old(self)),
            final(self).distances == old(self).distances,
            final(self).inside_edge_list@[inside_edge_index as int].flow == old(self).inside_edge_list@[inside_edge_index as int].flow + flow,
            forall|a: int|
                0 <= a < old(self).inside_edge_list@.len() && a != inside_edge_index && a != old(self).inside_edge_list@[inside_edge_index as int].rev
                    ==> #[trigger] final(self).inside_edge_list@[a] == old(self).inside_edge_list@[a],
            forall|u: int|
                #[trigger] net_out(final(self).links(), u) == net_out(old(self).links(), u) + (if u == old(self).tail(
                    inside_edge_index as int,
                ) {
                    flow as int
                } else {
                    0
                }) - (if u == old(self).inside_edge_list@[inside_edge_index as int].to {
                    flow as int
                } else {
                    0
                }),
    {
        proof {
            assert(self.arc_ok(inside_edge_index as int));
        }
        let rev = self.inside_edge_list[inside_edge_index].rev;
        self.inside_edge_list[inside_edge_index].flow += flow;
        self.inside_edge_list[rev].flow -= flow;
        proof {
            let a = inside_edge_index as int;
            assert forall|b: int| 0 <= b < 2 * self.num_edges implies self.arc_ok(b) by {
                assert(old(self).arc_ok(b));
                assert(old(self).arc_ok(old(self).inside_edge_list@[b].rev as int));
            }
            let e = self.owner@[a];
            let new_flow = self.link(e).flow;
            assert(self.links() =~= with_flow(old(self).links(), e, new_flow)) by {
                assert forall|i: int| 0 <= i < self.num_edges implies self.links()[i] == with_flow(
                    old(self).links(),
                    e,
                    new_flow,
                )[i] by {
                    let f = self.edge_index_to_inside_edge_index@[i] as int;
                    assert(old(self).arc_ok(f));
                    assert(old(self).arc_ok(old(self).inside_edge_list@[f].rev as int));
                    assert(self.owner@[f] == i);
                }
            }
            assert forall|u: int|
                #[trigger] net_out(final(self).links(), u) == net_out(old(self).links(), u) + (if u == old(self).tail(a) {
                    flow as int
                } else {
                    0
                }) - (if u == old(self).inside_edge_list@[a].to {
                    flow as int
                } else {
                    0
                }) by {
                lemma_net_out_with_flow(old(self).links(), e, new_flow, u);
                let f = self.edge_index_to_inside_edge_index@[e] as int;
                assert(old(self).arc_ok(f));
            }
        }
    }

    /// No arc with residual capacity leads out of `side`.
    pub open spec fn closed_under_residual(&self, side: Set<int>) -> bool {
        forall|a: int|
            0 <= a < self.inside_edge_list@.len() && side.contains(self.tail(a)) && self.residual(a) > 0
                ==> side.contains((#[trigger] self.inside_edge_list@[a]).to as int)
    }

    /// The nodes whose distance label says that they cannot reach the sink.
    pub open spec fn unreaching(&self) -> Set<int> {
        Set::new(|u: int| 0 <= u < self.num_nodes && self.distances@[u] == self.num_nodes)
    }

    /// Every labelled node other than `source` has labelled all nodes from
    /// which an arc with residual capacity leads to it.
    pub open spec fn labels_closed(&self, source: int) -> bool {
        forall|a: int|
            0 <= a < self.inside_edge_list@.len() && self.distances@[self.tail(a)] < self.num_nodes && self.tail(a)
                != source && (#[trigger] self.inside_edge_list@[a]).flow > 0
                ==> self.distances@[self.inside_edge_list@[a].to as int] < self.num_nodes
    }

    /// Every node from which an arc with residual capacity leads to a
    /// labelled node is labelled, with at most one more than that node.
    pub open spec fn labels_near(&self) -> bool {
        forall|a: int|
            0 <= a < self.inside_edge_list@.len() && self.distances@[self.tail(a)] < self.num_nodes && (
            #[trigger] self.inside_edge_list@[a]).flow > 0 ==> self.distances@[self.inside_edge_list@[a].to as int]
                <= self.distances@[self.tail(a)] + 1 && self.distances@[self.inside_edge_list@[a].to as int]
                < self.num_nodes
    }

    /// Arc `a` leads from `w` one level down and has residual capacity.
    pub open spec fn descends(&self, w: int, a: int) -> bool {
        &&& 0 <= a < self.inside_edge_list@.len()
        &&& self.tail(a) == w
        &&& self.residual(a) > 0
        &&& self.distances@[w] == self.distances@[self.inside_edge_list@[a].to as int] + 1
    }

    /// Some arc with residual capacity leads from `w` one level down.
    #[verifier::opaque]
    pub open spec fn has_descent(&self, w: int) -> bool {
        exists|a: int| self.descends(w, a)
    }

    /// The network of a well-formed structure joins nodes below `num_nodes`
    /// and carries flows within the capacities.
    pub proof fn lemma_links_within_capacity(&self)
        requires
            self.wf(),
        ensures
            endpoints_below(self.links(), self.num_nodes as int),
            forall|i: int| 0 <= i < self.links().len() ==> 0 <= (#[trigger] self.links()[i]).flow <= self.links()[i].upper,
    {
        assert forall|i: int| 0 <= i < self.links().len() implies 0 <= (#[trigger] self.links()[i]).flow
            <= self.links()[i].upper && 0 <= self.links()[i].from < self.num_nodes && 0 <= self.links()[i].to
            < self.num_nodes by {
            let a = self.edge_index_to_inside_edge_index@[i] as int;
            assert(self.arc_ok(a));
            assert(self.arc_ok(self.inside_edge_list@[a].rev as int));
        }
    }

    /// A node set that no residual arc leaves is a saturated cut of the network.
    pub proof fn lemma_closed_set_is_cut(&self, side: Set<int>, source: int, sink: int)
        requires
            self.wf(),
            self.closed_under_residual(side),
            side.contains(source),
            !side.contains(sink),
        ensures
            is_saturated_cut(self.links(), side, source, sink),
    {
        let links = self.links();
        assert forall|i: int| 0 <= i < links.len() implies (side.contains((#[trigger] links[i]).from)
            && !side.contains(links[i].to) ==> links[i].flow == links[i].upper) && (!side.contains(links[i].from)
            && side.contains(links[i].to) ==> links[i].flow == 0) by {
            let a = self.edge_index_to_inside_edge_index@[i] as int;
            let r = self.inside_edge_list@[a].rev as int;
            assert(self.arc_ok(a));
            assert(self.arc_ok(r));
            assert(self.tail(r) == self.inside_edge_list@[a].to);
            assert(self.inside_edge_list@[r].to == self.tail(a));
        }
    }

    /// When the labels are closed and `source` is unlabelled, no residual arc
    /// leaves the set of unlabelled nodes.
    pub proof fn lemma_unreaching_is_closed(&self, source: int)
        requires
            self.wf(),
            self.labels_closed(source),
            0 <= source < self.num_nodes,
            self.distances@[source] == self.num_nodes,
        ensures
            self.closed_under_residual(self.unreaching()),
    {
        let side = self.unreaching();
        assert forall|a: int|
            0 <= a < self.inside_edge_list@.len() && side.contains(self.tail(a)) && self.residual(a) > 0 implies side.contains(
            (#[trigger] self.inside_edge_list@[a]).to as int,
        ) by {
            let r = self.inside_edge_list@[a].rev as int;
            assert(self.arc_ok(a));
            assert(self.arc_ok(r));
            assert(self.tail(r) == self.inside_edge_list@[a].to);
            assert(self.inside_edge_list@[r].to == self.tail(a));
            assert(self.inside_edge_list@[r].flow > 0);
        }
    }

    /// Labels every node with its distance to `sink` in the residual graph, by
    /// a breadth-first search backwards from `sink`. Nodes that it does not
    /// reach get the label `num_nodes`.
    #[verifier::spinoff_prover]
    pub fn update_distances(&mut self, source: usize, sink: usize)
        requires
            old(self).wf(),
            source < old(self).num_nodes,
            sink < old(self).num_nodes,
        ensures
            final(self).wf(),
            final(self).same_shape(old(self)),
            final(self).inside_edge_list@ == old(self).inside_edge_list@,
            final(self).distances@[sink as int] == 0,
            final(self).labels_closed(source as int),
            forall|w: int|
                0 <= w < final(self).num_nodes && w != sink && final(self).distances@[w] < final(self).num_nodes
                    ==> #[trigger] final(self).has_descent(w),
            final(self).labels_near(),
            forall|w: int| 0 <= w < final(self).num_nodes && #[trigger] final(self).distances@[w] == 0 ==> w == sink,
    {
        let n = self.num_nodes;
        self.que.clear();
        self.que.push_back(sink);
        for u in 0..n
            invariant
                self.wf(),
                self.same_shape(old(self)),
                self.inside_edge_list@ == old(self).inside_edge_list@,
                n == self.num_nodes,
                self.que@ == seq![sink],
                forall|w: int| 0 <= w < u ==> #[trigger] self.distances@[w] == n,
        {
            self.distances[u] = n;
        }
        let ghost labels_unset = self.distances@;
        self.distances[sink] = 0;

        let ghost mut done: Seq<bool> = Seq::new(n as nat, |u: int| false);
        let ghost mut descent: Seq<int> = Seq::new(n as nat, |u: int| 0int);
        let ghost mut levels: int = 1;
        let ghost mut front: int = 0;
        let ghost mut split: int = 1;
        proof {
            assert(self.que@[0] == sink);
            assert(self.que@.contains(sink));
            lemma_occurrences_all(labels_unset, n);
            lemma_occurrences_overwrite(labels_unset, sink as int, n, 0usize);
        }
        while self.que.len() > 0
            invariant
                self.wf(),
                self.same_shape(old(self)),
                self.inside_edge_list@ == old(self).inside_edge_list@,
                n == self.num_nodes,
                source < n,
                sink < n,
                done.len() == n,
                descent.len() == n,
                self.distances@[sink as int] == 0,
                occurrences(self.distances@, n) + levels <= n,
                forall|w: int| 0 <= w < n && #[trigger] self.distances@[w] < n ==> self.distances@[w] < levels,
                forall|i: int| 0 <= i < self.que@.len() ==> #[trigger] self.que@[i] < n && self.distances@[self.que@[i] as int] < n,
                forall|a: int|
                    0 <= a < self.inside_edge_list@.len() && done[self.tail(a)] && (#[trigger] self.inside_edge_list@[a]).flow
                        > 0 ==> self.distances@[self.inside_edge_list@[a].to as int] < n,
                forall|v: int|
                    0 <= v < n && #[trigger] self.distances@[v] < n && !done[v] ==> self.que@.contains(v as usize),
                forall|w: int|
                    0 <= w < n && #[trigger] self.distances@[w] < n && w != sink ==> self.descends(w, descent[w]),
                0 <= split <= self.que@.len(),
                forall|i: int| 0 <= i < split ==> self.distances@[#[trigger] self.que@[i] as int] == front,
                forall|i: int| split <= i < self.que@.len() ==> self.distances@[#[trigger] self.que@[i] as int] == front + 1,
                forall|w: int| 0 <= w < n && #[trigger] self.distances@[w] < n ==> self.distances@[w] <= front + 1,
                forall|a: int|
                    0 <= a < self.inside_edge_list@.len() && done[self.tail(a)] && (#[trigger] self.inside_edge_list@[a]).flow
                        > 0 ==> self.distances@[self.inside_edge_list@[a].to as int] <= self.distances@[self.tail(a)] + 1,
            decreases 2 * occurrences(self.distances@, n) + self.que@.len(),
        {
            let ghost queue_before = self.que@;
            let v = self.que.pop_front().unwrap();
            let ghost measure = 2 * occurrences(self.distances@, n) + self.que@.len();
            proof {
                assert(queue_before[0] == v);
                assert forall|i: int| 0 <= i < self.que@.len() implies #[trigger] self.que@[i] < n && self.distances@[self.que@[i] as int] < n by {
                    assert(self.que@[i] == queue_before[i + 1]);
                }
                assert forall|u: int|
                    0 <= u < n && #[trigger] self.distances@[u] < n && !done[u] && u != v implies self.que@.contains(
                    u as usize,
                ) by {
                    lemma_contains_after_pop_front(queue_before, u as usize);
                }
                if split > 0 {
                    split = split - 1;
                } else {
                    front = front + 1;
                    split = self.que@.len() as int;
                }
                assert forall|i: int| 0 <= i < split implies self.distances@[#[trigger] self.que@[i] as int] == front by {
                    assert(self.que@[i] == queue_before[i + 1]);
                }
                assert forall|i: int| split <= i < self.que@.len() implies self.distances@[#[trigger] self.que@[i] as int]
                    == front + 1 by {
                    assert(self.que@[i] == queue_before[i + 1]);
                }
                assert(self.start@[v as int] <= self.start@[v + 1]);
                assert(self.start@[v + 1] <= self.start@[n as int]);
            }
            let first = self.start[v];
            let last = self.start[v + 1];
            for a in first..last
                invariant
                    self.wf(),
                    self.same_shape(old(self)),
                    self.inside_edge_list@ == old(self).inside_edge_list@,
                    n == self.num_nodes,
                    source < n,
                    sink < n,
                    v < n,
                    first == self.start@[v as int],
                    last == self.start@[v + 1],
                    first <= last <= self.inside_edge_list@.len(),
                    done.len() == n,
                    descent.len() == n,
                    self.distances@[sink as int] == 0,
                    self.distances@[v as int] < n,
                    occurrences(self.distances@, n) + levels <= n,
                    forall|w: int| 0 <= w < n && #[trigger] self.distances@[w] < n ==> self.distances@[w] < levels,
                    forall|i: int| 0 <= i < self.que@.len() ==> #[trigger] self.que@[i] < n && self.distances@[self.que@[i] as int] < n,
                    forall|b: int|
                        0 <= b < self.inside_edge_list@.len() && done[self.tail(b)] && (#[trigger] self.inside_edge_list@[b]).flow
                            > 0 ==> self.distances@[self.inside_edge_list@[b].to as int] < n,
                    forall|b: int|
                        first <= b < a && (#[trigger] self.inside_edge_list@[b]).flow > 0
                            ==> self.distances@[self.inside_edge_list@[b].to as int] < n,
                    forall|u: int|
                        0 <= u < n && #[trigger] self.distances@[u] < n && !done[u] && u != v ==> self.que@.contains(
                            u as usize,
                        ),
                    forall|w: int|
                        0 <= w < n && #[trigger] self.distances@[w] < n && w != sink ==> self.descends(w, descent[w]),
                    self.distances@[v as int] == front,
                    0 <= split <= self.que@.len(),
                    forall|i: int| 0 <= i < split ==> self.distances@[#[trigger] self.que@[i] as int] == front,
                    forall|i: int|
                        split <= i < self.que@.len() ==> self.distances@[#[trigger] self.que@[i] as int] == front + 1,
                    forall|w: int| 0 <= w < n && #[trigger] self.distances@[w] < n ==> self.distances@[w] <= front + 1,
                    forall|b: int|
                        0 <= b < self.inside_edge_list@.len() && done[self.tail(b)] && (#[trigger] self.inside_edge_list@[b]).flow
                            > 0 ==> self.distances@[self.inside_edge_list@[b].to as int] <= self.distances@[self.tail(b)] + 1,
                    forall|b: int|
                        first <= b < a && (#[trigger] self.inside_edge_list@[b]).flow > 0
                            ==> self.distances@[self.inside_edge_list@[b].to as int] <= front + 1,
                    2 * occurrences(self.distances@, n) + self.que@.len() <= measure,
            {
                proof {
                    self.lemma_tail(v as int, a as int);
                }
                let to = self.inside_edge_list[a].to;
                if self.inside_edge_list[a].flow > 0 && self.distances[to] == n {
                    let ghost labels_before = self.distances@;
                    let ghost queue_now = self.que@;
                    proof {
                        lemma_occurrences_positive(labels_before, to as int, n);
                    }
                    self.distances[to] = self.distances[v] + 1;
                    proof {
                        lemma_occurrences_overwrite(labels_before, to as int, n, self.distances@[to as int]);
                        if self.distances@[to as int] >= levels {
                            levels = levels + 1;
                        }
                        let r = self.inside_edge_list@[a as int].rev as int;
                        assert(self.arc_ok(r));
                        descent = descent.update(to as int, r);
                        assert(self.descends(to as int, r));
                        assert forall|w: int|
                            0 <= w < n && #[trigger] self.distances@[w] < n && w != sink implies self.descends(
                            w,
                            descent[w],
                        ) by {
                            if w != to {
                                assert(labels_before[w] < n);
                                let b = descent[w];
                                assert(labels_before[self.inside_edge_list@[b].to as int] < n);
                            }
                        }
                    }
                    self.que.push_back(to);
                    proof {
                        assert forall|u: int|
                            0 <= u < n && #[trigger] self.distances@[u] < n && !done[u] && u != v implies self.que@.contains(
                            u as usize,
                        ) by {
                            if u != to {
                                assert(labels_before[u] < n);
                            }
                            lemma_contains_after_push(queue_now, to, u as usize);
                        }
                        assert forall|i: int| 0 <= i < split implies self.distances@[#[trigger] self.que@[i] as int]
                            == front by {
                            assert(self.que@[i] == queue_now[i]);
                            assert(labels_before[queue_now[i] as int] < n);
                        }
                        assert forall|i: int| split <= i < self.que@.len() implies self.distances@[#[trigger] self.que@[i] as int]
                            == front + 1 by {
                            if i < queue_now.len() {
                                assert(self.que@[i] == queue_now[i]);
                                assert(labels_before[queue_now[i] as int] < n);
                            }
                        }
                    }
                }
            }
            proof {
                done = done.update(v as int, true);
                assert forall|b: int|
                    0 <= b < self.inside_edge_list@.len() && done[self.tail(b)] && (#[trigger] self.inside_edge_list@[b]).flow
                        > 0 implies self.distances@[self.inside_edge_list@[b].to as int] < n
                    && self.distances@[self.inside_edge_list@[b].to as int] <= self.distances@[self.tail(b)] + 1 by {
                    assert(self.arc_ok(b));
                }
            }
        }
        proof {
            assert forall|a: int|
                0 <= a < self.inside_edge_list@.len() && self.distances@[self.tail(a)] < n && (
                #[trigger] self.inside_edge_list@[a]).flow > 0 implies self.distances@[self.inside_edge_list@[a].to as int]
                <= self.distances@[self.tail(a)] + 1 && self.distances@[self.inside_edge_list@[a].to as int] < n by {
                assert(self.arc_ok(a));
                assert(self.arc_ok(self.inside_edge_list@[a].rev as int));
                if !done[self.tail(a)] {
                    assert(self.que@.contains(self.tail(a) as usize));
                }
            }
        }
        proof {
            assert forall|w: int|
                0 <= w < self.num_nodes && w != sink && self.distances@[w] < self.num_nodes implies #[trigger] self.has_descent(
                w,
            ) by {
                reveal(CSR::has_descent);
                assert(self.descends(w, descent[w]));
            }
            assert forall|w: int| 0 <= w < self.num_nodes && #[trigger] self.distances@[w] == 0 implies w == sink by {
                if w != sink {
                    assert(self.descends(w, descent[w]));
                }
            }
        }
    }

    /// Structures of the same shape stand for the same network.
    pub proof fn lemma_same_shape_same_network(&self, other: &CSR)
        requires
            self.wf(),
            other.wf(),
            self.same_shape(other),
        ensures
            same_network(self.links(), other.links()),
    {
        assert forall|e: int| 0 <= e < self.links().len() implies (#[trigger] self.links()[e]).from
            == other.links()[e].from && self.links()[e].to == other.links()[e].to && self.links()[e].upper
            == other.links()[e].upper by {
            let a = self.edge_index_to_inside_edge_index@[e] as int;
            assert(self.arc_ok(a));
            assert(other.arc_ok(a));
        }
    }

    /// The sum of the capacities of the arcs out of node `u` before `upto`.
    pub open spec fn capacity_out(&self, u: int, upto: int) -> int
        decreases upto - self.start@[u],
    {
        if upto <= self.start@[u] {
            0
        } else {
            self.capacity_out(u, upto - 1) + self.inside_edge_list@[upto - 1].upper
        }
    }

    /// Sum of the capacities of the arcs out of `source`, or `i64::MAX` where
    /// the sum is greater: a bound on what a search from `source` can push.
    pub(crate) fn capacity_at(&self, source: usize) -> (upper: i64)
        requires
            self.wf(),
            source < self.num_nodes,
        ensures
            0 <= upper,
            upper == crate::arith::clamp(self.capacity_out(source as int, self.start@[source + 1] as int)),
            forall|a: int| self.leaves(source as int, a) ==> (#[trigger] self.inside_edge_list@[a]).upper <= upper,
    {
        proof {
            assert(self.start@[source as int] <= self.start@[source + 1]);
            assert(self.start@[source + 1] <= self.start@[self.num_nodes as int]);
        }
        let first = self.start[source];
        let last = self.start[source + 1];
        let mut upper: i64 = 0;
        for i in first..last
            invariant
                self.wf(),
                source < self.num_nodes,
                first == self.start@[source as int],
                last == self.start@[source + 1],
                first <= last,
                last <= self.inside_edge_list@.len(),
                0 <= upper,
                0 <= self.capacity_out(source as int, i as int),
                upper == crate::arith::clamp(self.capacity_out(source as int, i as int)),
                forall|a: int| first <= a < i ==> (#[trigger] self.inside_edge_list@[a]).upper <= upper,
        {
            proof {
                self.lemma_tail(source as int, i as int);
            }
            let capacity = self.inside_edge_list[i].upper;
            upper = if upper > i64::MAX - capacity {
                i64::MAX
            } else {
                upper + capacity
            };
        }
        upper
    }

    /// Whether arc `i` out of node `from` has residual capacity and leads one level down.
    #[inline]
    pub fn is_admissible_edge(&self, from: usize, i: usize) -> (admissible: bool)
        requires
            self.wf(),
            from < self.num_nodes,
            i < self.inside_edge_list@.len(),
        ensures
            admissible == (self.residual(i as int) > 0 && self.distances@[from as int] == self.distances@[self.inside_edge_list@[i as int].to as int] + 1),
    {
        proof {
            assert(self.arc_ok(i as int));
        }
        self.inside_edge_list[i].residual_capacity() > 0 && self.distances[from] == self.distances[self.inside_edge_list[i].to] + 1
    }
}

/// The two nodes of every edge.
pub open spec fn ends_of(edges: Seq<crate::maximum_flow::graph::Edge>) -> Seq<(usize, usize)> {
    Seq::new(edges.len(), |i: int| (edges[i].from, edges[i].to))
}

} // verus!
