use crate::arith::{sat_add, sat_neg, sat_sub};
use crate::minimum_cost_flow::csr::certify;
use crate::minimum_cost_flow::graph::Graph;
use crate::minimum_cost_flow::network_simplex_pivot_rules::{answers, violates, PivotRule};
use crate::minimum_cost_flow::spanning_tree_structure::{
    exchanged, flipped, EdgeState, InternalEdge, Node, SpanningTreeStructure, TreeShape,
};
use crate::minimum_cost_flow::status::Status;
use vstd::prelude::*;

verus! {

/// Minimum-cost flow by the primal network simplex method: keeps a
/// feasible flow on a spanning tree and lets edges that violate the
/// optimality conditions enter the tree, one after the other.
pub struct PrimalNetworkSimplex {
    pub st: SpanningTreeStructure,
}

impl Default for PrimalNetworkSimplex {
    fn default() -> (solver: Self)
        ensures
            solver.st.wf(),
    {
        PrimalNetworkSimplex { st: SpanningTreeStructure::default() }
    }
}

/// What the selection of a leaving edge finds: the edge that leaves, the
/// apex of the cycle, the amount to move around the cycle, and the root of
/// the subtree that the leaving edge cuts off, now and after the pivot.
pub struct Leaving {
    pub leaving_edge_id: usize,
    pub apex: usize,
    pub delta: i64,
    pub t2_now_root: usize,
    pub t2_new_root: usize,
}

/// Writes the flows of the tree structure back into `graph`, each flow
/// kept within the capacity of its edge, and the excesses with them.
pub fn copy_flows(st: &SpanningTreeStructure, graph: &mut Graph)
    requires
        st.wf(),
        old(graph).wf(),
        st.num_nodes == old(graph).num_nodes,
        st.num_edges == old(graph).num_edges,
    ensures
        final(graph).wf(),
        final(graph).num_nodes == old(graph).num_nodes,
        final(graph).num_edges == old(graph).num_edges,
        final(graph).b == old(graph).b,
        final(graph).lowers == old(graph).lowers,
        final(graph).is_reversed == old(graph).is_reversed,
        final(graph).edges@.len() == old(graph).edges@.len(),
        forall|e: int|
            0 <= e < old(graph).num_edges ==> (#[trigger] final(graph).edges@[e]).from == old(graph).edges@[e].from
                && final(graph).edges@[e].to == old(graph).edges@[e].to && final(graph).edges@[e].upper == old(graph).edges@[e].upper && final(graph).edges@[e].cost == old(graph).edges@[e].cost && final(graph).edges@[e].lower == old(graph).edges@[e].lower,
        forall|e: int|
            0 <= e < old(graph).num_edges ==> (#[trigger] final(graph).edges@[e]).flow == (if st.edges@[e].flow < 0 {
                0
            } else if st.edges@[e].flow > old(graph).edges@[e].upper {
                old(graph).edges@[e].upper
            } else {
                st.edges@[e].flow
            }),
        final(graph).excesses@ == st.excesses@,
        crate::network::same_network(final(graph).links(), old(graph).links()),
{
    graph.excesses = st.excesses.clone();
    proof {
        assert(graph.excesses@ =~= st.excesses@);
    }
    let m = graph.num_edges();
    for edge_id in 0..m
        invariant
            st.wf(),
            graph.wf(),
            m == graph.num_edges,
            graph.excesses@ == st.excesses@,
            forall|e: int|
                0 <= e < edge_id ==> (#[trigger] graph.edges@[e]).flow == (if st.edges@[e].flow < 0 {
                    0
                } else if st.edges@[e].flow > old(graph).edges@[e].upper {
                    old(graph).edges@[e].upper
                } else {
                    st.edges@[e].flow
                }),
            st.num_edges == m,
            graph.num_nodes == old(graph).num_nodes,
            graph.num_edges == old(graph).num_edges,
            graph.b == old(graph).b,
            graph.lowers == old(graph).lowers,
            graph.is_reversed == old(graph).is_reversed,
            graph.edges@.len() == old(graph).edges@.len(),
            forall|e: int|
                0 <= e < m ==> (#[trigger] graph.edges@[e]).from == old(graph).edges@[e].from && graph.edges@[e].to
                    == old(graph).edges@[e].to && graph.edges@[e].upper == old(graph).edges@[e].upper
                    && graph.edges@[e].cost == old(graph).edges@[e].cost && graph.edges@[e].lower == old(graph).edges@[e].lower,
    {
        let flow = st.edges[edge_id].flow;
        let upper = graph.edges[edge_id].upper;
        graph.edges[edge_id].flow = if flow < 0 {
            0
        } else if flow > upper {
            upper
        } else {
            flow
        };
    }
    proof {
        assert forall|e: int| 0 <= e < m implies (#[trigger] graph.links()[e]).from == old(graph).links()[e].from
            && graph.links()[e].to == old(graph).links()[e].to && graph.links()[e].lower == old(graph).links()[e].lower && graph.links()[e].upper == old(graph).links()[e].upper && graph.links()[e].cost
            == old(graph).links()[e].cost by {
            assert(graph.edges@[e].from == old(graph).edges@[e].from);
        }
    }
}

/// The potentials of the nodes of the tree structure.
pub fn potentials_of(st: &SpanningTreeStructure) -> (potentials: Vec<i64>)
    requires
        st.wf(),
    ensures
        potentials@.len() == st.num_nodes,
        forall|u: int| 0 <= u < st.num_nodes ==> #[trigger] potentials@[u] == st.nodes@[u].potential,
{
    let mut potentials: Vec<i64> = Vec::new();
    for u in 0..st.num_nodes
        invariant
            st.wf(),
            potentials@.len() == u,
            forall|w: int| 0 <= w < u ==> #[trigger] potentials@[w] == st.nodes@[w].potential,
    {
        potentials.push(st.nodes[u].potential);
    }
    potentials
}

impl PrimalNetworkSimplex {
    /// Solves the problem that `graph` states, with `pivot` to select
    /// the entering edges, and stores flows and excesses in `graph`.
    pub fn solve<Pivot: PivotRule>(&mut self, pivot: &mut Pivot, graph: &mut Graph) -> (status: Status)
        requires
            old(graph).solvable(),
            old(pivot).wf(),
        ensures
            final(graph).solved(old(graph), status),
            final(pivot).wf(),
    {
        if graph.is_unbalance() {
            return Status::Unbalanced;
        }

        // all edge costs are non-negative
        let mut inf_cost: i64 = 1;
        let m = graph.num_edges();
        for i in 0..m
            invariant
                graph.wf(),
                *graph == *old(graph),
                m == graph.edges@.len(),
        {
            inf_cost = sat_add(inf_cost, graph.edges[i].cost);
        }
        let (root, artificial_nodes, artificial_edges) = graph.construct_extend_network_feasible_solution();
        let ghost extended = *graph;
        self.st.build(graph);
        self.st.root = root;
        self.st.nodes[root].parent = usize::MAX;
        self.st.nodes[root].parent_edge_id = usize::MAX;

        self.make_initial_spanning_tree_structure(graph, &artificial_edges, inf_cost);
        self.run(pivot);
        self.revert_artificial_flows(&artificial_edges);

        copy_flows(&self.st, graph);
        let ghost solved = *graph;
        proof {
            solved.lemma_prefix_endpoints(&extended, old(graph));
        }
        graph.remove_artificial_sub_graph(artificial_nodes.as_slice(), artificial_edges.as_slice());
        proof {
            crate::minimum_cost_flow::feasibility::lemma_extension_shed(graph, &solved, &extended, old(graph));
        }
        let potentials = potentials_of(&self.st);
        certify(graph, &potentials)
    }

    /// Lets edges enter the tree for as long as `pivot` selects one. Says
    /// whether it ended because `pivot` found no edge any more.
    fn run<Pivot: PivotRule>(&mut self, pivot: &mut Pivot) -> (calm: Ghost<bool>)
        requires
            old(self).st.wf(),
            old(pivot).wf(),
        ensures
            final(self).st.wf(),
            final(self).st.same_graph(&old(self).st),
            final(pivot).wf(),
            calm@ ==> forall|e: int|
                0 <= e < final(self).st.num_edges ==> !violates(Self::calculate_violation, &final(self).st, e),
    {
        let mut budget: usize = usize::MAX;
        let mut pivoting = true;
        let ghost mut calm = false;
        while pivoting && budget > 0
            invariant
                self.st.wf(),
                self.st.same_graph(&old(self).st),
                pivot.wf(),
                calm ==> !pivoting && forall|e: int|
                    0 <= e < self.st.num_edges ==> !violates(Self::calculate_violation, &self.st, e),
            decreases budget, pivoting as int,
        {
            budget -= 1;
            proof {
                Self::lemma_answers(&self.st);
            }
            match pivot.find_entering_edge(&self.st, Self::calculate_violation) {
                Some(entering_edge_id) => {
                    match self.select_leaving_edge(entering_edge_id) {
                        Some(leaving) => {
                            self.st.update_flow_in_cycle(entering_edge_id, leaving.delta, leaving.apex);
                            self.pivot(
                                leaving.leaving_edge_id,
                                entering_edge_id,
                                leaving.t2_now_root,
                                leaving.t2_new_root,
                            );
                        },
                        None => {
                            pivoting = false;
                        },
                    }
                },
                None => {
                    pivoting = false;
                    proof {
                        calm = true;
                    }
                },
            }
        }
        Ghost(calm)
    }

    /// Returns the flow that is left on an artificial edge to the excesses
    /// of its endpoints.
    fn revert_artificial_flows(&mut self, artificial_edges: &Vec<usize>)
        requires
            old(self).st.wf(),
            forall|i: int| 0 <= i < artificial_edges@.len() ==> #[trigger] artificial_edges@[i] < old(self).st.num_edges,
        ensures
            final(self).st.wf(),
            final(self).st.same_tree(&old(self).st),
            (final(self).st.edges@, final(self).st.excesses@) == reverted(
                old(self).st.edges@,
                old(self).st.excesses@,
                artificial_edges@,
                artificial_edges@.len(),
            ),
    {
        for i in 0..artificial_edges.len()
            invariant
                self.st.wf(),
                self.st.same_tree(&old(self).st),
                forall|k: int| 0 <= k < artificial_edges@.len() ==> #[trigger] artificial_edges@[k] < self.st.num_edges,
                (self.st.edges@, self.st.excesses@) == reverted(
                    old(self).st.edges@,
                    old(self).st.excesses@,
                    artificial_edges@,
                    i as nat,
                ),
        {
            let edge_id = artificial_edges[i];
            let edge = self.st.edges[edge_id];
            if edge.flow > 0 {
                self.st.excesses[edge.from] = sat_add(self.st.excesses[edge.from], edge.flow);
                self.st.excesses[edge.to] = sat_sub(self.st.excesses[edge.to], edge.flow);
                self.st.edges[edge_id].flow = 0;
            }
        }
    }

    /// What `calculate_violation` finds for `edge`.
    pub open spec fn violation(edge: InternalEdge, st: &SpanningTreeStructure) -> int {
        match edge.state {
            EdgeState::Upper => st.reduced(edge),
            _ => crate::arith::clamp(-st.reduced(edge)),
        }
    }

    /// By how much `edge` violates the optimality conditions: its reduced
    /// cost where it stands at its upper bound, and the negated reduced
    /// cost elsewhere.
    fn calculate_violation(edge: &InternalEdge, st: &SpanningTreeStructure) -> (violation: i64)
        requires
            st.nodes@.len() == st.num_nodes,
            edge.from < st.num_nodes,
            edge.to < st.num_nodes,
        ensures
            violation == Self::violation(*edge, st),
    {
        match edge.state {
            EdgeState::Upper => st.reduced_cost(edge),
            _ => sat_neg(st.reduced_cost(edge)),
        }
    }

    /// `calculate_violation` may be asked about every edge of a
    /// well-formed tree structure, and gives one answer for each.
    proof fn lemma_answers(st: &SpanningTreeStructure)
        requires
            st.wf(),
        ensures
            answers(Self::calculate_violation, st),
    {
        assert forall|e: int| 0 <= e < st.num_edges implies call_requires(
            Self::calculate_violation,
            (&#[trigger] st.edges@[e], st),
        ) by {
            assert(st.edges@[e].from < st.num_nodes);
        }
    }

    /// Makes the artificial edges the spanning tree: every node hangs
    /// below the root by its artificial edge, with a potential that makes
    /// this edge tight.
    fn make_initial_spanning_tree_structure(&mut self, graph: &mut Graph, artificial_edges: &Vec<usize>, inf_cost: i64)
        requires
            old(self).st.wf(),
            old(graph).wf(),
            old(self).st.root < old(self).st.num_nodes,
            old(self).st.num_nodes == old(graph).num_nodes,
            old(self).st.num_edges == old(graph).num_edges,
            forall|i: int| 0 <= i < artificial_edges@.len() ==> #[trigger] artificial_edges@[i] < old(self).st.num_edges,
            forall|e: int|
                0 <= e < old(self).st.num_edges ==> (#[trigger] old(self).st.edges@[e]).from == old(graph).edges@[e].from
                    && old(self).st.edges@[e].to == old(graph).edges@[e].to,
        ensures
            final(self).st.wf(),
            final(self).st.same_graph(&old(self).st),
            final(self).st.root == old(self).st.root,
            final(graph).wf(),
            final(graph).num_nodes == old(graph).num_nodes,
            final(graph).num_edges == old(graph).num_edges,
            final(graph).edges == old(graph).edges,
            final(graph).b == old(graph).b,
            final(graph).lowers == old(graph).lowers,
            final(graph).is_reversed == old(graph).is_reversed,
            final(self).st.excesses == old(self).st.excesses,
            ({
                let hung = starred(
                    old(self).st.shape(),
                    old(self).st.edges@,
                    old(graph).excesses@,
                    old(self).st.root,
                    artificial_edges@,
                    inf_cost,
                    artificial_edges@.len(),
                );
                &&& final(self).st.edges@ == hung.1
                &&& final(graph).excesses@ == hung.2
                &&& final(self).st.shape() == (TreeShape {
                    nodes: hung.0.nodes,
                    next: hung.0.next.update(hung.3 as int, old(self).st.root),
                    prev: hung.0.prev.update(old(self).st.root as int, hung.3),
                    last: hung.0.last.update(old(self).st.root as int, hung.3),
                    counts: hung.0.counts.update(old(self).st.root as int, old(self).st.num_nodes),
                })
            }),
    {
        let root = self.st.root;
        let mut prev_node = root;
        for i in 0..artificial_edges.len()
            invariant
                self.st.wf(),
                self.st.same_graph(&old(self).st),
                self.st.root == root,
                root < self.st.num_nodes,
                prev_node < self.st.num_nodes,
                self.st.excesses == old(self).st.excesses,
                (self.st.shape(), self.st.edges@, graph.excesses@, prev_node) == starred(
                    old(self).st.shape(),
                    old(self).st.edges@,
                    old(graph).excesses@,
                    root,
                    artificial_edges@,
                    inf_cost,
                    i as nat,
                ),
                graph.wf(),
                self.st.num_nodes == graph.num_nodes,
                self.st.num_edges == graph.num_edges,
                graph.num_nodes == old(graph).num_nodes,
                graph.num_edges == old(graph).num_edges,
                graph.edges == old(graph).edges,
                graph.b == old(graph).b,
                graph.lowers == old(graph).lowers,
                graph.is_reversed == old(graph).is_reversed,
                forall|k: int| 0 <= k < artificial_edges@.len() ==> #[trigger] artificial_edges@[k] < self.st.num_edges,
                forall|e: int|
                    0 <= e < self.st.num_edges ==> (#[trigger] self.st.edges@[e]).from == graph.edges@[e].from
                        && self.st.edges@[e].to == graph.edges@[e].to,
        {
            let edge_id = artificial_edges[i];
            let edge = graph.edges[edge_id];
            let ghost before = starred(
                old(self).st.shape(),
                old(self).st.edges@,
                old(graph).excesses@,
                root,
                artificial_edges@,
                inf_cost,
                i as nat,
            );
            proof {
                assert(self.st.edges@[edge_id as int].from == edge.from);
            }
            let u = if edge.from == root {
                edge.to
            } else {
                edge.from
            };

            if edge.from == u {
                self.st.nodes[u].potential = inf_cost;
            } else {
                self.st.nodes[u].potential = sat_neg(inf_cost);
            }
            self.st.edges[edge_id].state = EdgeState::Tree;

            self.st.nodes[u].parent = root;
            self.st.nodes[u].parent_edge_id = edge_id;
            self.st.next_node_dft[prev_node] = u;
            self.st.prev_node_dft[u] = prev_node;
            self.st.last_descendent_dft[u] = u;
            self.st.num_successors[u] = 1;
            graph.excesses[u] = 0;
            prev_node = u;
            proof {
                let hung = starred(
                    old(self).st.shape(),
                    old(self).st.edges@,
                    old(graph).excesses@,
                    root,
                    artificial_edges@,
                    inf_cost,
                    (i + 1) as nat,
                );
                assert(before.1[edge_id as int].from == edge.from && before.1[edge_id as int].to == edge.to);
                assert(self.st.shape().nodes =~= hung.0.nodes);
                assert(self.st.shape().next =~= hung.0.next);
                assert(self.st.shape().prev =~= hung.0.prev);
                assert(self.st.shape().last =~= hung.0.last);
                assert(self.st.shape().counts =~= hung.0.counts);
                assert(self.st.edges@ =~= hung.1);
                assert(graph.excesses@ =~= hung.2);
            }
        }
        self.st.next_node_dft[prev_node] = root;
        self.st.prev_node_dft[root] = prev_node;
        self.st.last_descendent_dft[root] = prev_node;

        self.st.num_successors[root] = graph.num_nodes();
    }

    /// Finds the edge that blocks the flow around the cycle which the
    /// entering edge closes: walks from both ends of the entering edge up
    /// to the apex of the cycle, takes the first blocking edge on the side
    /// of the tail and the last one on the side of the head, and so keeps
    /// the tree strongly feasible. Finds nothing where the entering edge
    /// is in the tree or a parent is missing on the way.
    fn select_leaving_edge(&self, entering_edge_id: usize) -> (found: Option<Leaving>)
        requires
            self.st.wf(),
            entering_edge_id < self.st.num_edges,
        ensures
            found matches Some(leaving) ==> {
                &&& leaving.leaving_edge_id < self.st.num_edges
                &&& leaving.leaving_edge_id != entering_edge_id ==> {
                    &&& leaving.t2_now_root < self.st.num_nodes
                    &&& (leaving.t2_new_root == self.st.edges@[entering_edge_id as int].from || leaving.t2_new_root
                        == self.st.edges@[entering_edge_id as int].to)
                }
            },
            found == blocking(&self.st, entering_edge_id as int),
    {
        let n = self.st.num_nodes;
        let entering_edge = &self.st.edges[entering_edge_id];

        let (from, to) = match entering_edge.state {
            EdgeState::Tree => {
                return None;
            },
            EdgeState::Lower => (entering_edge.from, entering_edge.to),
            EdgeState::Upper => (entering_edge.to, entering_edge.from),
        };

        let mut leaving_edge_id = entering_edge_id;
        let mut mini_delta = entering_edge.upper;
        let mut t2_now_root = usize::MAX;
        let mut t2_new_root = usize::MAX;

        let mut u = from;
        let mut v = to;
        let mut steps: usize = 0;
        while u != v
            invariant
                blocked(
                    &self.st,
                    from,
                    to,
                    u,
                    v,
                    Leaving { leaving_edge_id, apex: 0, delta: mini_delta, t2_now_root, t2_new_root },
                    (n - steps) as nat,
                ) == blocking(&self.st, entering_edge_id as int),
                self.st.wf(),
                n == self.st.num_nodes,
                entering_edge_id < self.st.num_edges,
                u < n,
                v < n,
                steps <= n,
                from == self.st.edges@[entering_edge_id as int].from || from == self.st.edges@[entering_edge_id as int].to,
                to == self.st.edges@[entering_edge_id as int].from || to == self.st.edges@[entering_edge_id as int].to,
                leaving_edge_id < self.st.num_edges,
                leaving_edge_id != entering_edge_id ==> t2_now_root < n && (t2_new_root == from || t2_new_root == to),
            decreases n - steps,
        {
            if steps >= n {
                return None;
            }
            steps += 1;
            let u_num = self.st.num_successors[u];
            let v_num = self.st.num_successors[v];

            if u_num <= v_num {
                let edge_id = self.st.nodes[u].parent_edge_id;
                let parent = self.st.nodes[u].parent;
                if edge_id == usize::MAX || parent == usize::MAX {
                    return None;
                }
                let edge = &self.st.edges[edge_id];
                let delta = if u == edge.to {
                    edge.residual_capacity()
                } else {
                    edge.flow
                };

                // search first blocking arc
                if delta < mini_delta {
                    leaving_edge_id = edge_id;
                    mini_delta = delta;
                    t2_now_root = u;
                    t2_new_root = from;
                }
                u = parent;
            }
            if v_num <= u_num {
                let edge_id = self.st.nodes[v].parent_edge_id;
                let parent = self.st.nodes[v].parent;
                if edge_id == usize::MAX || parent == usize::MAX {
                    return None;
                }
                let edge = &self.st.edges[edge_id];
                let delta = if v == edge.from {
                    edge.residual_capacity()
                } else {
                    edge.flow
                };

                // search last blocking arc
                if delta <= mini_delta {
                    leaving_edge_id = edge_id;
                    mini_delta = delta;
                    t2_now_root = v;
                    t2_new_root = to;
                }
                v = parent;
            }
        }
        let apex = u;
        Some(Leaving { leaving_edge_id, apex, delta: mini_delta, t2_now_root, t2_new_root })
    }

    /// Exchanges the leaving edge for the entering edge in the tree; or
    /// moves the entering edge to its other bound, where it is its own
    /// leaving edge.
    fn pivot(&mut self, leaving_edge_id: usize, entering_edge_id: usize, t2_now_root: usize, t2_new_root: usize)
        requires
            old(self).st.wf(),
            leaving_edge_id < old(self).st.num_edges,
            entering_edge_id < old(self).st.num_edges,
            leaving_edge_id != entering_edge_id ==> t2_now_root < old(self).st.num_nodes && (t2_new_root == old(self).st.edges@[entering_edge_id as int].from || t2_new_root == old(self).st.edges@[entering_edge_id as int].to),
        ensures
            final(self).st.wf(),
            final(self).st.same_graph(&old(self).st),
            final(self).st.excesses == old(self).st.excesses,
            final(self).st.edges@ == (if leaving_edge_id == entering_edge_id {
                flipped(old(self).st.edges@, entering_edge_id as int)
            } else if old(self).st.root == usize::MAX {
                old(self).st.edges@
            } else {
                exchanged(old(self).st.edges@, leaving_edge_id as int, entering_edge_id as int)
            }),
            leaving_edge_id == entering_edge_id || old(self).st.root == usize::MAX ==> final(self).st.shape()
                == old(self).st.shape() && final(self).st.root == old(self).st.root,
            final(self).st.root == old(self).st.root || final(self).st.root == t2_now_root,
    {
        if leaving_edge_id == entering_edge_id {
            let state = self.st.edges[entering_edge_id].state;
            self.st.edges[entering_edge_id].state = match state {
                EdgeState::Upper => EdgeState::Lower,
                EdgeState::Lower => EdgeState::Upper,
                EdgeState::Tree => EdgeState::Tree,
            };
            return;
        }
        let root = self.st.root;
        if root == usize::MAX {
            return;
        }

        // drop leaving edge and detach tree
        self.st.detach_tree(root, t2_now_root, leaving_edge_id);

        // if the size of subtree t2 is larger than that of subtree t1, swap t1 and t2.
        let other_side = self.st.edges[entering_edge_id].opposite_side(t2_new_root);
        let (t1_new_root, t2_new_root, t2_now_root, new_attach_node) = if self.st.num_successors[t2_now_root]
            >= (self.st.num_nodes + 1) / 2 {
            (t2_now_root, other_side, root, t2_new_root)
        } else {
            (root, t2_new_root, t2_now_root, other_side)
        };

        // enter entering edge and attach tree
        self.st.re_rooting(t2_now_root, t2_new_root, entering_edge_id);
        self.st.attach_tree(t1_new_root, new_attach_node, t2_new_root, entering_edge_id);
        self.st.root = t1_new_root;
    }
}

/// The edges and the excesses after the flow on each of the first `upto`
/// edges that `list` names has gone back to the excesses of its ends: out
/// of the edge, into the excess of its tail and out of the excess of its
/// head.
pub open spec fn reverted(edges: Seq<InternalEdge>, excesses: Seq<i64>, list: Seq<usize>, upto: nat) -> (
    Seq<InternalEdge>,
    Seq<i64>,
)
    decreases upto,
{
    if upto == 0 {
        (edges, excesses)
    } else {
        let before = reverted(edges, excesses, list, (upto - 1) as nat);
        let edge = before.0[list[upto - 1] as int];
        if edge.flow > 0 {
            let tail = before.1.update(
                edge.from as int,
                crate::arith::clamp(before.1[edge.from as int] + edge.flow) as i64,
            );
            (
                before.0.update(list[upto - 1] as int, InternalEdge { flow: 0, ..edge }),
                tail.update(edge.to as int, crate::arith::clamp(tail[edge.to as int] - edge.flow) as i64),
            )
        } else {
            before
        }
    }
}

/// What two walks up the tree find that begin at `u` and at `v` and go on
/// in turn, the one from the node with fewer successors and both where
/// the counts are equal, until they meet: the edge passed that takes the
/// least flow, which on the way from `u` is what is left of the capacity
/// of an edge that leads down and the flow of one that leads up, and on
/// the way from `v` the other way round; of several such edges the first
/// on the way from `u` and the last on the way from `v`. `best` is what
/// was found before, and nothing is found where a parent is missing or
/// the walks have not met after `steps` steps.
pub open spec fn blocked(
    st: &SpanningTreeStructure,
    from: usize,
    to: usize,
    u: usize,
    v: usize,
    best: Leaving,
    steps: nat,
) -> Option<Leaving>
    decreases steps,
{
    if u == v {
        Some(Leaving { apex: u, ..best })
    } else if steps == 0 {
        None
    } else {
        let u_first = st.num_successors@[u as int] <= st.num_successors@[v as int];
        let v_first = st.num_successors@[v as int] <= st.num_successors@[u as int];
        let above_u = st.nodes@[u as int];
        let above_v = st.nodes@[v as int];
        if u_first && (above_u.parent_edge_id == usize::MAX || above_u.parent == usize::MAX) {
            None
        } else if v_first && (above_v.parent_edge_id == usize::MAX || above_v.parent == usize::MAX) {
            None
        } else {
            let edge_u = st.edges@[above_u.parent_edge_id as int];
            let room_u = if u == edge_u.to {
                crate::arith::clamp(edge_u.upper - edge_u.flow) as i64
            } else {
                edge_u.flow
            };
            let after_u = if u_first && room_u < best.delta {
                Leaving {
                    leaving_edge_id: above_u.parent_edge_id,
                    apex: best.apex,
                    delta: room_u,
                    t2_now_root: u,
                    t2_new_root: from,
                }
            } else {
                best
            };
            let edge_v = st.edges@[above_v.parent_edge_id as int];
            let room_v = if v == edge_v.from {
                crate::arith::clamp(edge_v.upper - edge_v.flow) as i64
            } else {
                edge_v.flow
            };
            let after_v = if v_first && room_v <= after_u.delta {
                Leaving {
                    leaving_edge_id: above_v.parent_edge_id,
                    apex: best.apex,
                    delta: room_v,
                    t2_now_root: v,
                    t2_new_root: to,
                }
            } else {
                after_u
            };
            blocked(
                st,
                from,
                to,
                if u_first {
                    above_u.parent
                } else {
                    u
                },
                if v_first {
                    above_v.parent
                } else {
                    v
                },
                after_v,
                (steps - 1) as nat,
            )
        }
    }
}

/// The edge that blocks the flow around the cycle which edge `entering`
/// closes, in the direction of the edge from its lower bound and against
/// it from its upper bound: the edge itself where no edge of the tree
/// takes less than its capacity. Nothing where the edge is in the tree.
pub open spec fn blocking(st: &SpanningTreeStructure, entering: int) -> Option<Leaving> {
    let edge = st.edges@[entering];
    let start = Leaving {
        leaving_edge_id: entering as usize,
        apex: 0,
        delta: edge.upper,
        t2_now_root: usize::MAX,
        t2_new_root: usize::MAX,
    };
    match edge.state {
        EdgeState::Tree => None,
        EdgeState::Lower => blocked(st, edge.from, edge.to, edge.from, edge.to, start, st.num_nodes as nat),
        EdgeState::Upper => blocked(st, edge.to, edge.from, edge.to, edge.from, start, st.num_nodes as nat),
    }
}

/// The tree, the edges and the excesses after the first `upto` edges that
/// `list` names have been hung on the node `root`, with the node that was
/// hung last: the other end of each edge hangs below `root` by the edge,
/// which is in the tree, at the potential `cost` where the edge leaves
/// it and at the negated `cost` else, without excess and alone in its
/// part of the thread, which it enters behind the node hung before it.
pub open spec fn starred(
    shape: TreeShape,
    edges: Seq<InternalEdge>,
    excesses: Seq<i64>,
    root: usize,
    list: Seq<usize>,
    cost: i64,
    upto: nat,
) -> (TreeShape, Seq<InternalEdge>, Seq<i64>, usize)
    decreases upto,
{
    if upto == 0 {
        (shape, edges, excesses, root)
    } else {
        let before = starred(shape, edges, excesses, root, list, cost, (upto - 1) as nat);
        let edge_id = list[upto - 1];
        let edge = before.1[edge_id as int];
        let u = if edge.from == root {
            edge.to
        } else {
            edge.from
        };
        (
            TreeShape {
                nodes: before.0.nodes.update(
                    u as int,
                    Node {
                        parent: root,
                        parent_edge_id: edge_id,
                        potential: if edge.from == u {
                            cost
                        } else {
                            crate::arith::clamp(-cost) as i64
                        },
                    },
                ),
                next: before.0.next.update(before.3 as int, u),
                prev: before.0.prev.update(u as int, before.3),
                last: before.0.last.update(u as int, u),
                counts: before.0.counts.update(u as int, 1),
            },
            before.1.update(edge_id as int, InternalEdge { state: EdgeState::Tree, ..edge }),
            before.2.update(u as int, 0),
            u,
        )
    }
}

} // verus!
