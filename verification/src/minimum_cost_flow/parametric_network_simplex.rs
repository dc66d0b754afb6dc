use crate::arith::sat_neg;
use crate::minimum_cost_flow::csr::certify;
use crate::minimum_cost_flow::dual_network_simplex::{
    entry_price, grow_shortest_path_tree, hangs_by, is_search_result, mark_upper_tree, upper_tree,
};
use crate::minimum_cost_flow::graph::Graph;
use crate::minimum_cost_flow::primal_network_simplex::{copy_flows, potentials_of};
use crate::minimum_cost_flow::spanning_tree_structure::{exchanged, flipped, EdgeState, SpanningTreeStructure};
use crate::minimum_cost_flow::status::Status;
use vstd::prelude::*;

verus! {

/// Minimum-cost flow by the parametric network simplex method: ships the
/// excess of a source to a sink along the tree path between them, as much
/// as the path takes at a time, and exchanges the edge that blocks the
/// path for an edge outside the tree.
pub struct ParametricNetworkSimplex {
    pub st: SpanningTreeStructure,
    pub sink: usize,
}

impl Default for ParametricNetworkSimplex {
    fn default() -> (solver: Self)
        ensures
            solver.st.wf(),
    {
        ParametricNetworkSimplex { st: SpanningTreeStructure::default(), sink: 0 }
    }
}

impl ParametricNetworkSimplex {
    /// Edge `e` may take the place of edge `leaving` in the tree: it is
    /// another edge and leads at its lower bound, with capacity, from the
    /// part of the root into the part under `t2_now_root`, or at its
    /// upper bound the other way.
    pub open spec fn may_enter(&self, leaving: usize, t2_now_root: usize, e: int) -> bool {
        let marks = upper_tree(&self.st, t2_now_root);
        let edge = self.st.edges@[e];
        &&& e != leaving
        &&& (marks[edge.from as int] && !marks[edge.to as int] && edge.state == EdgeState::Lower && edge.upper != 0)
            || (!marks[edge.from as int] && marks[edge.to as int] && edge.state == EdgeState::Upper)
    }

    /// Solves the problem that `graph` states and stores flows and
    /// excesses in `graph`.
    pub fn solve(&mut self, graph: &mut Graph) -> (status: Status)
        requires
            old(graph).solvable(),
        ensures
            final(graph).solved(old(graph), status),
    {
        if graph.is_unbalance() {
            return Status::Unbalanced;
        }
        let (source, sink, artificial_nodes, artificial_edges) = graph.construct_extend_network_one_supply_one_demand();
        let ghost extended = *graph;
        self.st.build(graph);
        self.st.root = source;
        self.sink = sink;

        if self.make_initial_spanning_tree_structure() {
            self.run();
        }

        copy_flows(&self.st, graph);
        let ghost solved = *graph;
        proof {
            solved.lemma_prefix_endpoints(&extended, old(graph));
        }
        graph.remove_artificial_sub_graph(artificial_nodes.as_slice(), artificial_edges.as_slice());
        proof {
            crate::minimum_cost_flow::feasibility::lemma_extension_shed(graph, &solved, &extended, old(graph));
        }
        let potentials = potentials_of(&self.st);
        certify(graph, &potentials)
    }

    /// Ships flow from the source to the sink along the tree for as long
    /// as the source has an excess and the edge that blocks the path can
    /// be exchanged. Says whether it ended because the excess of the
    /// source was used up.
    fn run(&mut self) -> (shipped: Ghost<bool>)
        requires
            old(self).st.wf(),
            old(self).st.root < old(self).st.num_nodes,
            old(self).sink < old(self).st.num_nodes,
        ensures
            final(self).st.wf(),
            final(self).st.same_graph(&old(self).st),
            final(self).st.root == old(self).st.root,
            final(self).sink == old(self).sink,
            shipped@ ==> final(self).st.excesses@[final(self).st.root as int] == 0,
    {
        let mut budget: usize = usize::MAX;
        let mut pivoting = true;
        let ghost mut shipped = false;
        while pivoting && budget > 0
            invariant
                self.st.wf(),
                self.st.same_graph(&old(self).st),
                self.st.root == old(self).st.root,
                self.st.root < self.st.num_nodes,
                self.sink == old(self).sink,
                self.sink < self.st.num_nodes,
                shipped ==> !pivoting && self.st.excesses@[self.st.root as int] == 0,
            decreases budget, pivoting as int,
        {
            budget -= 1;
            match self.select_leaving_edge() {
                Some((leaving_edge_id, delta)) => {
                    let leaving_edge = self.st.edges[leaving_edge_id];
                    let t2_now_root = if self.st.nodes[leaving_edge.from].parent == leaving_edge.to {
                        leaving_edge.from
                    } else {
                        leaving_edge.to
                    };

                    let root = self.st.root;
                    self.st.update_flow_in_path(root, self.sink, delta);
                    if self.st.excesses[root] == 0 {
                        pivoting = false;
                        proof {
                            shipped = true;
                        }
                    } else {
                        match self.select_entering_edge_id(leaving_edge_id, t2_now_root) {
                            Some((entering_edge_id, t2_new_root)) => {
                                self.dual_pivot(leaving_edge_id, entering_edge_id, t2_now_root, t2_new_root);
                            },
                            None => {
                                pivoting = false;
                            },
                        }
                    }
                },
                None => {
                    pivoting = false;
                },
            }
        }
        Ghost(shipped)
    }

    /// Makes the shortest paths from the source the spanning tree, with
    /// all other edges at their lower bound. Says whether the sink is in
    /// the tree.
    fn make_initial_spanning_tree_structure(&mut self) -> (reached: bool)
        requires
            old(self).st.wf(),
            old(self).st.root < old(self).st.num_nodes,
            old(self).sink < old(self).st.num_nodes,
        ensures
            final(self).st.wf(),
            final(self).st.same_graph(&old(self).st),
            final(self).st.root == old(self).st.root,
            final(self).st.excesses == old(self).st.excesses,
            final(self).sink == old(self).sink,
            !reached ==> final(self).st == old(self).st,
            exists|distances: Seq<i64>, prev: Seq<Option<usize>>|
                {
                    &&& #[trigger] is_search_result(&old(self).st, old(self).st.root as int, distances, prev)
                    &&& reached == prev[old(self).sink as int].is_some()
                    &&& reached ==> hangs_by(&final(self).st, &old(self).st, distances, prev)
                },
            reached && (forall|x: int| 0 <= x < old(self).st.num_nodes ==> #[trigger] old(self).st.num_successors@[x] == 0)
                ==> exists|len: nat| #[trigger]
                final(self).st.comes_round(final(self).st.root, len) && final(self).st.counts_agree(
                    final(self).st.root,
                    len,
                ),
    {
        grow_shortest_path_tree(&mut self.st, self.sink)
    }

    /// Finds on the tree path from the source to the sink the edge that
    /// takes the least additional flow, and among several such edges the
    /// one closest to the source. Returns it with the amount that the
    /// path takes, at most the excess of the source.
    fn select_leaving_edge(&self) -> (found: Option<(usize, i64)>)
        requires
            self.st.wf(),
            self.st.root < self.st.num_nodes,
            self.sink < self.st.num_nodes,
        ensures
            found matches Some((leaving, delta)) ==> leaving < self.st.num_edges,
            found == (match narrowest(&self.st, self.sink, None, self.st.num_nodes as nat) {
                Some((leaving, room)) => Some(
                    (
                        leaving,
                        if room < self.st.excesses@[self.st.root as int] {
                            room
                        } else {
                            self.st.excesses@[self.st.root as int]
                        },
                    ),
                ),
                None => None,
            }),
    {
        let n = self.st.num_nodes;
        let mut leaving_edge_id: Option<usize> = None;
        let mut mini_delta: i64 = 0;
        let mut now = self.sink;
        let mut steps: usize = 0;
        while now != self.st.root && steps < n
            invariant
                self.st.wf(),
                n == self.st.num_nodes,
                now < n,
                steps <= n,
                leaving_edge_id matches Some(leaving) ==> leaving < self.st.num_edges,
                narrowest(
                    &self.st,
                    now,
                    match leaving_edge_id {
                        Some(leaving) => Some((leaving, mini_delta)),
                        None => None,
                    },
                    (n - steps) as nat,
                ) == narrowest(&self.st, self.sink, None, n as nat),
            decreases n - steps,
        {
            steps += 1;
            let parent = self.st.nodes[now].parent;
            let edge_id = self.st.nodes[now].parent_edge_id;
            if parent == usize::MAX || edge_id == usize::MAX {
                return None;
            }
            let edge = &self.st.edges[edge_id];
            let delta = if edge.from == parent {
                edge.residual_capacity()
            } else {
                edge.flow
            };
            // select the edge closest to the source as the leaving edge
            if leaving_edge_id.is_none() || delta <= mini_delta {
                mini_delta = delta;
                leaving_edge_id = Some(edge_id);
            }
            now = parent;
        }
        match leaving_edge_id {
            Some(leaving) => {
                let supply = self.st.excesses[self.st.root];
                Some((leaving, if mini_delta < supply { mini_delta } else { supply }))
            },
            None => None,
        }
    }

    /// Selects, among the edges outside the tree that lead at their lower
    /// bound from the part of the source into the part that the leaving
    /// edge cuts off, or at their upper bound the other way, one of least
    /// reduced cost. Returns it with the node that becomes the root of
    /// the part that was cut off.
    fn select_entering_edge_id(&self, leaving_edge_id: usize, t2_now_root: usize) -> (found: Option<(usize, usize)>)
        requires
            self.st.wf(),
        ensures
            found.is_none() <==> forall|e: int|
                0 <= e < self.st.num_edges ==> !self.may_enter(leaving_edge_id, t2_now_root, e),
            found matches Some((entering, t2_new_root)) ==> {
                &&& entering < self.st.num_edges
                &&& self.may_enter(leaving_edge_id, t2_now_root, entering as int)
                &&& t2_new_root == (if self.st.edges@[entering as int].state == EdgeState::Lower {
                    self.st.edges@[entering as int].to
                } else {
                    self.st.edges@[entering as int].from
                })
                &&& forall|e: int|
                    0 <= e < self.st.num_edges && self.may_enter(leaving_edge_id, t2_now_root, e) ==> {
                        &&& entry_price(&self.st, self.st.edges@[entering as int]) <= entry_price(
                            &self.st,
                            #[trigger] self.st.edges@[e],
                        )
                        &&& e < entering ==> entry_price(&self.st, self.st.edges@[entering as int]) < entry_price(
                            &self.st,
                            self.st.edges@[e],
                        )
                    }
            },
    {
        let is_t1_node = mark_upper_tree(&self.st, t2_now_root);

        let mut entering_edge_id: Option<usize> = None;
        let mut t2_new_root: usize = usize::MAX;
        let mut mini_delta: i64 = 0;
        for edge_id in 0..self.st.num_edges
            invariant
                self.st.wf(),
                is_t1_node@ == upper_tree(&self.st, t2_now_root),
                is_t1_node@.len() == self.st.num_nodes,
                entering_edge_id.is_none() ==> forall|e: int|
                    0 <= e < edge_id ==> !self.may_enter(leaving_edge_id, t2_now_root, e),
                entering_edge_id matches Some(entering) ==> {
                    &&& entering < edge_id
                    &&& self.may_enter(leaving_edge_id, t2_now_root, entering as int)
                    &&& t2_new_root == (if self.st.edges@[entering as int].state == EdgeState::Lower {
                        self.st.edges@[entering as int].to
                    } else {
                        self.st.edges@[entering as int].from
                    })
                    &&& mini_delta == entry_price(&self.st, self.st.edges@[entering as int])
                    &&& forall|e: int|
                        0 <= e < edge_id && self.may_enter(leaving_edge_id, t2_now_root, e) ==> {
                            &&& mini_delta <= entry_price(&self.st, #[trigger] self.st.edges@[e])
                            &&& e < entering ==> mini_delta < entry_price(&self.st, self.st.edges@[e])
                        }
                },
        {
            if edge_id != leaving_edge_id {
                let edge = self.st.edges[edge_id];
                // t1 -> t2 and lower
                if is_t1_node[edge.from] && !is_t1_node[edge.to] && edge.state == EdgeState::Lower && edge.upper != 0 {
                    let reduced_cost = self.st.reduced_cost(&edge);
                    if reduced_cost < mini_delta || entering_edge_id.is_none() {
                        mini_delta = reduced_cost;
                        entering_edge_id = Some(edge_id);
                        t2_new_root = edge.to;
                    }
                }
                // t2 -> t1 and upper
                if !is_t1_node[edge.from] && is_t1_node[edge.to] && edge.state == EdgeState::Upper {
                    let reduced_cost = sat_neg(self.st.reduced_cost(&edge));
                    if reduced_cost < mini_delta || entering_edge_id.is_none() {
                        mini_delta = reduced_cost;
                        entering_edge_id = Some(edge_id);
                        t2_new_root = edge.from;
                    }
                }
            }
        }
        match entering_edge_id {
            Some(entering) => Some((entering, t2_new_root)),
            None => None,
        }
    }

    /// Exchanges the leaving edge for the entering edge in the tree; or
    /// moves the entering edge to its other bound, where it is its own
    /// leaving edge.
    fn dual_pivot(&mut self, leaving_edge_id: usize, entering_edge_id: usize, t2_now_root: usize, t2_new_root: usize)
        requires
            old(self).st.wf(),
            leaving_edge_id < old(self).st.num_edges,
            entering_edge_id < old(self).st.num_edges,
            t2_now_root < old(self).st.num_nodes,
            t2_new_root == old(self).st.edges@[entering_edge_id as int].from || t2_new_root == old(self).st.edges@[entering_edge_id as int].to,
        ensures
            final(self).st.wf(),
            final(self).st.same_graph(&old(self).st),
            final(self).st.root == old(self).st.root,
            final(self).sink == old(self).sink,
            final(self).st.excesses == old(self).st.excesses,
            final(self).st.edges@ == (if leaving_edge_id == entering_edge_id {
                flipped(old(self).st.edges@, entering_edge_id as int)
            } else {
                exchanged(old(self).st.edges@, leaving_edge_id as int, entering_edge_id as int)
            }),
            leaving_edge_id == entering_edge_id ==> final(self).st.shape() == old(self).st.shape(),
    {
        if leaving_edge_id == entering_edge_id {
            let state = self.st.edges[entering_edge_id].state;
            self.st.edges[entering_edge_id].state = match state {
                EdgeState::Upper => EdgeState::Lower,
                EdgeState::Lower => EdgeState::Upper,
                EdgeState::Tree => EdgeState::Tree,
            };
            return;
        }
        let root = self.st.root;

        // drop leaving edge
        self.st.detach_tree(root, t2_now_root, leaving_edge_id);

        // enter entering edge
        let attach_node = self.st.edges[entering_edge_id].opposite_side(t2_new_root);
        self.st.re_rooting(t2_now_root, t2_new_root, entering_edge_id);
        self.st.attach_tree(root, attach_node, t2_new_root, entering_edge_id);
    }
}

/// The edge that takes the least flow on the way from `now` up the tree
/// to the root, with what it takes, which is what is left of its capacity
/// where it leads down and its flow where it leads up; of several such
/// edges the one closest to the root. `best` is what was found before,
/// and nothing is found where a parent is missing on the way.
pub open spec fn narrowest(st: &SpanningTreeStructure, now: usize, best: Option<(usize, i64)>, steps: nat) -> Option<
    (usize, i64),
>
    decreases steps,
{
    if now == st.root || steps == 0 {
        best
    } else {
        let above = st.nodes@[now as int];
        if above.parent == usize::MAX || above.parent_edge_id == usize::MAX {
            None
        } else {
            let edge = st.edges@[above.parent_edge_id as int];
            let room = if edge.from == above.parent {
                crate::arith::clamp(edge.upper - edge.flow) as i64
            } else {
                edge.flow
            };
            narrowest(
                st,
                above.parent,
                if best.is_none() || room <= best.unwrap().1 {
                    Some((above.parent_edge_id, room))
                } else {
                    best
                },
                (steps - 1) as nat,
            )
        }
    }
}

} // verus!
