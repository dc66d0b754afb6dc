use crate::arith::{clamp, sat_add, sat_neg, sat_sub};
use crate::counting::{lemma_occurrences_overwrite, occurrences};
use crate::min_queue::MinQueue;
use crate::minimum_cost_flow::graph::Graph;
use crate::minimum_cost_flow::path_costs::{
    cost_plain, lemma_picked_none, lemma_picked_one_more, lemma_picked_room, lemma_total_plain, picked_sum,
};
use vstd::prelude::*;

verus! {

/// A node of the spanning tree: its parent, the edge that joins it to its
/// parent, and its potential. `usize::MAX` stands for "none".
#[derive(PartialEq, Eq, Structural, Debug, Clone, Copy)]
pub struct Node {
    pub parent: usize,
    pub parent_edge_id: usize,
    pub potential: i64,
}

impl Default for Node {
    fn default() -> (node: Self)
        ensures
            node == (Node { parent: 0, parent_edge_id: 0, potential: 0 }),
    {
        Node { parent: 0, parent_edge_id: 0, potential: 0 }
    }
}

/// Where an edge stands: in the tree, or outside it at its lower or at its
/// upper bound.
#[derive(PartialEq, Eq, Structural, Debug, Clone, Copy)]
pub enum EdgeState {
    Lower,
    Upper,
    Tree,
}

impl Default for EdgeState {
    fn default() -> (state: Self)
        ensures
            state == EdgeState::Lower,
    {
        EdgeState::Lower
    }
}

/// An edge of the working graph with the flow it carries and its state.
#[derive(PartialEq, Eq, Structural, Debug, Clone, Copy)]
pub struct InternalEdge {
    pub from: usize,
    pub to: usize,
    pub upper: i64,
    pub cost: i64,
    pub flow: i64,
    pub state: EdgeState,
}

impl Default for InternalEdge {
    fn default() -> (edge: Self)
        ensures
            edge == (InternalEdge { from: 0, to: 0, upper: 0, cost: 0, flow: 0, state: EdgeState::Lower }),
    {
        InternalEdge { from: 0, to: 0, upper: 0, cost: 0, flow: 0, state: EdgeState::Lower }
    }
}

impl InternalEdge {
    /// Whether the flow lies within the capacity.
    pub fn is_feasible(&self) -> (feasible: bool)
        ensures
            feasible == (0 <= self.flow <= self.upper),
    {
        0 <= self.flow && self.flow <= self.upper
    }

    /// Whether the edge carries no flow.
    pub fn is_lower(&self) -> (lower: bool)
        ensures
            lower == (self.flow == 0),
    {
        self.flow == 0
    }

    /// Whether the edge is full.
    pub fn is_upper(&self) -> (upper: bool)
        ensures
            upper == (self.flow == self.upper),
    {
        self.flow == self.upper
    }

    /// How much more flow the edge can take; the nearest `i64` where the
    /// difference does not fit.
    pub fn residual_capacity(&self) -> (residual: i64)
        ensures
            residual == clamp(self.upper - self.flow),
    {
        sat_sub(self.upper, self.flow)
    }

    /// The endpoint of the edge that is not `u`.
    pub fn opposite_side(&self, u: usize) -> (other: usize)
        requires
            u == self.from || u == self.to,
        ensures
            other == (if u == self.from {
                self.to
            } else {
                self.from
            }),
    {
        if u == self.from {
            self.to
        } else {
            self.from
        }
    }
}

/// A spanning tree of the working graph, threaded depth first, with the
/// flow on every edge and the potential of every node.
pub struct SpanningTreeStructure {
    pub num_nodes: usize,
    pub num_edges: usize,
    pub excesses: Vec<i64>,
    pub nodes: Vec<Node>,
    pub edges: Vec<InternalEdge>,
    pub root: usize,
    /// next nodes in depth-first thread
    pub next_node_dft: Vec<usize>,
    /// previous nodes in depth-first thread
    pub prev_node_dft: Vec<usize>,
    /// last descendants in depth-first thread
    pub last_descendent_dft: Vec<usize>,
    /// the number of successors of the node in the tree
    pub num_successors: Vec<usize>,
}

impl Default for SpanningTreeStructure {
    fn default() -> (st: Self)
        ensures
            st.wf(),
            st.num_nodes == 0,
            st.num_edges == 0,
    {
        SpanningTreeStructure {
            num_nodes: 0,
            num_edges: 0,
            excesses: Vec::new(),
            nodes: Vec::new(),
            edges: Vec::new(),
            root: usize::MAX,
            next_node_dft: Vec::new(),
            prev_node_dft: Vec::new(),
            last_descendent_dft: Vec::new(),
            num_successors: Vec::new(),
        }
    }
}

/// `x` names one of `n` things, or nothing.
pub open spec fn names(x: usize, n: usize) -> bool {
    x < n || x == usize::MAX
}

impl SpanningTreeStructure {
    /// Every vector has one entry for each node or edge, every edge joins
    /// two nodes, and every pointer names a node or an edge, or nothing.
    pub open spec fn wf(&self) -> bool {
        &&& self.num_nodes < usize::MAX
        &&& self.num_edges < usize::MAX
        &&& self.excesses@.len() == self.num_nodes
        &&& self.nodes@.len() == self.num_nodes
        &&& self.edges@.len() == self.num_edges
        &&& self.next_node_dft@.len() == self.num_nodes
        &&& self.prev_node_dft@.len() == self.num_nodes
        &&& self.last_descendent_dft@.len() == self.num_nodes
        &&& self.num_successors@.len() == self.num_nodes
        &&& names(self.root, self.num_nodes)
        &&& forall|e: int|
            0 <= e < self.num_edges ==> (#[trigger] self.edges@[e]).from < self.num_nodes && self.edges@[e].to
                < self.num_nodes
        &&& forall|u: int|
            0 <= u < self.num_nodes ==> names((#[trigger] self.nodes@[u]).parent, self.num_nodes) && names(
                self.nodes@[u].parent_edge_id,
                self.num_edges,
            )
        &&& forall|u: int| 0 <= u < self.num_nodes ==> names(#[trigger] self.next_node_dft@[u], self.num_nodes)
        &&& forall|u: int| 0 <= u < self.num_nodes ==> names(#[trigger] self.prev_node_dft@[u], self.num_nodes)
        &&& forall|u: int| 0 <= u < self.num_nodes ==> names(#[trigger] self.last_descendent_dft@[u], self.num_nodes)
    }

    /// `self` has the nodes of `other` and the edges of `other` up to
    /// flow and state.
    pub open spec fn same_graph(&self, other: &SpanningTreeStructure) -> bool {
        &&& self.num_nodes == other.num_nodes
        &&& self.num_edges == other.num_edges
        &&& forall|e: int|
            0 <= e < self.num_edges ==> (#[trigger] self.edges@[e]).from == other.edges@[e].from && self.edges@[e].to
                == other.edges@[e].to && self.edges@[e].upper == other.edges@[e].upper && self.edges@[e].cost
                == other.edges@[e].cost
    }

    /// `self` differs from `other` in flows and excesses at most.
    pub open spec fn same_tree(&self, other: &SpanningTreeStructure) -> bool {
        &&& self.same_graph(other)
        &&& self.nodes == other.nodes
        &&& self.root == other.root
        &&& self.next_node_dft == other.next_node_dft
        &&& self.prev_node_dft == other.prev_node_dft
        &&& self.last_descendent_dft == other.last_descendent_dft
        &&& self.num_successors == other.num_successors
        &&& forall|e: int| 0 <= e < self.num_edges ==> (#[trigger] self.edges@[e]).state == other.edges@[e].state
    }

    /// The tree of the structure: parents, potentials and threads.
    pub open spec fn shape(&self) -> TreeShape {
        TreeShape {
            nodes: self.nodes@,
            next: self.next_node_dft@,
            prev: self.prev_node_dft@,
            last: self.last_descendent_dft@,
            counts: self.num_successors@,
        }
    }

    /// `self` has the threads, the last descendants and the counts of
    /// successors of `other`.
    pub open spec fn same_threads(&self, other: &SpanningTreeStructure) -> bool {
        &&& self.next_node_dft@ == other.next_node_dft@
        &&& self.prev_node_dft@ == other.prev_node_dft@
        &&& self.last_descendent_dft@ == other.last_descendent_dft@
        &&& self.num_successors@ == other.num_successors@
    }

    /// The part of the thread under node `u` can be taken out: `u` has a
    /// node before it and a last descendant, and that one a node after it.
    pub open spec fn has_segment(&self, u: int) -> bool {
        &&& self.prev_node_dft@[u] != usize::MAX
        &&& self.last_descendent_dft@[u] != usize::MAX
        &&& self.next_node_dft@[self.last_descendent_dft@[u] as int] != usize::MAX
    }

    /// The part of the thread under node `q` can go in behind the last
    /// descendant of node `p`: both have a last descendant, and that of
    /// `p` a node after it.
    pub open spec fn has_place(&self, p: int, q: int) -> bool {
        &&& self.last_descendent_dft@[p] != usize::MAX
        &&& self.last_descendent_dft@[q] != usize::MAX
        &&& self.next_node_dft@[self.last_descendent_dft@[p] as int] != usize::MAX
    }

    /// Rebuilds the structure for `graph`: its nodes with their excesses
    /// and no potential, its edges with their flows, all outside the
    /// tree at their lower bound, and no tree yet.
    pub fn build(&mut self, graph: &mut Graph)
        requires
            old(graph).wf(),
            old(graph).node_count() < usize::MAX,
            old(graph)@.len() < usize::MAX,
        ensures
            *final(graph) == *old(graph),
            final(self).wf(),
            final(self).num_nodes == old(graph).num_nodes,
            final(self).num_edges == old(graph).num_edges,
            final(self).excesses@ == old(graph).excesses@,
            final(self).root == usize::MAX,
            forall|e: int|
                0 <= e < final(self).num_edges ==> #[trigger] final(self).edges@[e] == (InternalEdge {
                    from: old(graph).edges@[e].from,
                    to: old(graph).edges@[e].to,
                    flow: old(graph).edges@[e].flow,
                    upper: old(graph).edges@[e].upper,
                    cost: old(graph).edges@[e].cost,
                    state: EdgeState::Lower,
                }),
            forall|u: int|
                0 <= u < final(self).num_nodes ==> #[trigger] final(self).nodes@[u] == (Node {
                    parent: usize::MAX,
                    parent_edge_id: usize::MAX,
                    potential: 0,
                }),
            forall|u: int| 0 <= u < final(self).num_nodes ==> #[trigger] final(self).num_successors@[u] == 0,
    {
        let n = graph.num_nodes();
        let m = graph.num_edges();
        self.num_nodes = n;
        self.num_edges = m;
        self.excesses = graph.excesses.clone();

        self.edges = Vec::new();
        for e in 0..m
            invariant
                graph.wf(),
                m == graph.edges@.len(),
                self.num_nodes == n,
                self.num_edges == m,
                self.excesses@ == graph.excesses@,
                self.edges@.len() == e,
                forall|i: int|
                    0 <= i < e ==> #[trigger] self.edges@[i] == (InternalEdge {
                        from: graph.edges@[i].from,
                        to: graph.edges@[i].to,
                        flow: graph.edges@[i].flow,
                        upper: graph.edges@[i].upper,
                        cost: graph.edges@[i].cost,
                        state: EdgeState::Lower,
                    }),
        {
            let edge = &graph.edges[e];
            self.edges.push(
                InternalEdge {
                    from: edge.from,
                    to: edge.to,
                    flow: edge.flow,
                    upper: edge.upper,
                    cost: edge.cost,
                    state: EdgeState::Lower,
                },
            );
        }

        self.root = usize::MAX;
        self.nodes = Vec::new();
        self.next_node_dft = Vec::new();
        self.prev_node_dft = Vec::new();
        self.last_descendent_dft = Vec::new();
        self.num_successors = Vec::new();
        let ghost copied = self.edges@;
        for u in 0..n
            invariant
                self.edges@ == copied,
                self.num_nodes == n,
                self.num_edges == m,
                self.excesses@ == graph.excesses@,
                self.root == usize::MAX,
                self.nodes@.len() == u,
                self.next_node_dft@.len() == u,
                self.prev_node_dft@.len() == u,
                self.last_descendent_dft@.len() == u,
                self.num_successors@.len() == u,
                forall|w: int|
                    0 <= w < u ==> #[trigger] self.nodes@[w] == (Node {
                        parent: usize::MAX,
                        parent_edge_id: usize::MAX,
                        potential: 0,
                    }),
                forall|w: int| 0 <= w < u ==> #[trigger] self.next_node_dft@[w] == usize::MAX,
                forall|w: int| 0 <= w < u ==> #[trigger] self.prev_node_dft@[w] == usize::MAX,
                forall|w: int| 0 <= w < u ==> #[trigger] self.last_descendent_dft@[w] == usize::MAX,
                forall|w: int| 0 <= w < u ==> #[trigger] self.num_successors@[w] == 0,
        {
            self.nodes.push(Node { parent: usize::MAX, parent_edge_id: usize::MAX, potential: 0 });
            self.next_node_dft.push(usize::MAX);
            self.prev_node_dft.push(usize::MAX);
            self.last_descendent_dft.push(usize::MAX);
            self.num_successors.push(0);
        }
        proof {
            assert forall|e: int| 0 <= e < self.num_edges implies (#[trigger] self.edges@[e]).from < self.num_nodes
                && self.edges@[e].to < self.num_nodes by {
                assert(graph.edges@[e].from < graph.num_nodes);
            }
        }
    }

    /// Reduced cost of `edge` under the potentials, each step of the sum
    /// kept within the range of `i64`.
    pub open spec fn reduced(&self, edge: InternalEdge) -> int {
        clamp(clamp(edge.cost - self.nodes@[edge.from as int].potential) + self.nodes@[edge.to as int].potential)
    }

    /// Reduced cost of `edge`: its cost, less the potential of its tail,
    /// plus the potential of its head.
    #[inline]
    pub fn reduced_cost(&self, edge: &InternalEdge) -> (cost: i64)
        requires
            self.nodes@.len() == self.num_nodes,
            edge.from < self.num_nodes,
            edge.to < self.num_nodes,
        ensures
            cost == self.reduced(*edge),
    {
        sat_add(sat_sub(edge.cost, self.nodes[edge.from].potential), self.nodes[edge.to].potential)
    }

    /// Adds `delta` to the flow of edge `edge_id`; the nearest `i64`
    /// where the sum does not fit.
    fn shift_flow(&mut self, edge_id: usize, delta: i64)
        requires
            old(self).wf(),
            edge_id < old(self).num_edges,
        ensures
            final(self).wf(),
            final(self).same_tree(old(self)),
            final(self).excesses == old(self).excesses,
            final(self).edges@ == old(self).edges@.update(
                edge_id as int,
                InternalEdge {
                    flow: clamp(old(self).edges@[edge_id as int].flow + delta) as i64,
                    ..old(self).edges@[edge_id as int]
                },
            ),
    {
        self.edges[edge_id].flow = sat_add(self.edges[edge_id].flow, delta);
    }

    /// Moves `delta` along the tree path from `source` down to `sink`: onto
    /// the edges that point down the path, off those that point up, out
    /// of the excess of `source` and into the excess of `sink`. The path is
    /// followed from `sink` upwards, for as long as there is a parent.
    pub fn update_flow_in_path(&mut self, source: usize, sink: usize, delta: i64)
        requires
            old(self).wf(),
            source < old(self).num_nodes,
            sink < old(self).num_nodes,
        ensures
            final(self).wf(),
            final(self).same_tree(old(self)),
            final(self).excesses@ == old(self).excesses@.update(
                source as int,
                clamp(old(self).excesses@[source as int] - delta) as i64,
            ).update(
                sink as int,
                clamp(
                    old(self).excesses@.update(source as int, clamp(old(self).excesses@[source as int] - delta) as i64)[sink as int]
                        + delta,
                ) as i64,
            ),
            final(self).edges@ == climbed(
                old(self).edges@,
                old(self).nodes@,
                sink as int,
                source as int,
                true,
                delta as int,
                clamp(-delta),
                old(self).num_nodes as nat,
            ),
    {
        let mut now = sink;
        let mut steps: usize = 0;
        while now != source && steps < self.num_nodes
            invariant
                self.wf(),
                self.same_tree(old(self)),
                self.excesses == old(self).excesses,
                now < self.num_nodes,
                steps <= self.num_nodes,
                climbed(
                    self.edges@,
                    self.nodes@,
                    now as int,
                    source as int,
                    true,
                    delta as int,
                    clamp(-delta),
                    (self.num_nodes - steps) as nat,
                ) == climbed(
                    old(self).edges@,
                    old(self).nodes@,
                    sink as int,
                    source as int,
                    true,
                    delta as int,
                    clamp(-delta),
                    old(self).num_nodes as nat,
                ),
            ensures
                self.wf(),
                self.same_tree(old(self)),
                self.excesses == old(self).excesses,
                self.edges@ == climbed(
                    old(self).edges@,
                    old(self).nodes@,
                    sink as int,
                    source as int,
                    true,
                    delta as int,
                    clamp(-delta),
                    old(self).num_nodes as nat,
                ),
            decreases self.num_nodes - steps,
        {
            let parent = self.nodes[now].parent;
            let edge_id = self.nodes[now].parent_edge_id;
            if parent == usize::MAX || edge_id == usize::MAX {
                break;
            }
            steps += 1;
            let change = if self.edges[edge_id].from == parent {
                delta
            } else {
                sat_neg(delta)
            };
            self.shift_flow(edge_id, change);
            now = parent;
        }
        self.excesses[source] = sat_sub(self.excesses[source], delta);
        self.excesses[sink] = sat_add(self.excesses[sink], delta);
    }

    /// Moves `delta` around the cycle that edge `entering_edge_id` closes
    /// with the tree paths from its endpoints up to `apex`, in the
    /// direction of the edge, or against it where the edge stands at its
    /// upper bound.
    pub fn update_flow_in_cycle(&mut self, entering_edge_id: usize, delta: i64, apex: usize)
        requires
            old(self).wf(),
            entering_edge_id < old(self).num_edges,
        ensures
            final(self).wf(),
            final(self).same_tree(old(self)),
            final(self).excesses == old(self).excesses,
            final(self).edges@ == around(
                old(self).edges@,
                old(self).nodes@,
                entering_edge_id as int,
                delta as int,
                apex as int,
            ),
    {
        let delta = match self.edges[entering_edge_id].state {
            EdgeState::Upper => sat_neg(delta),
            _ => delta,
        };
        let ghost nodes = self.nodes@;
        let ghost n = self.num_nodes as nat;
        let ghost tail = self.edges@[entering_edge_id as int].from as int;
        let ghost head = self.edges@[entering_edge_id as int].to as int;
        self.shift_flow(entering_edge_id, delta);
        let ghost first = self.edges@;

        let mut now = self.edges[entering_edge_id].from;
        let mut steps: usize = 0;
        while now != apex && steps < self.num_nodes
            invariant
                self.wf(),
                self.same_tree(old(self)),
                self.excesses == old(self).excesses,
                self.nodes@ == nodes,
                self.num_nodes == n,
                entering_edge_id < self.num_edges,
                now < self.num_nodes,
                steps <= self.num_nodes,
                climbed(self.edges@, nodes, now as int, apex as int, false, clamp(-delta), delta as int, (n - steps) as nat)
                    == climbed(first, nodes, tail, apex as int, false, clamp(-delta), delta as int, n),
            ensures
                self.wf(),
                self.same_tree(old(self)),
                self.excesses == old(self).excesses,
                self.nodes@ == nodes,
                self.num_nodes == n,
                entering_edge_id < self.num_edges,
                self.edges@ == climbed(first, nodes, tail, apex as int, false, clamp(-delta), delta as int, n),
            decreases self.num_nodes - steps,
        {
            let parent = self.nodes[now].parent;
            let edge_id = self.nodes[now].parent_edge_id;
            if parent == usize::MAX || edge_id == usize::MAX {
                break;
            }
            steps += 1;
            let change = if now == self.edges[edge_id].from {
                sat_neg(delta)
            } else {
                delta
            };
            self.shift_flow(edge_id, change);
            now = parent;
        }
        let ghost second = self.edges@;
        proof {
            assert(self.edges@[entering_edge_id as int].to == head);
        }

        let mut now = self.edges[entering_edge_id].to;
        let mut steps: usize = 0;
        while now != apex && steps < self.num_nodes
            invariant
                self.wf(),
                self.same_tree(old(self)),
                self.excesses == old(self).excesses,
                self.nodes@ == nodes,
                self.num_nodes == n,
                entering_edge_id < self.num_edges,
                now < self.num_nodes,
                steps <= self.num_nodes,
                climbed(self.edges@, nodes, now as int, apex as int, false, delta as int, clamp(-delta), (n - steps) as nat)
                    == climbed(second, nodes, head, apex as int, false, delta as int, clamp(-delta), n),
            ensures
                self.wf(),
                self.same_tree(old(self)),
                self.excesses == old(self).excesses,
                self.edges@ == climbed(second, nodes, head, apex as int, false, delta as int, clamp(-delta), n),
            decreases self.num_nodes - steps,
        {
            let parent = self.nodes[now].parent;
            let edge_id = self.nodes[now].parent_edge_id;
            if parent == usize::MAX || edge_id == usize::MAX {
                break;
            }
            steps += 1;
            let change = if now == self.edges[edge_id].from {
                delta
            } else {
                sat_neg(delta)
            };
            self.shift_flow(edge_id, change);
            now = parent;
        }
    }

    /// Makes `new_root` the root of the subtree that it lies in: turns
    /// round every parent link on the path from `new_root` up to the
    /// root of the subtree, moves the threads and the counts of
    /// successors along, and shifts the potentials of the subtree by the
    /// reduced cost of the entering edge, so that this edge becomes tight.
    /// Stops where a link that it needs is missing.
    pub fn re_rooting(&mut self, _now_root: usize, new_root: usize, entering_edge_id: usize)
        requires
            old(self).wf(),
            new_root < old(self).num_nodes,
            entering_edge_id < old(self).num_edges,
        ensures
            final(self).wf(),
            final(self).same_graph(old(self)),
            final(self).edges == old(self).edges,
            final(self).excesses == old(self).excesses,
            final(self).root == old(self).root,
            final(self).shape() == re_rooted(
                old(self).shape(),
                new_root,
                if new_root == old(self).edges@[entering_edge_id as int].from {
                    old(self).reduced(old(self).edges@[entering_edge_id as int])
                } else {
                    clamp(-old(self).reduced(old(self).edges@[entering_edge_id as int]))
                },
            ),
    {
        let n = self.num_nodes;
        let mut ancestors: Vec<usize> = Vec::new();
        let mut now = new_root;
        while now != usize::MAX && ancestors.len() < n
            invariant
                self.wf(),
                *self == *old(self),
                n == self.num_nodes,
                names(now, n),
                ancestors@.len() <= n,
                forall|i: int| 0 <= i < ancestors@.len() ==> #[trigger] ancestors@[i] < n,
                ancestors@ + ancestry(self.nodes@, now, (n - ancestors@.len()) as nat) == ancestry(
                    self.nodes@,
                    new_root,
                    n as nat,
                ),
            decreases n - ancestors@.len(),
        {
            let ghost before = ancestors@;
            ancestors.push(now);
            proof {
                assert(ancestry(self.nodes@, now, (n - before.len()) as nat) == seq![now] + ancestry(
                    self.nodes@,
                    self.nodes@[now as int].parent,
                    (n - before.len() - 1) as nat,
                ));
                assert(ancestors@ == before + seq![now]);
                assert((before + seq![now]) + ancestry(
                    self.nodes@,
                    self.nodes@[now as int].parent,
                    (n - before.len() - 1) as nat,
                ) == before + (seq![now] + ancestry(
                    self.nodes@,
                    self.nodes@[now as int].parent,
                    (n - before.len() - 1) as nat,
                )));
            }
            now = self.nodes[now].parent;
        }
        proof {
            assert(ancestry(self.nodes@, now, (n - ancestors@.len()) as nat) == Seq::<usize>::empty());
            assert(ancestors@ + Seq::<usize>::empty() == ancestors@);
        }
        let ghost chain = ancestors@;
        let ghost goal = turned(old(self).shape(), chain, chain.len());
        proof {
            assert(chain == ancestry(old(self).shape().nodes, new_root, old(self).shape().nodes.len()));
        }

        // from the root of the subtree down to the new root
        let mut i = ancestors.len();
        while i >= 2
            invariant
                self.wf(),
                self.same_graph(old(self)),
                self.edges == old(self).edges,
                self.excesses == old(self).excesses,
                self.root == old(self).root,
                n == self.num_nodes,
                i <= ancestors@.len(),
                ancestors@ == chain,
                old(self).nodes@.len() == n,
                chain == ancestry(old(self).shape().nodes, new_root, old(self).shape().nodes.len()),
                goal == turned(old(self).shape(), chain, chain.len()),
                forall|k: int| 0 <= k < ancestors@.len() ==> #[trigger] ancestors@[k] < n,
                forall|u: int| 0 <= u < n ==> (#[trigger] self.nodes@[u]).potential == old(self).nodes@[u].potential,
                turned(self.shape(), chain, i as nat) == goal,
            decreases i,
        {
            let p = ancestors[i - 1];
            let q = ancestors[i - 2];
            let ghost before = self.shape();
            let ghost step = turn(before, p, q);
            proof {
                assert(turned(before, chain, i as nat) == (if step.1 {
                    turned(step.0, chain, (i - 1) as nat)
                } else {
                    step
                }));
            }
            i -= 1;
            let size_p = self.num_successors[p];
            let size_q = self.num_successors[q];
            let last_q = self.last_descendent_dft[q];
            let prev_q = self.prev_node_dft[q];
            if last_q == usize::MAX || prev_q == usize::MAX || size_p < size_q {
                proof {
                    assert(step == (before, false));
                }
                return;
            }
            let next_last_q = self.next_node_dft[last_q];
            if next_last_q == usize::MAX {
                proof {
                    assert(step == (before, false));
                }
                return;
            }

            self.nodes[p].parent = q;
            self.nodes[q].parent = usize::MAX;
            self.nodes[p].parent_edge_id = self.nodes[q].parent_edge_id;
            self.nodes[q].parent_edge_id = usize::MAX;
            self.num_successors[p] = size_p - size_q;
            self.num_successors[q] = size_p;

            self.next_node_dft[prev_q] = next_last_q;
            self.prev_node_dft[next_last_q] = prev_q;
            self.next_node_dft[last_q] = q;
            self.prev_node_dft[q] = last_q;

            let mut last_p = self.last_descendent_dft[p];
            if last_p == last_q {
                self.last_descendent_dft[p] = prev_q;
                last_p = prev_q;
            }
            if last_p == usize::MAX {
                proof {
                    assert(self.shape() == step.0);
                }
                return;
            }

            self.prev_node_dft[p] = last_q;
            self.next_node_dft[last_q] = p;
            self.next_node_dft[last_p] = q;
            self.prev_node_dft[q] = last_p;
            self.last_descendent_dft[q] = last_p;
            proof {
                assert(self.shape() == step.0);
            }
        }
        proof {
            assert(turned(self.shape(), chain, i as nat) == (self.shape(), true));
        }

        // update potential
        let entering_edge = self.edges[entering_edge_id];
        let delta = if new_root == entering_edge.from {
            self.reduced_cost(&entering_edge)
        } else {
            sat_neg(self.reduced_cost(&entering_edge))
        };
        let ghost middle = self.shape();
        let end = self.last_descendent_dft[new_root];

        let mut now = new_root;
        let mut steps: usize = 0;
        while now != usize::MAX && steps < n
            invariant_except_break
                raised(self.nodes@, middle.next, now, end, delta as int, (n - steps) as nat) == raised(
                    middle.nodes,
                    middle.next,
                    new_root,
                    end,
                    delta as int,
                    n as nat,
                ),
            invariant
                self.wf(),
                self.same_graph(old(self)),
                self.edges == old(self).edges,
                self.excesses == old(self).excesses,
                self.root == old(self).root,
                n == self.num_nodes,
                new_root < n,
                names(now, n),
                steps <= n,
                end == self.last_descendent_dft@[new_root as int],
                self.shape() == (TreeShape { nodes: self.nodes@, ..middle }),
            ensures
                self.shape() == (TreeShape {
                    nodes: raised(middle.nodes, middle.next, new_root, end, delta as int, n as nat),
                    ..middle
                }),
            decreases n - steps,
        {
            steps += 1;
            self.nodes[now].potential = sat_add(self.nodes[now].potential, delta);
            if now == end {
                break;
            }
            now = self.next_node_dft[now];
        }
    }

    /// Takes the subtree under `sub_tree_root` out of the tree: the edge
    /// `leaving_edge_id`, which joined it to its parent, leaves the tree
    /// and stands at its lower bound if it carries no flow and at its
    /// upper bound if it does; the subtree gets a thread of its own, and
    /// its nodes are no longer counted among the successors of its
    /// former ancestors.
    pub fn detach_tree(&mut self, _root: usize, sub_tree_root: usize, leaving_edge_id: usize)
        requires
            old(self).wf(),
            sub_tree_root < old(self).num_nodes,
            leaving_edge_id < old(self).num_edges,
        ensures
            final(self).wf(),
            final(self).same_graph(old(self)),
            final(self).excesses == old(self).excesses,
            final(self).root == old(self).root,
            final(self).edges@ == old(self).edges@.update(
                leaving_edge_id as int,
                InternalEdge {
                    state: if old(self).edges@[leaving_edge_id as int].flow == 0 {
                        EdgeState::Lower
                    } else {
                        EdgeState::Upper
                    },
                    ..old(self).edges@[leaving_edge_id as int]
                },
            ),
            final(self).nodes@ == old(self).nodes@.update(
                sub_tree_root as int,
                Node {
                    parent: usize::MAX,
                    parent_edge_id: usize::MAX,
                    potential: old(self).nodes@[sub_tree_root as int].potential,
                },
            ),
            !old(self).has_segment(sub_tree_root as int) ==> final(self).same_threads(old(self)),
            old(self).has_segment(sub_tree_root as int) ==> {
                let before = old(self).prev_node_dft@[sub_tree_root as int];
                let last = old(self).last_descendent_dft@[sub_tree_root as int];
                let after = old(self).next_node_dft@[last as int];
                let leaving = old(self).edges@[leaving_edge_id as int];
                &&& final(self).next_node_dft@ == old(self).next_node_dft@.update(before as int, after).update(
                    last as int,
                    sub_tree_root,
                )
                &&& final(self).prev_node_dft@ == old(self).prev_node_dft@.update(after as int, before).update(
                    sub_tree_root as int,
                    last,
                )
                &&& (final(self).num_successors@, final(self).last_descendent_dft@) == recounted(
                    final(self).nodes@,
                    old(self).num_successors@,
                    old(self).last_descendent_dft@,
                    (if sub_tree_root == leaving.from {
                        leaving.to
                    } else {
                        leaving.from
                    }) as int,
                    -old(self).num_successors@[sub_tree_root as int],
                    last,
                    before,
                    old(self).num_nodes as nat,
                )
            },
    {
        let n = self.num_nodes;
        let leaving_edge = self.edges[leaving_edge_id];
        self.edges[leaving_edge_id].state = if leaving_edge.is_lower() {
            EdgeState::Lower
        } else {
            EdgeState::Upper
        };

        // detach sub tree
        self.nodes[sub_tree_root].parent = usize::MAX;
        self.nodes[sub_tree_root].parent_edge_id = usize::MAX;

        let prev_t = self.prev_node_dft[sub_tree_root];
        let last_t = self.last_descendent_dft[sub_tree_root];
        if prev_t == usize::MAX || last_t == usize::MAX {
            return;
        }
        let next_last_t = self.next_node_dft[last_t];
        if next_last_t == usize::MAX {
            return;
        }
        proof {
            assert(old(self).has_segment(sub_tree_root as int));
        }
        self.next_node_dft[prev_t] = next_last_t;
        self.prev_node_dft[next_last_t] = prev_t;
        self.next_node_dft[last_t] = sub_tree_root;
        self.prev_node_dft[sub_tree_root] = last_t;

        let sub_tree_size = self.num_successors[sub_tree_root];
        let start = if sub_tree_root == leaving_edge.from {
            leaving_edge.to
        } else {
            leaving_edge.from
        };
        let mut now = start;
        let mut steps: usize = 0;
        let ghost nodes = self.nodes@;
        let ghost threads = (self.next_node_dft@, self.prev_node_dft@);
        while now != usize::MAX && steps < n
            invariant
                self.wf(),
                self.same_graph(old(self)),
                self.excesses == old(self).excesses,
                self.root == old(self).root,
                self.edges@ == old(self).edges@.update(
                    leaving_edge_id as int,
                    InternalEdge {
                        state: if old(self).edges@[leaving_edge_id as int].flow == 0 {
                            EdgeState::Lower
                        } else {
                            EdgeState::Upper
                        },
                        ..old(self).edges@[leaving_edge_id as int]
                    },
                ),
                self.nodes@ == nodes,
                self.next_node_dft@ == threads.0,
                self.prev_node_dft@ == threads.1,
                n == self.num_nodes,
                sub_tree_root < n,
                names(now, n),
                names(prev_t, n),
                steps <= n,
                recounted(
                    nodes,
                    self.num_successors@,
                    self.last_descendent_dft@,
                    now as int,
                    -sub_tree_size,
                    last_t,
                    prev_t,
                    (n - steps) as nat,
                ) == recounted(
                    nodes,
                    old(self).num_successors@,
                    old(self).last_descendent_dft@,
                    start as int,
                    -sub_tree_size,
                    last_t,
                    prev_t,
                    n as nat,
                ),
            ensures
                self.wf(),
                self.same_graph(old(self)),
                self.excesses == old(self).excesses,
                self.root == old(self).root,
                self.edges@ == old(self).edges@.update(
                    leaving_edge_id as int,
                    InternalEdge {
                        state: if old(self).edges@[leaving_edge_id as int].flow == 0 {
                            EdgeState::Lower
                        } else {
                            EdgeState::Upper
                        },
                        ..old(self).edges@[leaving_edge_id as int]
                    },
                ),
                self.nodes@ == nodes,
                self.next_node_dft@ == threads.0,
                self.prev_node_dft@ == threads.1,
                (self.num_successors@, self.last_descendent_dft@) == recounted(
                    nodes,
                    old(self).num_successors@,
                    old(self).last_descendent_dft@,
                    start as int,
                    -sub_tree_size,
                    last_t,
                    prev_t,
                    n as nat,
                ),
            decreases n - steps,
        {
            if self.num_successors[now] < sub_tree_size {
                break;
            }
            steps += 1;
            self.num_successors[now] -= sub_tree_size;
            if self.last_descendent_dft[now] == last_t {
                self.last_descendent_dft[now] = prev_t;
            }
            now = self.nodes[now].parent;
        }
    }

    /// Hangs the subtree under `sub_tree_root` below `attach_node`: the
    /// edge `entering_edge_id` enters the tree and joins the two, the
    /// thread of the subtree goes in behind the last descendant of
    /// `attach_node`, and its nodes are counted among the successors of
    /// `attach_node` and of its ancestors.
    pub fn attach_tree(&mut self, _root: usize, attach_node: usize, sub_tree_root: usize, entering_edge_id: usize)
        requires
            old(self).wf(),
            attach_node < old(self).num_nodes,
            sub_tree_root < old(self).num_nodes,
            entering_edge_id < old(self).num_edges,
        ensures
            final(self).wf(),
            final(self).same_graph(old(self)),
            final(self).excesses == old(self).excesses,
            final(self).root == old(self).root,
            final(self).edges@ == old(self).edges@.update(
                entering_edge_id as int,
                InternalEdge { state: EdgeState::Tree, ..old(self).edges@[entering_edge_id as int] },
            ),
            final(self).nodes@ == old(self).nodes@.update(
                sub_tree_root as int,
                Node {
                    parent: attach_node,
                    parent_edge_id: entering_edge_id,
                    potential: old(self).nodes@[sub_tree_root as int].potential,
                },
            ),
            !old(self).has_place(attach_node as int, sub_tree_root as int) ==> final(self).same_threads(old(self)),
            old(self).has_place(attach_node as int, sub_tree_root as int) ==> {
                let last = old(self).last_descendent_dft@[attach_node as int];
                let end = old(self).last_descendent_dft@[sub_tree_root as int];
                let after = old(self).next_node_dft@[last as int];
                &&& final(self).next_node_dft@ == old(self).next_node_dft@.update(last as int, sub_tree_root).update(
                    end as int,
                    after,
                )
                &&& final(self).prev_node_dft@ == old(self).prev_node_dft@.update(sub_tree_root as int, last).update(
                    after as int,
                    end,
                )
                &&& (final(self).num_successors@, final(self).last_descendent_dft@) == recounted(
                    final(self).nodes@,
                    old(self).num_successors@,
                    old(self).last_descendent_dft@,
                    attach_node as int,
                    old(self).num_successors@[sub_tree_root as int] as int,
                    last,
                    end,
                    old(self).num_nodes as nat,
                )
            },
    {
        let n = self.num_nodes;
        self.edges[entering_edge_id].state = EdgeState::Tree;

        let (p, q) = (attach_node, sub_tree_root);  // p -> q

        // attach tree
        self.nodes[q].parent = p;
        self.nodes[q].parent_edge_id = entering_edge_id;

        let last_p = self.last_descendent_dft[attach_node];
        let last_q = self.last_descendent_dft[q];
        if last_p == usize::MAX || last_q == usize::MAX {
            return;
        }
        let next_last_p = self.next_node_dft[last_p];
        if next_last_p == usize::MAX {
            return;
        }
        proof {
            assert(old(self).has_place(attach_node as int, sub_tree_root as int));
        }
        self.next_node_dft[last_p] = q;
        self.prev_node_dft[q] = last_p;
        self.prev_node_dft[next_last_p] = last_q;
        self.next_node_dft[last_q] = next_last_p;

        let sub_tree_size = self.num_successors[q];
        let mut now = attach_node;
        let mut steps: usize = 0;
        let ghost nodes = self.nodes@;
        let ghost threads = (self.next_node_dft@, self.prev_node_dft@);
        while now != usize::MAX && steps < n
            invariant
                self.wf(),
                self.same_graph(old(self)),
                self.excesses == old(self).excesses,
                self.root == old(self).root,
                self.edges@ == old(self).edges@.update(
                    entering_edge_id as int,
                    InternalEdge { state: EdgeState::Tree, ..old(self).edges@[entering_edge_id as int] },
                ),
                self.nodes@ == nodes,
                self.next_node_dft@ == threads.0,
                self.prev_node_dft@ == threads.1,
                n == self.num_nodes,
                sub_tree_root < n,
                names(now, n),
                names(last_q, n),
                steps <= n,
                recounted(
                    nodes,
                    self.num_successors@,
                    self.last_descendent_dft@,
                    now as int,
                    sub_tree_size as int,
                    last_p,
                    last_q,
                    (n - steps) as nat,
                ) == recounted(
                    nodes,
                    old(self).num_successors@,
                    old(self).last_descendent_dft@,
                    attach_node as int,
                    sub_tree_size as int,
                    last_p,
                    last_q,
                    n as nat,
                ),
            ensures
                self.wf(),
                self.same_graph(old(self)),
                self.excesses == old(self).excesses,
                self.root == old(self).root,
                self.edges@ == old(self).edges@.update(
                    entering_edge_id as int,
                    InternalEdge { state: EdgeState::Tree, ..old(self).edges@[entering_edge_id as int] },
                ),
                self.nodes@ == nodes,
                self.next_node_dft@ == threads.0,
                self.prev_node_dft@ == threads.1,
                (self.num_successors@, self.last_descendent_dft@) == recounted(
                    nodes,
                    old(self).num_successors@,
                    old(self).last_descendent_dft@,
                    attach_node as int,
                    sub_tree_size as int,
                    last_p,
                    last_q,
                    n as nat,
                ),
            decreases n - steps,
        {
            if self.num_successors[now] > usize::MAX - sub_tree_size {
                break;
            }
            steps += 1;
            self.num_successors[now] += sub_tree_size;
            if self.last_descendent_dft[now] == last_p {
                self.last_descendent_dft[now] = last_q
            }
            now = self.nodes[now].parent;
        }
    }

    /// The distance that a search gives to the nodes that it does not
    /// reach: the sum of all costs and one, each step of the sum kept
    /// within the range of `i64`.
    pub open spec fn far(&self) -> int {
        clamp(cost_total(self.edges@, self.edges@.len()) + 1)
    }

    /// The ways to the nodes fit the labels of a search in progress: for
    /// every node that was reached, the edges marked for it cost what its
    /// distance is, and each of them leads to the node or to a node whose
    /// distance is settled.
    #[verifier::opaque]
    pub open spec fn ways_fit(
        &self,
        source: int,
        prev: Seq<Option<usize>>,
        distances: Seq<i64>,
        seen: Seq<bool>,
        on_way: Seq<Seq<bool>>,
    ) -> bool {
        &&& on_way.len() == self.num_nodes
        &&& forall|x: int| 0 <= x < self.num_nodes ==> (#[trigger] on_way[x]).len() == self.num_edges
        &&& forall|x: int|
            0 <= x < self.num_nodes && Self::is_reached(source, prev, x) ==> distances[x] == picked_sum(
                self.edges@,
                #[trigger] on_way[x],
                self.num_edges as nat,
            )
        &&& forall|x: int, e: int|
            0 <= x < self.num_nodes && 0 <= e < self.num_edges && #[trigger] on_way[x][e] ==> self.edges@[e].to == x
                || seen[self.edges@[e].to as int]
    }

    /// When a node is settled, the ways still fit.
    pub proof fn lemma_ways_settle(
        &self,
        source: int,
        prev: Seq<Option<usize>>,
        distances: Seq<i64>,
        seen: Seq<bool>,
        on_way: Seq<Seq<bool>>,
        u: int,
    )
        requires
            self.wf(),
            self.ways_fit(source, prev, distances, seen, on_way),
            seen.len() == self.num_nodes,
            0 <= u < seen.len(),
        ensures
            self.ways_fit(source, prev, distances, seen.update(u, true), on_way),
    {
        reveal(SpanningTreeStructure::ways_fit);
        let settled = seen.update(u, true);
        assert forall|x: int, e: int|
            0 <= x < self.num_nodes && 0 <= e < self.num_edges && #[trigger] on_way[x][e] implies self.edges@[e].to == x
            || settled[self.edges@[e].to as int] by {
            assert(self.edges@[e].to == x || seen[self.edges@[e].to as int]);
        }
    }

    /// When an edge from a settled node gives its head a new distance, the
    /// way to the head is the way to the tail and the edge; the distance
    /// is the sum without a limit; and the ways still fit.
    pub proof fn lemma_way_extended(
        &self,
        source: int,
        prev: Seq<Option<usize>>,
        distances: Seq<i64>,
        seen: Seq<bool>,
        on_way: Seq<Seq<bool>>,
        u: int,
        e: int,
        through: i64,
    )
        requires
            self.wf(),
            self.costs_fit(),
            self.ways_fit(source, prev, distances, seen, on_way),
            prev.len() == self.num_nodes,
            distances.len() == self.num_nodes,
            seen.len() == self.num_nodes,
            0 <= e < self.num_edges,
            self.edges@[e].from == u,
            self.edges@[e].to != u,
            seen[u],
            !seen[self.edges@[e].to as int],
            Self::is_reached(source, prev, u),
            through == clamp(distances[u] + self.edges@[e].cost),
        ensures
            through == distances[u] + self.edges@[e].cost,
            self.ways_fit(
                source,
                prev.update(self.edges@[e].to as int, Some(e as usize)),
                distances.update(self.edges@[e].to as int, through),
                seen,
                on_way.update(self.edges@[e].to as int, on_way[u].update(e, true)),
            ),
    {
        reveal(SpanningTreeStructure::ways_fit);
        let m = self.num_edges as nat;
        let to = self.edges@[e].to as int;
        let way = on_way[u];
        assert(!way[e]) by {
            if way[e] {
                assert(on_way[u][e]);
            }
        }
        lemma_picked_room(self.edges@, way, e, m);
        lemma_picked_one_more(self.edges@, way, e, m);
        let after = on_way.update(to, way.update(e, true));
        let reached = prev.update(to, Some(e as usize));
        let labels = distances.update(to, through);
        assert forall|x: int| 0 <= x < self.num_nodes && Self::is_reached(source, reached, x) implies labels[x]
            == picked_sum(self.edges@, #[trigger] after[x], m) by {
            if x != to {
                assert(after[x] == on_way[x]);
                assert(Self::is_reached(source, prev, x));
            }
        }
        assert forall|x: int, i: int|
            0 <= x < self.num_nodes && 0 <= i < self.num_edges && #[trigger] after[x][i] implies self.edges@[i].to == x
            || seen[self.edges@[i].to as int] by {
            if x != to {
                assert(on_way[x][i]);
            } else if i != e {
                assert(on_way[u][i]);
            }
        }
    }

    /// Where the costs fit, the distance of unreached nodes is the sum of
    /// all costs and one.
    pub proof fn lemma_total_fits(&self)
        requires
            self.wf(),
            self.costs_fit(),
        ensures
            self.far() == cost_plain(self.edges@, self.edges@.len()) + 1,
    {
        lemma_total_plain(self.edges@, self.edges@.len(), self.edges@.len());
    }

    /// Where the ways fit and an edge from a reached node leads to a
    /// reached node unless the distance through it is no less than that
    /// of unreached nodes, every such edge leads to a reached node.
    pub proof fn lemma_ways_close(
        &self,
        source: int,
        prev: Seq<Option<usize>>,
        distances: Seq<i64>,
        seen: Seq<bool>,
        on_way: Seq<Seq<bool>>,
    )
        requires
            self.wf(),
            self.costs_fit(),
            self.ways_fit(source, prev, distances, seen, on_way),
            self.far() == cost_plain(self.edges@, self.edges@.len()) + 1,
            forall|x: int| 0 <= x < self.num_nodes && #[trigger] seen[x] ==> Self::is_reached(source, prev, x),
            forall|e: int|
                0 <= e < self.num_edges && Self::is_reached(source, prev, (#[trigger] self.edges@[e]).from as int)
                    ==> Self::is_reached(source, prev, self.edges@[e].to as int) || self.far() <= clamp(
                    distances[self.edges@[e].from as int] + self.edges@[e].cost,
                ),
        ensures
            forall|e: int|
                0 <= e < self.num_edges && Self::is_reached(source, prev, (#[trigger] self.edges@[e]).from as int)
                    ==> Self::is_reached(source, prev, self.edges@[e].to as int),
    {
        reveal(SpanningTreeStructure::ways_fit);
        assert forall|e: int|
            0 <= e < self.num_edges && Self::is_reached(source, prev, (#[trigger] self.edges@[e]).from as int) implies Self::is_reached(
            source,
            prev,
            self.edges@[e].to as int,
        ) by {
            let from = self.edges@[e].from as int;
            let to = self.edges@[e].to as int;
            if !Self::is_reached(source, prev, to) {
                let way = on_way[from];
                if way[e] {
                    assert(on_way[from][e]);
                    assert(to == from || seen[to]);
                }
                lemma_picked_room(self.edges@, way, e, self.num_edges as nat);
                assert(distances[from] == picked_sum(self.edges@, way, self.num_edges as nat));
            }
        }
    }

    /// No edge has a negative cost, and the sum of all costs and one is
    /// within the range of `i64`.
    pub open spec fn costs_fit(&self) -> bool {
        self.costs_nonnegative() && cost_plain(self.edges@, self.edges@.len()) < i64::MAX
    }

    /// No edge has a negative cost.
    pub open spec fn costs_nonnegative(&self) -> bool {
        forall|e: int| 0 <= e < self.num_edges ==> (#[trigger] self.edges@[e]).cost >= 0
    }

    /// Node `w` is `source` or was reached by an edge.
    pub open spec fn is_reached(source: int, prev: Seq<Option<usize>>, w: int) -> bool {
        w == source || prev[w].is_some()
    }

    /// Searches from `source` along the edges, nearest node first, with
    /// the cost as the length of an edge. Returns the distance found for
    /// every node, which for a node that was not reached is the sum of all
    /// costs and one, and the edge by which each node was reached.
    ///
    /// The distance of a node that was reached is the distance of the
    /// tail of the edge by which it was reached plus the cost of that
    /// edge. Where no cost is negative, the distances are those of
    /// shortest paths: no edge from a node that was reached is a shortcut.
    /// Where moreover the sum of all costs and one fits an `i64`, every
    /// node that an edge joins to a node that was reached is reached.
    #[verifier::spinoff_prover]
    #[verifier::rlimit(100)]
    pub fn shortest_path(&self, source: usize) -> (found: (Vec<i64>, Vec<Option<usize>>))
        requires
            self.wf(),
            source < self.num_nodes,
        ensures
            found.0@.len() == self.num_nodes,
            found.1@.len() == self.num_nodes,
            found.0@[source as int] == 0,
            found.1@[source as int].is_none(),
            forall|w: int|
                0 <= w < self.num_nodes && (#[trigger] found.1@[w]).is_some() ==> {
                    let e = found.1@[w].unwrap() as int;
                    &&& e < self.num_edges
                    &&& self.edges@[e].to == w
                    &&& self.edges@[e].from != w
                    &&& Self::is_reached(source as int, found.1@, self.edges@[e].from as int)
                    &&& found.0@[w] == clamp(found.0@[self.edges@[e].from as int] + self.edges@[e].cost)
                },
            self.costs_nonnegative() ==> forall|e: int|
                0 <= e < self.num_edges && Self::is_reached(source as int, found.1@, (#[trigger] self.edges@[e]).from as int)
                    ==> found.0@[self.edges@[e].to as int] <= clamp(
                    found.0@[self.edges@[e].from as int] + self.edges@[e].cost,
                ),
            forall|w: int|
                0 <= w < self.num_nodes && !Self::is_reached(source as int, found.1@, w) ==> #[trigger] found.0@[w]
                    == self.far(),
            forall|e: int|
                0 <= e < self.num_edges && Self::is_reached(source as int, found.1@, (#[trigger] self.edges@[e]).from as int)
                    ==> Self::is_reached(source as int, found.1@, self.edges@[e].to as int) || self.far() <= clamp(
                    found.0@[self.edges@[e].from as int] + self.edges@[e].cost,
                ),
            self.costs_fit() ==> forall|e: int|
                0 <= e < self.num_edges && Self::is_reached(source as int, found.1@, (#[trigger] self.edges@[e]).from as int)
                    ==> Self::is_reached(source as int, found.1@, self.edges@[e].to as int),
    {
        let n = self.num_nodes;
        let mut graph: Vec<Vec<usize>> = Vec::new();
        for u in 0..n
            invariant
                graph@.len() == u,
                forall|w: int| 0 <= w < u ==> (#[trigger] graph@[w])@.len() == 0,
        {
            graph.push(Vec::new());
        }
        let mut total_cost: i64 = 0;
        for edge_id in 0..self.num_edges
            invariant
                total_cost == cost_total(self.edges@, edge_id as nat),
                self.wf(),
                n == self.num_nodes,
                graph@.len() == n,
                forall|w: int, k: int|
                    0 <= w < n && 0 <= k < (#[trigger] graph@[w])@.len() ==> (#[trigger] graph@[w]@[k]) < self.num_edges
                        && self.edges@[graph@[w]@[k] as int].from == w,
                forall|e: int|
                    0 <= e < edge_id ==> graph@[(#[trigger] self.edges@[e]).from as int]@.contains(e as usize),
        {
            let edge = &self.edges[edge_id];
            let from = edge.from;
            let ghost before = graph@;
            graph[from].push(edge_id);
            proof {
                assert forall|w: int, k: int| 0 <= w < n && 0 <= k < (#[trigger] graph@[w])@.len() implies (
                #[trigger] graph@[w]@[k]) < self.num_edges && self.edges@[graph@[w]@[k] as int].from == w by {
                    if w == from {
                        if k < before[w]@.len() {
                            assert(graph@[w]@[k] == before[w]@[k]);
                        }
                    } else {
                        assert(graph@[w] == before[w]);
                    }
                }
                assert forall|e: int| 0 <= e < edge_id + 1 implies graph@[(#[trigger] self.edges@[e]).from as int]@.contains(
                    e as usize,
                ) by {
                    let tail = self.edges@[e].from as int;
                    if e < edge_id {
                        assert(before[tail]@.contains(e as usize));
                        if tail == from {
                            crate::counting::lemma_contains_after_push(before[tail]@, edge_id, e as usize);
                        } else {
                            assert(graph@[tail] == before[tail]);
                        }
                    } else {
                        crate::counting::lemma_contains_after_push(before[tail]@, edge_id, e as usize);
                    }
                }
            }
            total_cost = sat_add(total_cost, edge.cost);
        }

        let unreached = sat_add(total_cost, 1);
        proof {
            assert(unreached == self.far());
        }
        let mut distances: Vec<i64> = vec![unreached; n];
        let mut prev_edge_id: Vec<Option<usize>> = vec![None; n];
        let mut seen: Vec<bool> = vec![false; n];
        let mut queue = MinQueue::new();
        queue.push(0, source);

        distances[source] = 0;
        let ghost nonnegative = self.costs_nonnegative();
        let ghost mut horizon: int = 0;
        let ghost m = self.num_edges as nat;
        let ghost exact = self.costs_fit();
        let ghost mut on_way: Seq<Seq<bool>> = Seq::new(n as nat, |x: int| Seq::new(m, |e: int| false));
        proof {
            assert(queue@[0] == (0i64, source));
            assert(queue@.contains((0i64, source)));
            lemma_picked_none(self.edges@, on_way[source as int], m);
            if exact {
                lemma_total_plain(self.edges@, m, m);
                reveal(SpanningTreeStructure::ways_fit);
                assert(self.ways_fit(source as int, prev_edge_id@, distances@, seen@, on_way));
            }
        }
        while queue.len() > 0
            invariant
                m == self.num_edges,
                exact == self.costs_fit(),
                exact ==> unreached == cost_plain(self.edges@, m) + 1,
                exact ==> self.ways_fit(source as int, prev_edge_id@, distances@, seen@, on_way),
                unreached == self.far(),
                forall|x: int|
                    0 <= x < n && !Self::is_reached(source as int, prev_edge_id@, x) ==> #[trigger] distances@[x] == unreached,
                forall|e: int|
                    0 <= e < self.num_edges && seen@[(#[trigger] self.edges@[e]).from as int] ==> Self::is_reached(
                        source as int,
                        prev_edge_id@,
                        self.edges@[e].to as int,
                    ) || unreached <= clamp(distances@[self.edges@[e].from as int] + self.edges@[e].cost),
                self.wf(),
                n == self.num_nodes,
                source < n,
                graph@.len() == n,
                distances@.len() == n,
                prev_edge_id@.len() == n,
                seen@.len() == n,
                distances@[source as int] == 0,
                prev_edge_id@[source as int].is_none(),
                nonnegative == self.costs_nonnegative(),
                nonnegative ==> 0 <= horizon,
                forall|i: int|
                    0 <= i < queue@.len() ==> (#[trigger] queue@[i]).1 < n && distances@[queue@[i].1 as int] <= queue@[i].0
                        && Self::is_reached(source as int, prev_edge_id@, queue@[i].1 as int),
                forall|x: int|
                    0 <= x < n && !seen@[x] && Self::is_reached(source as int, prev_edge_id@, x) ==> queue@.contains(
                        (#[trigger] distances@[x], x as usize),
                    ),
                forall|x: int| 0 <= x < n && #[trigger] seen@[x] ==> Self::is_reached(source as int, prev_edge_id@, x),
                nonnegative ==> forall|x: int| 0 <= x < n && #[trigger] seen@[x] ==> distances@[x] <= horizon,
                nonnegative ==> forall|i: int| 0 <= i < queue@.len() ==> horizon <= (#[trigger] queue@[i]).0,
                forall|w: int, k: int|
                    0 <= w < n && 0 <= k < (#[trigger] graph@[w])@.len() ==> (#[trigger] graph@[w]@[k]) < self.num_edges
                        && self.edges@[graph@[w]@[k] as int].from == w,
                forall|e: int|
                    0 <= e < self.num_edges ==> graph@[(#[trigger] self.edges@[e]).from as int]@.contains(e as usize),
                forall|w: int|
                    0 <= w < n && (#[trigger] prev_edge_id@[w]).is_some() ==> {
                        let e = prev_edge_id@[w].unwrap() as int;
                        &&& e < self.num_edges
                        &&& self.edges@[e].to == w
                        &&& self.edges@[e].from != w
                        &&& seen@[self.edges@[e].from as int]
                        &&& distances@[w] == clamp(distances@[self.edges@[e].from as int] + self.edges@[e].cost)
                    },
                nonnegative ==> forall|e: int|
                    0 <= e < self.num_edges && seen@[(#[trigger] self.edges@[e]).from as int]
                        ==> distances@[self.edges@[e].to as int] <= clamp(
                        distances@[self.edges@[e].from as int] + self.edges@[e].cost,
                    ),
            decreases occurrences(seen@, false), queue@.len(),
        {
            let ghost waiting = queue@;
            let (now_dist, u) = queue.pop().unwrap();
            let ghost taken = choose|i: int| 0 <= i < waiting.len() && #[trigger] waiting[i] == (now_dist, u) && queue@ == waiting.remove(i);
            proof {
                assert forall|i: int| 0 <= i < queue@.len() implies (#[trigger] queue@[i]).1 < n && distances@[queue@[i].1 as int]
                    <= queue@[i].0 && now_dist <= queue@[i].0 && (nonnegative ==> horizon <= queue@[i].0)
                    && Self::is_reached(source as int, prev_edge_id@, queue@[i].1 as int) by {
                    if i < taken {
                        assert(queue@[i] == waiting[i]);
                    } else {
                        assert(queue@[i] == waiting[i + 1]);
                    }
                }
                assert forall|item: (i64, usize)| item.1 != u && waiting.contains(item) implies #[trigger] queue@.contains(
                    item,
                ) by {
                    crate::counting::lemma_contains_after_remove(waiting, taken, item);
                }
            }
            if !seen[u] {
                let ghost marked = seen@;
                proof {
                    lemma_occurrences_overwrite(seen@, u as int, false, true);
                    assert(waiting[taken].1 == u);
                    // the entry that was taken carries the distance of its node
                    assert(Self::is_reached(source as int, prev_edge_id@, u as int));
                    assert(waiting.contains((distances@[u as int], u)));
                    let j = choose|j: int| 0 <= j < waiting.len() && waiting[j] == (distances@[u as int], u);
                    assert(crate::min_queue::comes_first((now_dist, u), waiting[j]));
                }
                {
                    seen[u] = true;
                    proof {
                        if exact {
                            self.lemma_ways_settle(source as int, prev_edge_id@, distances@, marked, on_way, u as int);
                            assert(seen@ == marked.update(u as int, true));
                        }
                    }
                    proof {
                        if nonnegative {
                            assert(horizon <= waiting[taken].0);
                        }
                        horizon = now_dist as int;
                        assert(distances@[u as int] == now_dist);
                        assert forall|x: int|
                            0 <= x < n && !seen@[x] && Self::is_reached(source as int, prev_edge_id@, x) implies queue@.contains(
                            (#[trigger] distances@[x], x as usize),
                        ) by {
                            assert(waiting.contains((distances@[x], x as usize)));
                        }
                    }

                    let degree = graph[u].len();
                    for k in 0..degree
                        invariant
                            m == self.num_edges,
                            exact == self.costs_fit(),
                            exact ==> unreached == cost_plain(self.edges@, m) + 1,
                            exact ==> self.ways_fit(source as int, prev_edge_id@, distances@, seen@, on_way),
                            unreached == self.far(),
                            forall|x: int|
                                0 <= x < n && !Self::is_reached(source as int, prev_edge_id@, x)
                                    ==> #[trigger] distances@[x] == unreached,
                            forall|e: int|
                                0 <= e < self.num_edges && seen@[(#[trigger] self.edges@[e]).from as int]
                                    && self.edges@[e].from != u ==> Self::is_reached(
                                    source as int,
                                    prev_edge_id@,
                                    self.edges@[e].to as int,
                                ) || unreached <= clamp(distances@[self.edges@[e].from as int] + self.edges@[e].cost),
                            forall|j: int|
                                0 <= j < k ==> Self::is_reached(
                                    source as int,
                                    prev_edge_id@,
                                    self.edges@[(#[trigger] graph@[u as int]@[j]) as int].to as int,
                                ) || unreached <= clamp(now_dist + self.edges@[graph@[u as int]@[j] as int].cost),
                            self.wf(),
                            n == self.num_nodes,
                            source < n,
                            u < n,
                            graph@.len() == n,
                            degree == graph@[u as int]@.len(),
                            distances@.len() == n,
                            prev_edge_id@.len() == n,
                            seen@.len() == n,
                            distances@[source as int] == 0,
                            prev_edge_id@[source as int].is_none(),
                            seen@[u as int],
                            nonnegative == self.costs_nonnegative(),
                            nonnegative ==> 0 <= horizon,
                            horizon == now_dist,
                            distances@[u as int] == now_dist,
                            forall|i: int|
                                0 <= i < queue@.len() ==> (#[trigger] queue@[i]).1 < n && distances@[queue@[i].1 as int]
                                    <= queue@[i].0 && Self::is_reached(source as int, prev_edge_id@, queue@[i].1 as int),
                            forall|x: int|
                                0 <= x < n && !seen@[x] && Self::is_reached(source as int, prev_edge_id@, x)
                                    ==> queue@.contains((#[trigger] distances@[x], x as usize)),
                            forall|x: int|
                                0 <= x < n && #[trigger] seen@[x] ==> Self::is_reached(source as int, prev_edge_id@, x),
                            nonnegative ==> forall|x: int| 0 <= x < n && #[trigger] seen@[x] ==> distances@[x] <= horizon,
                            nonnegative ==> forall|i: int| 0 <= i < queue@.len() ==> horizon <= (#[trigger] queue@[i]).0,
                            forall|w: int|
                                0 <= w < n && (#[trigger] prev_edge_id@[w]).is_some() ==> {
                                    let e = prev_edge_id@[w].unwrap() as int;
                                    &&& e < self.num_edges
                                    &&& self.edges@[e].to == w
                                    &&& self.edges@[e].from != w
                                    &&& seen@[self.edges@[e].from as int]
                                    &&& distances@[w] == clamp(
                                        distances@[self.edges@[e].from as int] + self.edges@[e].cost,
                                    )
                                },
                            forall|w: int, j: int|
                                0 <= w < n && 0 <= j < (#[trigger] graph@[w])@.len() ==> (#[trigger] graph@[w]@[j])
                                    < self.num_edges && self.edges@[graph@[w]@[j] as int].from == w,
                            forall|e: int|
                                0 <= e < self.num_edges ==> graph@[(#[trigger] self.edges@[e]).from as int]@.contains(
                                    e as usize,
                                ),
                            nonnegative ==> forall|e: int|
                                0 <= e < self.num_edges && seen@[(#[trigger] self.edges@[e]).from as int]
                                    && self.edges@[e].from != u ==> distances@[self.edges@[e].to as int] <= clamp(
                                    distances@[self.edges@[e].from as int] + self.edges@[e].cost,
                                ),
                            nonnegative ==> forall|j: int|
                                0 <= j < k ==> distances@[self.edges@[(#[trigger] graph@[u as int]@[j]) as int].to as int]
                                    <= clamp(now_dist + self.edges@[graph@[u as int]@[j] as int].cost),
                    {
                        let edge_id = graph[u][k];
                        proof {
                            assert(graph@[u as int]@[k as int] < self.num_edges);
                        }
                        let edge = &self.edges[edge_id];
                        let new_dist = sat_add(distances[u], edge.cost);
                        let ghost labels = distances@;
                        let ghost reached_by = prev_edge_id@;
                        proof {
                            if nonnegative {
                                assert(self.edges@[edge_id as int].cost >= 0);
                            }
                        }

                        if edge.to != source && edge.to != u && !seen[edge.to] && new_dist < distances[edge.to] {
                            let ghost ways = on_way;
                            prev_edge_id[edge.to] = Some(edge_id);
                            distances[edge.to] = new_dist;
                            proof {
                                let to = edge.to as int;
                                on_way = ways.update(to, ways[u as int].update(edge_id as int, true));
                                if exact {
                                    self.lemma_way_extended(
                                        source as int,
                                        reached_by,
                                        labels,
                                        seen@,
                                        ways,
                                        u as int,
                                        edge_id as int,
                                        new_dist,
                                    );
                                    assert(prev_edge_id@ == reached_by.update(to, Some(edge_id)));
                                    assert(distances@ == labels.update(to, new_dist));
                                    assert(self.ways_fit(source as int, prev_edge_id@, distances@, seen@, on_way));
                                }
                            }
                            let ghost waiting_now = queue@;
                            queue.push(new_dist, edge.to);
                            proof {
                                let to = edge.to;
                                assert forall|item: (i64, usize)|
                                    waiting_now.contains(item) || item == (new_dist, to) implies #[trigger] queue@.contains(
                                    item,
                                ) by {
                                    crate::counting::lemma_contains_after_push(waiting_now, (new_dist, to), item);
                                }
                                assert forall|i: int| 0 <= i < queue@.len() implies (#[trigger] queue@[i]).1 < n
                                    && distances@[queue@[i].1 as int] <= queue@[i].0 && (nonnegative ==> horizon
                                    <= queue@[i].0) && Self::is_reached(
                                    source as int,
                                    prev_edge_id@,
                                    queue@[i].1 as int,
                                ) by {
                                    if i < waiting_now.len() {
                                        assert(queue@[i] == waiting_now[i]);
                                        assert(labels[waiting_now[i].1 as int] <= waiting_now[i].0);
                                        assert(Self::is_reached(source as int, reached_by, waiting_now[i].1 as int));
                                    }
                                }
                                assert forall|x: int|
                                    0 <= x < n && !seen@[x] && Self::is_reached(source as int, prev_edge_id@, x) implies queue@.contains(
                                    (#[trigger] distances@[x], x as usize),
                                ) by {
                                    if x != to {
                                        assert(Self::is_reached(source as int, reached_by, x));
                                        assert(waiting_now.contains((labels[x], x as usize)));
                                    }
                                }
                                assert forall|x: int| 0 <= x < n && #[trigger] seen@[x] implies Self::is_reached(
                                    source as int,
                                    prev_edge_id@,
                                    x,
                                ) by {
                                    assert(Self::is_reached(source as int, reached_by, x));
                                }
                                assert forall|w: int| 0 <= w < n && (#[trigger] prev_edge_id@[w]).is_some() implies {
                                    let e = prev_edge_id@[w].unwrap() as int;
                                    &&& e < self.num_edges
                                    &&& self.edges@[e].to == w
                                    &&& self.edges@[e].from != w
                                    &&& seen@[self.edges@[e].from as int]
                                    &&& distances@[w] == clamp(
                                        distances@[self.edges@[e].from as int] + self.edges@[e].cost,
                                    )
                                } by {
                                    if w != to {
                                        assert(reached_by[w].is_some());
                                    }
                                }
                                if nonnegative {
                                    assert forall|e: int|
                                        0 <= e < self.num_edges && seen@[(#[trigger] self.edges@[e]).from as int]
                                            && self.edges@[e].from != u implies distances@[self.edges@[e].to as int]
                                        <= clamp(distances@[self.edges@[e].from as int] + self.edges@[e].cost) by {
                                        assert(labels[self.edges@[e].to as int] <= clamp(
                                            labels[self.edges@[e].from as int] + self.edges@[e].cost,
                                        ));
                                    }
                                    assert forall|j: int| 0 <= j < k + 1 implies distances@[self.edges@[(
                                    #[trigger] graph@[u as int]@[j]) as int].to as int] <= clamp(
                                        now_dist + self.edges@[graph@[u as int]@[j] as int].cost,
                                    ) by {
                                        if j < k {
                                            assert(labels[self.edges@[graph@[u as int]@[j] as int].to as int] <= clamp(
                                                now_dist + self.edges@[graph@[u as int]@[j] as int].cost,
                                            ));
                                        }
                                    }
                                }
                            }
                        } else {
                            proof {
                                if nonnegative {
                                    if seen@[edge.to as int] {
                                        assert(distances@[edge.to as int] <= horizon);
                                    }
                                }
                            }
                        }
                    }
                    proof {
                        if nonnegative {
                            assert forall|e: int|
                                0 <= e < self.num_edges && seen@[(#[trigger] self.edges@[e]).from as int] implies distances@[self.edges@[e].to as int]
                                <= clamp(distances@[self.edges@[e].from as int] + self.edges@[e].cost) by {
                                if self.edges@[e].from == u {
                                    let list = graph@[u as int]@;
                                    assert(list.contains(e as usize));
                                    let j = choose|j: int| 0 <= j < list.len() && list[j] == e as usize;
                                    assert(distances@[self.edges@[graph@[u as int]@[j] as int].to as int] <= clamp(
                                        now_dist + self.edges@[graph@[u as int]@[j] as int].cost,
                                    ));
                                }
                            }
                        }
                    }
                }
            } else {
                proof {
                    assert forall|x: int|
                        0 <= x < n && !seen@[x] && Self::is_reached(source as int, prev_edge_id@, x) implies queue@.contains(
                        (#[trigger] distances@[x], x as usize),
                    ) by {
                        assert(waiting.contains((distances@[x], x as usize)));
                    }
                }
            }
        }
        proof {
            assert forall|x: int| 0 <= x < n && Self::is_reached(source as int, prev_edge_id@, x) implies seen@[x] by {
                if !seen@[x] {
                    assert(queue@.contains((distances@[x], x as usize)));
                }
            }
            if exact {
                self.lemma_total_fits();
                self.lemma_ways_close(source as int, prev_edge_id@, distances@, seen@, on_way);
            }
        }
        (distances, prev_edge_id)
    }

    /// Whether every edge carries a flow within its capacity and no node
    /// has an excess.
    pub fn satisfy_constraints(&self) -> (satisfied: bool)
        requires
            self.wf(),
        ensures
            satisfied == ((forall|e: int| 0 <= e < self.num_edges ==> 0 <= (#[trigger] self.edges@[e]).flow
                <= self.edges@[e].upper) && (forall|u: int|
                0 <= u < self.num_nodes ==> #[trigger] self.excesses@[u] == 0)),
    {
        for e in 0..self.num_edges
            invariant
                self.wf(),
                forall|i: int| 0 <= i < e ==> 0 <= (#[trigger] self.edges@[i]).flow <= self.edges@[i].upper,
        {
            if !self.edges[e].is_feasible() {
                return false;
            }
        }
        for u in 0..self.num_nodes
            invariant
                self.wf(),
                forall|i: int| 0 <= i < self.num_edges ==> 0 <= (#[trigger] self.edges@[i]).flow <= self.edges@[i].upper,
                forall|w: int| 0 <= w < u ==> #[trigger] self.excesses@[w] == 0,
        {
            if self.excesses[u] != 0 {
                return false;
            }
        }
        true
    }

    /// Edge `edge` is where the optimality conditions want it: tight in
    /// the tree; of no capacity, or of a reduced cost that is not
    /// negative, at its lower bound; of no capacity, or of a reduced cost
    /// that is not positive, at its upper bound.
    pub open spec fn in_kilter(&self, edge: InternalEdge) -> bool {
        match edge.state {
            EdgeState::Tree => self.reduced(edge) == 0,
            EdgeState::Lower => edge.upper == 0 || self.reduced(edge) >= 0,
            EdgeState::Upper => edge.upper == 0 || self.reduced(edge) <= 0,
        }
    }

    /// Whether every edge satisfies the optimality conditions for its state.
    pub fn satisfy_optimality_conditions(&self) -> (satisfied: bool)
        requires
            self.wf(),
        ensures
            satisfied == (forall|e: int| 0 <= e < self.num_edges ==> self.in_kilter(#[trigger] self.edges@[e])),
    {
        for e in 0..self.num_edges
            invariant
                self.wf(),
                forall|i: int| 0 <= i < e ==> self.in_kilter(#[trigger] self.edges@[i]),
        {
            let edge = &self.edges[e];
            let reduced = self.reduced_cost(edge);
            let fine = match edge.state {
                EdgeState::Tree => reduced == 0,
                EdgeState::Lower => edge.upper == 0 || reduced >= 0,
                EdgeState::Upper => edge.upper == 0 || reduced <= 0,
            };
            if !fine {
                return false;
            }
        }
        true
    }

    /// The node that the thread reaches `k` steps after `root`; nothing
    /// where the thread has ended before.
    pub open spec fn thread_at(&self, root: usize, k: nat) -> usize
        decreases k,
    {
        if k == 0 {
            root
        } else {
            let before = self.thread_at(root, (k - 1) as nat);
            if before < self.next_node_dft@.len() {
                self.next_node_dft@[before as int]
            } else {
                usize::MAX
            }
        }
    }

    /// The thread from `root` comes back to `root` after `len` steps through
    /// nodes, and not before.
    pub open spec fn comes_round(&self, root: usize, len: nat) -> bool {
        &&& 0 < len <= self.num_nodes
        &&& self.thread_at(root, len) == root
        &&& forall|k: nat| 0 < k < len ==> (#[trigger] self.thread_at(root, k)) < self.num_nodes && self.thread_at(root, k) != root
    }

    /// The sum of the counts of successors of the nodes whose parent is `u`
    /// among those that the thread from `root` reaches after `from` steps
    /// or more and fewer than `len`.
    pub open spec fn counts_below(&self, root: usize, len: nat, u: int, from: nat) -> int
        decreases len - from,
    {
        if from >= len {
            0
        } else {
            let v = self.thread_at(root, from) as int;
            (if 0 <= v < self.num_nodes && self.nodes@[v].parent == u {
                self.num_successors@[v] as int
            } else {
                0
            }) + self.counts_below(root, len, u, from + 1)
        }
    }

    /// Every node on the thread of `len` steps from `root` counts as its
    /// successors itself and the successors of the nodes later on the
    /// thread whose parent it is.
    pub open spec fn counts_agree(&self, root: usize, len: nat) -> bool {
        forall|k: nat|
            k < len ==> self.num_successors@[(#[trigger] self.thread_at(root, k)) as int] == 1 + self.counts_below(
                root,
                len,
                self.thread_at(root, k) as int,
                k + 1,
            )
    }

    /// Whether the thread from `root` comes back to `root` and every node
    /// on it counts as its successors itself and the successors of the
    /// nodes later on the thread whose parent it is.
    pub fn validate_num_successors(&self, root: usize) -> (valid: bool)
        requires
            self.wf(),
            root < self.num_nodes,
        ensures
            valid == (exists|len: nat| #[trigger] self.comes_round(root, len) && self.counts_agree(root, len)),
    {
        let n = self.num_nodes;
        let mut order: Vec<usize> = Vec::new();
        let mut now = root;
        loop
            invariant_except_break
                forall|k: nat| 0 < k <= order@.len() ==> #[trigger] self.thread_at(root, k) != root,
            invariant
                self.wf(),
                n == self.num_nodes,
                now < n,
                root < n,
                order@.len() <= n,
                now == self.thread_at(root, order@.len()),
                forall|i: int| 0 <= i < order@.len() ==> #[trigger] order@[i] < n,
                forall|i: nat| i < order@.len() ==> order@[i as int] == #[trigger] self.thread_at(root, i),
            ensures
                0 < order@.len() <= n,
                self.comes_round(root, order@.len()),
                forall|i: int| 0 <= i < order@.len() ==> #[trigger] order@[i] < n,
                forall|i: nat| i < order@.len() ==> order@[i as int] == #[trigger] self.thread_at(root, i),
            decreases n - order@.len(),
        {
            if order.len() >= n {
                proof {
                    assert forall|len: nat| !#[trigger] self.comes_round(root, len) by {
                        if 0 < len <= n {
                            assert(self.thread_at(root, len) != root);
                        }
                    }
                }
                return false;
            }
            order.push(now);
            now = self.next_node_dft[now];
            proof {
                assert(now == self.thread_at(root, order@.len()));
            }
            if now == usize::MAX {
                proof {
                    let m = order@.len();
                    assert forall|len: nat| !#[trigger] self.comes_round(root, len) by {
                        if 0 < len < m {
                            assert(self.thread_at(root, len) != root);
                        } else if len > m {
                            assert(self.thread_at(root, m) == usize::MAX);
                        }
                    }
                }
                return false;
            }
            if now == root {
                break;
            }
        }

        let ghost len = order@.len();
        let mut tally: Vec<u128> = vec![1u128; n];
        let mut i = order.len();
        while i > 0
            invariant
                self.wf(),
                n == self.num_nodes,
                len == order@.len(),
                0 < len <= n,
                i <= len,
                tally@.len() == n,
                self.comes_round(root, len),
                forall|k: int| 0 <= k < order@.len() ==> #[trigger] order@[k] < n,
                forall|k: nat| k < len ==> order@[k as int] == #[trigger] self.thread_at(root, k),
                forall|x: int| 0 <= x < n ==> #[trigger] tally@[x] == 1 + self.counts_below(root, len, x, i as nat),
                forall|x: int| 0 <= x < n ==> #[trigger] tally@[x] <= 1 + (len - i) * usize::MAX,
                forall|k: nat|
                    i <= k < len ==> self.num_successors@[(#[trigger] self.thread_at(root, k)) as int] == 1
                        + self.counts_below(root, len, self.thread_at(root, k) as int, k + 1),
            decreases i,
        {
            i -= 1;
            let u = order[i];
            proof {
                assert(u == self.thread_at(root, i as nat));
            }
            if tally[u] != self.num_successors[u] as u128 {
                proof {
                    assert forall|other: nat| !(#[trigger] self.comes_round(root, other) && self.counts_agree(root, other)) by {
                        if self.comes_round(root, other) {
                            self.lemma_one_round(root, len, other);
                            assert(self.thread_at(root, i as nat) == u);
                        }
                    }
                }
                return false;
            }
            let parent = self.nodes[u].parent;
            proof {
                assert forall|x: int| 0 <= x < n implies self.counts_below(root, len, x, i as nat) == (if x == parent {
                    self.num_successors@[u as int] as int
                } else {
                    0
                }) + self.counts_below(root, len, x, (i + 1) as nat) by {}
                assert((len - (i + 1)) * usize::MAX + usize::MAX == (len - i) * usize::MAX) by (nonlinear_arith);
                assert((len - (i + 1)) * usize::MAX <= (len - i) * usize::MAX) by (nonlinear_arith);
                assert((len - i) * usize::MAX <= 0xffff_ffff_ffff_ffff * 0xffff_ffff_ffff_ffff) by (nonlinear_arith)
                    requires
                        0 <= len - i <= 0xffff_ffff_ffff_ffff,
                        0 <= usize::MAX <= 0xffff_ffff_ffff_ffff,
                ;
            }
            if parent != usize::MAX {
                tally[parent] += tally[u];
            }
        }
        proof {
            assert(self.counts_agree(root, len));
        }
        true
    }

    /// A thread comes round after one number of steps only.
    pub proof fn lemma_one_round(&self, root: usize, len: nat, other: nat)
        requires
            self.comes_round(root, len),
            self.comes_round(root, other),
        ensures
            len == other,
    {
        if len < other {
            assert(self.thread_at(root, len) != root);
        } else if other < len {
            assert(self.thread_at(root, other) != root);
        }
    }
}

/// The edges after a walk of at most `steps` parent links from `now` up
/// towards `stop`, which ends where a link is missing: every edge
/// passed has got `with` added to its flow where it leaves the node
/// named by `at_parent` (the parent, or else the child), and `against`
/// where it does not; the nearest `i64` where a sum does not fit.
pub open spec fn climbed(
    edges: Seq<InternalEdge>,
    nodes: Seq<Node>,
    now: int,
    stop: int,
    at_parent: bool,
    with: int,
    against: int,
    steps: nat,
) -> Seq<InternalEdge>
    decreases steps,
{
    if now == stop || steps == 0 || !(0 <= now < nodes.len()) {
        edges
    } else {
        let parent = nodes[now].parent;
        let edge_id = nodes[now].parent_edge_id as int;
        if parent == usize::MAX || !(0 <= edge_id < edges.len()) {
            edges
        } else {
            let leaves = edges[edge_id].from == (if at_parent {
                parent as int
            } else {
                now
            });
            let change = if leaves {
                with
            } else {
                against
            };
            climbed(
                edges.update(
                    edge_id,
                    InternalEdge { flow: clamp(edges[edge_id].flow + change) as i64, ..edges[edge_id] },
                ),
                nodes,
                parent as int,
                stop,
                at_parent,
                with,
                against,
                (steps - 1) as nat,
            )
        }
    }
}


/// The edges after `delta` has been moved around the cycle that edge
/// `entering` closes with the tree paths from its two ends up to `apex`:
/// onto the edge, or off it where it stands at its upper bound, off the
/// edges that lead up from its tail and onto those that lead down to it,
/// onto the edges that lead up from its head and off those that lead down
/// to it.
pub open spec fn around(edges: Seq<InternalEdge>, nodes: Seq<Node>, entering: int, delta: int, apex: int) -> Seq<
    InternalEdge,
> {
    let amount = if edges[entering].state == EdgeState::Upper {
        clamp(-delta)
    } else {
        delta
    };
    let first = edges.update(
        entering,
        InternalEdge { flow: clamp(edges[entering].flow + amount) as i64, ..edges[entering] },
    );
    let second = climbed(
        first,
        nodes,
        edges[entering].from as int,
        apex,
        false,
        clamp(-amount),
        amount,
        nodes.len(),
    );
    climbed(second, nodes, edges[entering].to as int, apex, false, amount, clamp(-amount), nodes.len())
}

/// The counts of successors and the last descendants after a walk of at
/// most `steps` parent links upwards from `now`, which ends where there
/// is no node or where a count would leave the range of `usize`: every
/// node passed has got `amount` added to its count, and `new_last` as its
/// last descendant where that was `old_last`.
pub open spec fn recounted(
    nodes: Seq<Node>,
    counts: Seq<usize>,
    lasts: Seq<usize>,
    now: int,
    amount: int,
    old_last: usize,
    new_last: usize,
    steps: nat,
) -> (Seq<usize>, Seq<usize>)
    decreases steps,
{
    if steps == 0 || !(0 <= now < nodes.len()) || !(0 <= counts[now] + amount <= usize::MAX) {
        (counts, lasts)
    } else {
        recounted(
            nodes,
            counts.update(now, (counts[now] + amount) as usize),
            if lasts[now] == old_last {
                lasts.update(now, new_last)
            } else {
                lasts
            },
            nodes[now].parent as int,
            amount,
            old_last,
            new_last,
            (steps - 1) as nat,
        )
    }
}

/// What the structure holds of its tree: for every node its parent, the
/// edge to it and its potential, the nodes after and before it on the
/// thread, its last descendant on the thread, and the count of its
/// successors.
pub ghost struct TreeShape {
    pub nodes: Seq<Node>,
    pub next: Seq<usize>,
    pub prev: Seq<usize>,
    pub last: Seq<usize>,
    pub counts: Seq<usize>,
}

/// Node `u` and the nodes above it, each followed by its parent, `limit`
/// of them at most.
pub open spec fn ancestry(nodes: Seq<Node>, u: usize, limit: nat) -> Seq<usize>
    decreases limit,
{
    if limit == 0 || u >= nodes.len() {
        Seq::empty()
    } else {
        seq![u] + ancestry(nodes, nodes[u as int].parent, (limit - 1) as nat)
    }
}

/// The tree after the link between node `p` and its child `q` has been
/// turned round, so that `p` hangs below `q`: `q` takes over the count
/// of `p` and has no parent, `p` gets the edge that led to `q` and
/// counts what is left to it, and the part of the thread under `q` is
/// taken out and put in again with the part under `p` behind it. With
/// it, whether every link that this needs was there; the tree is left
/// as it was then, or half-way where only `p` had no last descendant left.
pub open spec fn turn(shape: TreeShape, p: usize, q: usize) -> (TreeShape, bool) {
    let last_q = shape.last[q as int];
    let prev_q = shape.prev[q as int];
    let size_p = shape.counts[p as int];
    let size_q = shape.counts[q as int];
    if last_q == usize::MAX || prev_q == usize::MAX || size_p < size_q || shape.next[last_q as int] == usize::MAX {
        (shape, false)
    } else {
        let next_last_q = shape.next[last_q as int];
        let upper = shape.nodes.update(p as int, Node { parent: q, ..shape.nodes[p as int] });
        let cut = upper.update(q as int, Node { parent: usize::MAX, ..upper[q as int] });
        let led = cut.update(p as int, Node { parent_edge_id: cut[q as int].parent_edge_id, ..cut[p as int] });
        let nodes = led.update(q as int, Node { parent_edge_id: usize::MAX, ..led[q as int] });
        let counts = shape.counts.update(p as int, (size_p - size_q) as usize).update(q as int, size_p);
        let next = shape.next.update(prev_q as int, next_last_q).update(last_q as int, q);
        let prev = shape.prev.update(next_last_q as int, prev_q).update(q as int, last_q);
        let last = if shape.last[p as int] == last_q {
            shape.last.update(p as int, prev_q)
        } else {
            shape.last
        };
        let last_p = last[p as int];
        if last_p == usize::MAX {
            (TreeShape { nodes, next, prev, last, counts }, false)
        } else {
            (
                TreeShape {
                    nodes,
                    next: next.update(last_q as int, p).update(last_p as int, q),
                    prev: prev.update(p as int, last_q).update(q as int, last_p),
                    last: last.update(q as int, last_p),
                    counts,
                },
                true,
            )
        }
    }
}

/// The tree after the links between the first `i` nodes of `chain` have
/// been turned round, from the topmost down to the first, for as long as
/// every link that this needs was there; and whether it was to the end.
pub open spec fn turned(shape: TreeShape, chain: Seq<usize>, i: nat) -> (TreeShape, bool)
    decreases i,
{
    if i < 2 {
        (shape, true)
    } else {
        let step = turn(shape, chain[i - 1], chain[i - 2]);
        if step.1 {
            turned(step.0, chain, (i - 1) as nat)
        } else {
            step
        }
    }
}

/// The nodes after `delta` has been added to the potential of every node
/// on the thread from `now` on to `end`, over `steps` nodes at most; the
/// nearest `i64` where a sum does not fit.
pub open spec fn raised(nodes: Seq<Node>, next: Seq<usize>, now: usize, end: usize, delta: int, steps: nat) -> Seq<
    Node,
>
    decreases steps,
{
    if steps == 0 || now >= nodes.len() {
        nodes
    } else {
        let lifted = nodes.update(
            now as int,
            Node { potential: clamp(nodes[now as int].potential + delta) as i64, ..nodes[now as int] },
        );
        if now == end {
            lifted
        } else {
            raised(lifted, next, next[now as int], end, delta, (steps - 1) as nat)
        }
    }
}

/// The tree after `new_root` has become the root of the subtree that it
/// lies in: the links on the way from `new_root` up to the old root of
/// the subtree are turned round, and, where that went to the end, `delta`
/// is added to the potential of `new_root` and of every node under it.
pub open spec fn re_rooted(shape: TreeShape, new_root: usize, delta: int) -> TreeShape {
    let chain = ancestry(shape.nodes, new_root, shape.nodes.len());
    let rooted = turned(shape, chain, chain.len());
    if rooted.1 {
        TreeShape {
            nodes: raised(
                rooted.0.nodes,
                rooted.0.next,
                new_root,
                rooted.0.last[new_root as int],
                delta,
                shape.nodes.len(),
            ),
            ..rooted.0
        }
    } else {
        rooted.0
    }
}

/// The edges after edge `e` has moved from one bound to the other.
pub open spec fn flipped(edges: Seq<InternalEdge>, e: int) -> Seq<InternalEdge> {
    edges.update(
        e,
        InternalEdge {
            state: match edges[e].state {
                EdgeState::Upper => EdgeState::Lower,
                EdgeState::Lower => EdgeState::Upper,
                EdgeState::Tree => EdgeState::Tree,
            },
            ..edges[e]
        },
    )
}

/// The edges after edge `leaving` has left the tree, for its lower bound
/// where it carries no flow and for its upper bound else, and edge
/// `entering` has entered the tree.
pub open spec fn exchanged(edges: Seq<InternalEdge>, leaving: int, entering: int) -> Seq<InternalEdge> {
    let left = edges.update(
        leaving,
        InternalEdge {
            state: if edges[leaving].flow == 0 {
                EdgeState::Lower
            } else {
                EdgeState::Upper
            },
            ..edges[leaving]
        },
    );
    left.update(entering, InternalEdge { state: EdgeState::Tree, ..left[entering] })
}

/// The sum of the costs of the first `upto` edges, each step of the sum
/// kept within the range of `i64`.
pub open spec fn cost_total(edges: Seq<InternalEdge>, upto: nat) -> int
    decreases upto,
{
    if upto == 0 {
        0
    } else {
        clamp(cost_total(edges, (upto - 1) as nat) + edges[upto - 1].cost)
    }
}

} // verus!
