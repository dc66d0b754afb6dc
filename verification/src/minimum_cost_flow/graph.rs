use crate::arith::{clamp, sat_add, sat_neg};
use crate::minimum_cost_flow::optimality::{
    has_optimality_certificate, is_feasible, is_minimum_cost_flow, is_slack, lemma_slack_flow_is_minimum,
    meets_supplies, reduced_cost, total_cost,
};
use crate::minimum_cost_flow::status::Status;
use crate::network::{endpoints_below, net_out, same_network, within_bounds, Link};
use vstd::prelude::*;

verus! {

/// A directed edge of a minimum-cost-flow problem, with the flow it carries.
#[derive(PartialEq, Eq, Structural, Debug, Clone, Copy)]
pub struct Edge {
    pub from: usize,
    pub to: usize,
    pub flow: i64,
    pub lower: i64,
    pub upper: i64,
    pub cost: i64,
}

impl Edge {
    /// The edge as a link of the mathematical network.
    pub open spec fn link(self) -> Link {
        Link {
            from: self.from as int,
            to: self.to as int,
            flow: self.flow as int,
            lower: self.lower as int,
            upper: self.upper as int,
            cost: self.cost as int,
        }
    }
}

/// The edges that join the node `source` to every node among the first
/// `upto` that has a positive excess, with that excess as capacity, and
/// every one that has a negative excess to the node `sink`, with what is
/// missing as capacity; in the order of the nodes, at no cost and empty.
pub open spec fn joining_edges(excesses: Seq<i64>, source: usize, sink: usize, upto: nat) -> Seq<Edge>
    decreases upto,
{
    if upto == 0 {
        Seq::empty()
    } else {
        let u = (upto - 1) as nat;
        let rest = joining_edges(excesses, source, sink, u);
        if excesses[u as int] > 0 {
            rest.push(Edge { from: source, to: u as usize, flow: 0, lower: 0, upper: excesses[u as int], cost: 0 })
        } else if excesses[u as int] < 0 {
            rest.push(
                Edge {
                    from: u as usize,
                    to: sink,
                    flow: 0,
                    lower: 0,
                    upper: clamp(-excesses[u as int]) as i64,
                    cost: 0,
                },
            )
        } else {
            rest
        }
    }
}

/// The sum of the positive excesses among the first `upto`, or of the
/// negative ones.
pub open spec fn gathered(excesses: Seq<i64>, positive: bool, upto: nat) -> int
    decreases upto,
{
    if upto == 0 {
        0
    } else {
        let x = excesses[upto - 1] as int;
        gathered(excesses, positive, (upto - 1) as nat) + (if (positive && x > 0) || (!positive && x < 0) {
            x
        } else {
            0
        })
    }
}

/// The sum of the costs of the first `upto` edges.
pub open spec fn cost_sum(edges: Seq<Edge>, upto: nat) -> int
    decreases upto,
{
    if upto == 0 {
        0
    } else {
        cost_sum(edges, (upto - 1) as nat) + edges[upto - 1].cost
    }
}

/// The edge at cost `cost` that carries the excess of node `u` to the node
/// `root`, or what is missing at `u` from `root`, and is full with it.
pub open spec fn rooting_edge(excess: i64, u: usize, root: usize, cost: i64) -> Edge {
    if excess >= 0 {
        Edge { from: u, to: root, flow: excess, lower: 0, upper: excess, cost }
    } else {
        Edge { from: root, to: u, flow: clamp(-excess) as i64, lower: 0, upper: clamp(-excess) as i64, cost }
    }
}

/// Absolute value.
pub open spec fn magnitude(x: int) -> int {
    if x < 0 {
        -x
    } else {
        x
    }
}

/// Sum over all edges of the greatest amount of flow that the bounds of the edge allow.
pub open spec fn flow_bound(links: Seq<Link>) -> int
    decreases links.len(),
{
    if links.len() == 0 {
        0
    } else {
        let l = links.last();
        flow_bound(links.drop_last()) + (if magnitude(l.lower) > magnitude(l.upper) {
            magnitude(l.lower)
        } else {
            magnitude(l.upper)
        })
    }
}

/// Sum over all edges of the magnitude of `cost * flow`.
pub open spec fn cost_bound(links: Seq<Link>) -> int
    decreases links.len(),
{
    if links.len() == 0 {
        0
    } else {
        cost_bound(links.drop_last()) + magnitude(links.last().cost * links.last().flow)
    }
}

/// Sum of the supplies.
pub open spec fn supply_sum(b: Seq<i64>) -> int
    decreases b.len(),
{
    if b.len() == 0 {
        0
    } else {
        supply_sum(b.drop_last()) + b.last()
    }
}

pub proof fn lemma_flow_bound_prefix(links: Seq<Link>, k: int)
    requires
        0 <= k <= links.len(),
    ensures
        0 <= flow_bound(links.take(k)) <= flow_bound(links),
    decreases links.len() - k,
{
    if k == links.len() {
        assert(links.take(k) =~= links);
        lemma_flow_bound_nonnegative(links);
    } else {
        lemma_flow_bound_prefix(links, k + 1);
        assert(links.take(k + 1).drop_last() =~= links.take(k));
        lemma_flow_bound_nonnegative(links.take(k));
    }
}

pub proof fn lemma_flow_bound_same_network(a: Seq<Link>, b: Seq<Link>)
    requires
        same_network(a, b),
    ensures
        flow_bound(a) == flow_bound(b),
    decreases a.len(),
{
    if a.len() > 0 {
        assert(same_network(a.drop_last(), b.drop_last())) by {
            assert forall|i: int| 0 <= i < a.drop_last().len() implies (#[trigger] a.drop_last()[i]).from == b.drop_last()[i].from
                && a.drop_last()[i].to == b.drop_last()[i].to && a.drop_last()[i].lower == b.drop_last()[i].lower
                && a.drop_last()[i].upper == b.drop_last()[i].upper && a.drop_last()[i].cost == b.drop_last()[i].cost by {
                assert(a[i].from == b[i].from);
            }
        }
        lemma_flow_bound_same_network(a.drop_last(), b.drop_last());
        assert(a.last().lower == b.last().lower) by {
            assert(a[a.len() - 1].from == b[a.len() - 1].from);
        }
    }
}

pub proof fn lemma_flow_bound_nonnegative(links: Seq<Link>)
    ensures
        0 <= flow_bound(links),
    decreases links.len(),
{
    if links.len() > 0 {
        lemma_flow_bound_nonnegative(links.drop_last());
    }
}

pub proof fn lemma_net_out_within_flow_bound(links: Seq<Link>, u: int)
    requires
        within_bounds(links),
    ensures
        -flow_bound(links) <= net_out(links, u) <= flow_bound(links),
    decreases links.len(),
{
    if links.len() > 0 {
        assert forall|i: int| 0 <= i < links.drop_last().len() implies (#[trigger] links.drop_last()[i]).lower
            <= links.drop_last()[i].flow <= links.drop_last()[i].upper by {
            assert(links.drop_last()[i] == links[i]);
        }
        lemma_net_out_within_flow_bound(links.drop_last(), u);
        assert(links.last() == links[links.len() - 1]);
    }
}

proof fn lemma_cost_bound_prefix(links: Seq<Link>, k: int)
    requires
        0 <= k <= links.len(),
    ensures
        -cost_bound(links) <= -cost_bound(links.take(k)) <= total_cost(links.take(k)) <= cost_bound(links.take(k))
            <= cost_bound(links),
    decreases links.len() - k,
{
    lemma_cost_within_bound(links.take(k));
    if k == links.len() {
        assert(links.take(k) =~= links);
    } else {
        lemma_cost_bound_prefix(links, k + 1);
        assert(links.take(k + 1).drop_last() =~= links.take(k));
    }
}

proof fn lemma_cost_within_bound(links: Seq<Link>)
    ensures
        -cost_bound(links) <= total_cost(links) <= cost_bound(links),
    decreases links.len(),
{
    if links.len() > 0 {
        lemma_cost_within_bound(links.drop_last());
    }
}

/// Builder and result holder of a minimum-cost-flow problem.
///
/// The edges are stored with zero lower bound and non-negative cost: a lower
/// bound is taken out of the capacity and booked on the excesses of the two
/// endpoints, and an edge of negative cost is stored reversed.
pub struct Graph {
    pub num_nodes: usize,
    pub num_edges: usize,
    pub edges: Vec<Edge>,
    pub b: Vec<i64>,
    pub lowers: Vec<i64>,
    pub excesses: Vec<i64>,
    pub is_reversed: Vec<bool>,
}

impl Default for Graph {
    fn default() -> (graph: Self)
        ensures
            graph.wf(),
            graph.node_count() == 0,
            graph@ == Seq::<Edge>::empty(),
    {
        let graph = Graph {
            num_nodes: 0,
            num_edges: 0,
            edges: Vec::new(),
            b: Vec::new(),
            lowers: Vec::new(),
            excesses: Vec::new(),
            is_reversed: Vec::new(),
        };
        assert(graph@ =~= Seq::<Edge>::empty());
        graph
    }
}

impl Graph {
    /// The counters agree with the stored vectors, and every stored edge
    /// joins two nodes, has zero lower bound, a cost that is not negative
    /// and a flow within its capacity.
    pub open spec fn wf(&self) -> bool {
        &&& self.num_nodes == self.b@.len()
        &&& self.num_nodes == self.excesses@.len()
        &&& self.num_edges == self.edges@.len()
        &&& self.num_edges == self.lowers@.len()
        &&& self.num_edges == self.is_reversed@.len()
        &&& forall|i: int|
            0 <= i < self.edges@.len() ==> {
                let e = #[trigger] self.edges@[i];
                &&& e.from < self.num_nodes
                &&& e.to < self.num_nodes
                &&& e.lower == 0
                &&& 0 <= e.flow <= e.upper
                &&& 0 <= e.cost
                &&& self.lowers@[i] + e.upper <= i64::MAX
            }
    }

    /// Number of nodes.
    pub open spec fn node_count(&self) -> nat {
        self.num_nodes as nat
    }

    /// Edge `i` as the caller added it, with the flow it carries now.
    pub open spec fn edge_at(&self, i: int) -> Edge {
        let e = self.edges@[i];
        let lower = self.lowers@[i];
        if self.is_reversed@[i] {
            Edge {
                from: e.to,
                to: e.from,
                flow: (e.upper - e.flow + lower) as i64,
                lower,
                upper: (e.upper + lower) as i64,
                cost: (-e.cost) as i64,
            }
        } else {
            Edge {
                from: e.from,
                to: e.to,
                flow: (e.flow + lower) as i64,
                lower,
                upper: (e.upper + lower) as i64,
                cost: e.cost,
            }
        }
    }

    /// The edges as the caller added them, in that order.
    pub open spec fn view(&self) -> Seq<Edge> {
        Seq::new(self.edges@.len(), |i: int| self.edge_at(i))
    }

    /// The network of this graph.
    pub open spec fn links(&self) -> Seq<Link> {
        Seq::new(self.edges@.len(), |i: int| self.edge_at(i).link())
    }

    /// The supply of every node.
    pub open spec fn supplies(&self) -> Seq<int> {
        Seq::new(self.b@.len(), |u: int| self.b@[u] as int)
    }

    /// Every excess is the supply of its node less the net outflow of the node.
    pub open spec fn settled(&self) -> bool {
        forall|u: int|
            0 <= u < self.excesses@.len() ==> #[trigger] self.excesses@[u] == self.b@[u] - net_out(self.links(), u)
    }

    /// No node has an excess.
    pub open spec fn balanced(&self) -> bool {
        forall|u: int| 0 <= u < self.excesses@.len() ==> #[trigger] self.excesses@[u] == 0
    }

    /// `self` states the same problem as `other`: the same nodes with the
    /// same supplies and the same edges up to the flow they carry.
    pub open spec fn same_problem(&self, other: &Graph) -> bool {
        &&& self.node_count() == other.node_count()
        &&& self.b@ == other.b@
        &&& same_network(self.links(), other.links())
    }

    /// The network of a well-formed graph joins nodes of the graph and
    /// carries flows within the bounds.
    pub proof fn lemma_links_within_bounds(&self)
        requires
            self.wf(),
        ensures
            endpoints_below(self.links(), self.node_count() as int),
            within_bounds(self.links()),
    {
        assert forall|i: int| 0 <= i < self.links().len() implies 0 <= (#[trigger] self.links()[i]).from
            < self.node_count() && 0 <= self.links()[i].to < self.node_count() && self.links()[i].lower
            <= self.links()[i].flow <= self.links()[i].upper by {
            let e = self.edges@[i];
            assert(e.from < self.num_nodes);
        }
    }

    #[inline]
    pub fn num_nodes(&self) -> (n: usize)
        ensures
            n == self.node_count(),
    {
        self.num_nodes
    }

    #[inline]
    pub fn num_edges(&self) -> (m: usize)
        requires
            self.wf(),
        ensures
            m == self@.len(),
    {
        self.num_edges
    }

    /// Adds one node without supply and returns its index.
    pub fn add_node(&mut self) -> (index: usize)
        requires
            old(self).wf(),
            old(self).node_count() < usize::MAX,
        ensures
            final(self).wf(),
            index == old(self).node_count(),
            final(self).node_count() == old(self).node_count() + 1,
            final(self).edges == old(self).edges,
            final(self).lowers == old(self).lowers,
            final(self).is_reversed == old(self).is_reversed,
            final(self).b@ == old(self).b@.push(0),
            final(self).excesses@ == old(self).excesses@.push(0),
    {
        self.b.push(0);
        self.excesses.push(0);
        self.num_nodes += 1;
        self.num_nodes - 1
    }

    /// Adds `num_nodes` nodes without supply and returns their indices in increasing order.
    pub fn add_nodes(&mut self, num_nodes: usize) -> (indices: Vec<usize>)
        requires
            old(self).wf(),
            old(self).node_count() + num_nodes <= usize::MAX,
        ensures
            final(self).wf(),
            final(self).node_count() == old(self).node_count() + num_nodes,
            final(self).edges == old(self).edges,
            final(self).lowers == old(self).lowers,
            final(self).is_reversed == old(self).is_reversed,
            final(self).b@ == old(self).b@ + Seq::new(num_nodes as nat, |i: int| 0i64),
            final(self).excesses@ == old(self).excesses@ + Seq::new(num_nodes as nat, |i: int| 0i64),
            indices@.len() == num_nodes,
            forall|i: int| 0 <= i < num_nodes ==> indices@[i] == old(self).node_count() + i,
    {
        let first = self.num_nodes;
        let mut indices: Vec<usize> = Vec::new();
        let mut added: usize = 0;
        while added < num_nodes
            invariant
                added <= num_nodes,
                first + num_nodes <= usize::MAX,
                first == old(self).num_nodes,
                self.num_nodes == first + added,
                self.num_edges == old(self).num_edges,
                self.edges == old(self).edges,
                self.lowers == old(self).lowers,
                self.is_reversed == old(self).is_reversed,
                self.b@ =~= old(self).b@ + Seq::new(added as nat, |i: int| 0i64),
                self.excesses@ =~= old(self).excesses@ + Seq::new(added as nat, |i: int| 0i64),
                old(self).wf(),
                indices@.len() == added,
                forall|i: int| 0 <= i < added ==> indices@[i] == first + i,
            decreases num_nodes - added,
        {
            self.b.push(0);
            self.excesses.push(0);
            indices.push(self.num_nodes);
            self.num_nodes += 1;
            added += 1;
        }
        indices
    }

    /// Raises the supply of node `u` by `supply`.
    pub fn add_supply(&mut self, u: usize, supply: i64)
        requires
            old(self).wf(),
            u < old(self).node_count(),
            i64::MIN <= old(self).b@[u as int] + supply <= i64::MAX,
            i64::MIN <= old(self).excesses@[u as int] + supply <= i64::MAX,
        ensures
            final(self).wf(),
            final(self).node_count() == old(self).node_count(),
            final(self).edges == old(self).edges,
            final(self).lowers == old(self).lowers,
            final(self).is_reversed == old(self).is_reversed,
            final(self).b@ == old(self).b@.update(u as int, (old(self).b@[u as int] + supply) as i64),
            final(self).excesses@ == old(self).excesses@.update(
                u as int,
                (old(self).excesses@[u as int] + supply) as i64,
            ),
    {
        self.b[u] += supply;
        self.excesses[u] += supply;
    }

    /// Lowers the supply of node `u` by `demand`.
    pub fn add_demand(&mut self, u: usize, demand: i64)
        requires
            old(self).wf(),
            u < old(self).node_count(),
            i64::MIN <= old(self).b@[u as int] - demand <= i64::MAX,
            i64::MIN <= old(self).excesses@[u as int] - demand <= i64::MAX,
        ensures
            final(self).wf(),
            final(self).node_count() == old(self).node_count(),
            final(self).edges == old(self).edges,
            final(self).lowers == old(self).lowers,
            final(self).is_reversed == old(self).is_reversed,
            final(self).b@ == old(self).b@.update(u as int, (old(self).b@[u as int] - demand) as i64),
            final(self).excesses@ == old(self).excesses@.update(
                u as int,
                (old(self).excesses@[u as int] - demand) as i64,
            ),
    {
        self.b[u] -= demand;
        self.excesses[u] -= demand;
    }

    /// The edge is one that the graph takes: its endpoints are nodes and
    /// its lower bound does not exceed its upper bound.
    pub open spec fn admits(&self, from: usize, to: usize, lower: i64, upper: i64) -> bool {
        lower <= upper && from < self.node_count() && to < self.node_count()
    }

    /// Flow that a new edge carries before any solve: its lower bound, or
    /// its upper bound where the cost is negative.
    pub open spec fn initial_flow(lower: i64, upper: i64, cost: i64) -> i64 {
        if cost >= 0 {
            lower
        } else {
            upper
        }
    }

    /// The machine integers can hold what adding the edge computes.
    pub open spec fn can_hold(&self, from: usize, to: usize, lower: i64, upper: i64, cost: i64) -> bool {
        let amount = Self::initial_flow(lower, upper, cost);
        let taken = self.excesses@[from as int] - amount;
        &&& self@.len() < usize::MAX
        &&& upper - lower <= i64::MAX
        &&& cost > i64::MIN
        &&& i64::MIN <= taken <= i64::MAX
        &&& i64::MIN <= (if from == to { taken } else { self.excesses@[to as int] as int }) + amount <= i64::MAX
    }

    /// Adds the edge `from -> to` with the bounds `lower` and `upper` and
    /// the cost `cost`, and returns its index; or refuses it when an
    /// endpoint is not a node of the graph or `lower` exceeds `upper`.
    pub fn add_directed_edge(&mut self, from: usize, to: usize, lower: i64, upper: i64, cost: i64) -> (edge_id: Option<
        usize,
    >)
        requires
            old(self).wf(),
            old(self).admits(from, to, lower, upper) ==> old(self).can_hold(from, to, lower, upper, cost),
        ensures
            final(self).wf(),
            final(self).node_count() == old(self).node_count(),
            final(self).b == old(self).b,
            !old(self).admits(from, to, lower, upper) ==> edge_id.is_none() && *final(self) == *old(self),
            old(self).admits(from, to, lower, upper) ==> {
                let amount = Self::initial_flow(lower, upper, cost);
                &&& edge_id == Some(old(self)@.len() as usize)
                &&& final(self)@ == old(self)@.push(Edge { from, to, flow: amount, lower, upper, cost })
                &&& final(self).excesses@ == old(self).excesses@.update(
                    from as int,
                    (old(self).excesses@[from as int] - amount) as i64,
                ).update(
                    to as int,
                    ((if from == to {
                        old(self).excesses@[from as int] - amount
                    } else {
                        old(self).excesses@[to as int] as int
                    }) + amount) as i64,
                )
            },
    {
        if lower > upper || from >= self.num_nodes || to >= self.num_nodes {
            return None;
        }
        if cost >= 0 {
            self.edges.push(Edge { from, to, flow: 0, lower: 0, upper: upper - lower, cost });
            self.excesses[from] -= lower;
            self.excesses[to] += lower;
            self.lowers.push(lower);
            self.is_reversed.push(false);
        } else {
            self.edges.push(Edge { from: to, to: from, flow: 0, lower: 0, upper: upper - lower, cost: -cost });
            self.excesses[from] -= upper;
            self.excesses[to] += upper;
            self.lowers.push(lower);
            self.is_reversed.push(true);
        }
        self.num_edges += 1;
        proof {
            let added = Edge { from, to, flow: Self::initial_flow(lower, upper, cost), lower, upper, cost };
            assert forall|i: int| 0 <= i < self@.len() implies self@[i] == old(self)@.push(added)[i] by {
                if i < old(self)@.len() {
                    assert(self.edges@[i] == old(self).edges@[i]);
                }
            }
            assert(self@ =~= old(self)@.push(added));
        }
        Some(self.num_edges - 1)
    }

    /// The edge with index `edge_id` as it was added, with the flow it
    /// carries now; nothing when there is no such edge.
    pub fn get_edge(&self, edge_id: usize) -> (edge: Option<Edge>)
        requires
            self.wf(),
        ensures
            edge_id < self@.len() ==> edge == Some(self@[edge_id as int]),
            edge_id >= self@.len() ==> edge.is_none(),
    {
        if edge_id >= self.edges.len() {
            return None;
        }
        let edge = &self.edges[edge_id];
        let lower = self.lowers[edge_id];
        if self.is_reversed[edge_id] {
            Some(
                Edge {
                    from: edge.to,
                    to: edge.from,
                    flow: edge.upper - edge.flow + lower,
                    lower,
                    upper: edge.upper + lower,
                    cost: -edge.cost,
                },
            )
        } else {
            Some(
                Edge {
                    from: edge.from,
                    to: edge.to,
                    flow: edge.flow + lower,
                    lower,
                    upper: edge.upper + lower,
                    cost: edge.cost,
                },
            )
        }
    }

    /// Cost of the flow that the graph carries: the sum of `cost * flow` over its edges.
    pub fn minimum_cost(&self) -> (cost: i64)
        requires
            self.wf(),
            cost_bound(self.links()) <= i64::MAX,
        ensures
            cost == total_cost(self.links()),
    {
        let ghost links = self.links();
        let mut cost: i64 = 0;
        proof {
            assert(links.take(0) =~= Seq::<Link>::empty());
        }
        for edge_id in 0..self.num_edges
            invariant
                self.wf(),
                links == self.links(),
                cost_bound(links) <= i64::MAX,
                cost == total_cost(links.take(edge_id as int)),
        {
            let edge = self.get_edge(edge_id).unwrap();
            proof {
                let next = links.take(edge_id + 1);
                assert(next.drop_last() =~= links.take(edge_id as int));
                assert(next.last() == edge.link());
                lemma_cost_bound_prefix(links, edge_id + 1);
                lemma_cost_bound_prefix(links, edge_id as int);
            }
            cost = cost + edge.cost * edge.flow;
        }
        proof {
            assert(links.take(self.num_edges as int) =~= links);
        }
        cost
    }

    /// Whether the supplies do not add up to zero.
    pub fn is_unbalance(&self) -> (unbalanced: bool)
        requires
            self.wf(),
        ensures
            unbalanced == (supply_sum(self.b@) != 0),
    {
        let mut sum: i128 = 0;
        proof {
            assert(self.b@.take(0) =~= Seq::<i64>::empty());
        }
        for u in 0..self.num_nodes
            invariant
                self.wf(),
                sum == supply_sum(self.b@.take(u as int)),
                -u * 0x8000_0000_0000_0000 <= sum <= u * 0x8000_0000_0000_0000,
        {
            proof {
                assert(self.b@.take(u + 1).drop_last() =~= self.b@.take(u as int));
            }
            sum = sum + self.b[u] as i128;
        }
        proof {
            assert(self.b@.take(self.num_nodes as int) =~= self.b@);
        }
        sum != 0
    }

    /// The graph states a problem that the solvers accept: sizes that
    /// leave room for the nodes and edges that a solver adds, and supplies
    /// and bounds such that every excess fits an `i64`.
    pub open spec fn solvable(&self) -> bool {
        &&& self.wf()
        &&& self.node_count() + 2 < usize::MAX
        &&& 2 * (self@.len() + 2 * self.node_count() + 2) <= usize::MAX
        &&& self.settleable()
        &&& crate::minimum_cost_flow::feasibility::fits(self)
    }

    /// What a solve leaves behind: with unbalanced supplies the graph as
    /// it was and the status `Unbalanced`, and else what `decides` says.
    pub open spec fn solved(&self, before: &Graph, status: Status) -> bool {
        if supply_sum(before.b@) != 0 {
            status == Status::Unbalanced && *self == *before
        } else {
            self.decides(before, status)
        }
    }

    /// Some flow on the network of the graph respects all bounds and
    /// meets all supplies.
    pub open spec fn is_satisfiable(&self) -> bool {
        exists|other: Seq<Link>|
            same_network(other, self.links()) && #[trigger] is_feasible(other, self.supplies(), self.node_count() as int)
    }

    /// What `concludes` says, and more: the status is `Infeasible` if no
    /// flow respects all bounds and meets all supplies, and `Optimal` if
    /// some flow does.
    pub open spec fn decides(&self, before: &Graph, status: Status) -> bool {
        &&& self.concludes(before, status)
        &&& status == Status::Infeasible <==> !before.is_satisfiable()
        &&& status == Status::Optimal <==> before.is_satisfiable()
    }

    /// A flow that leaves no node with an excess respects the bounds
    /// and meets the supplies.
    pub proof fn lemma_balanced_is_feasible(&self)
        requires
            self.wf(),
            self.settled(),
            self.balanced(),
        ensures
            is_feasible(self.links(), self.supplies(), self.node_count() as int),
    {
        self.lemma_links_within_bounds();
        assert forall|u: int| 0 <= u < self.node_count() implies #[trigger] net_out(self.links(), u)
            == self.supplies()[u] by {
            assert(self.excesses@[u] == 0);
            assert(self.excesses@[u] == self.b@[u] - net_out(self.links(), u));
        }
    }

    /// The first edges of an extended graph join nodes of the graph
    /// that was extended, also after a solve has changed their flows.
    pub proof fn lemma_prefix_endpoints(&self, extended: &Graph, before: &Graph)
        requires
            before.wf(),
            extended.wf(),
            extended@.len() >= before@.len(),
            extended@.take(before@.len() as int) == before@,
            self.edges@.len() == extended.edges@.len(),
            forall|i: int|
                0 <= i < self.edges@.len() ==> (#[trigger] self.edges@[i]).from == extended.edges@[i].from
                    && self.edges@[i].to == extended.edges@[i].to,
        ensures
            forall|i: int|
                0 <= i < before@.len() ==> (#[trigger] self.edges@[i]).from < before.node_count() && self.edges@[i].to
                    < before.node_count(),
    {
        assert forall|i: int| 0 <= i < before@.len() implies (#[trigger] self.edges@[i]).from < before.node_count()
            && self.edges@[i].to < before.node_count() by {
            assert(extended@.take(before@.len() as int)[i] == before@[i]);
            assert(extended@[i] == extended.edge_at(i));
            assert(before@[i] == before.edge_at(i));
            assert(before.edges@[i].from < before.num_nodes);
            assert(extended.edges@[i].from == self.edges@[i].from);
        }
    }

    /// A graph that was extended, solved and cut back to its size states
    /// the problem that it stated at first.
    pub proof fn lemma_extension_removed(&self, solved: &Graph, extended: &Graph, before: &Graph)
        requires
            extended@.len() >= before@.len(),
            extended@.take(before@.len() as int) == before@,
            extended.b@.len() >= before.b@.len(),
            extended.b@.take(before.b@.len() as int) == before.b@,
            solved.b@ == extended.b@,
            solved@.len() == extended@.len(),
            same_network(solved.links(), extended.links()),
            self@ == solved@.take(before@.len() as int),
            self.b@ == solved.b@.take(before.b@.len() as int),
            self.node_count() == before.node_count(),
        ensures
            self.same_problem(before),
    {
        assert(solved.links().len() == extended.links().len());
        assert(self@.len() == before@.len());
        assert(self.links().len() == self@.len());
        assert(solved@.len() == solved.edges@.len());
        assert forall|i: int| 0 <= i < self.links().len() implies (#[trigger] self.links()[i]).from == before.links()[i].from
            && self.links()[i].to == before.links()[i].to && self.links()[i].lower == before.links()[i].lower
            && self.links()[i].upper == before.links()[i].upper && self.links()[i].cost == before.links()[i].cost by {
            assert(self@[i] == solved@.take(before@.len() as int)[i]);
            assert(self@[i] == self.edge_at(i));
            assert(solved@[i] == solved.edge_at(i));
            assert(solved.links()[i] == solved.edge_at(i).link());
            assert(extended.links()[i] == extended.edge_at(i).link());
            assert(solved.links()[i].from == extended.links()[i].from);
            assert(extended@.take(before@.len() as int)[i] == before@[i]);
            assert(extended@[i] == extended.edge_at(i));
            assert(before@[i] == before.edge_at(i));
        }
    }

    /// Two graphs with the same supplies and the same flows, both with
    /// their excesses up to date, have the same excesses.
    pub proof fn lemma_settled_alike(&self, other: &Graph)
        requires
            self.settled(),
            other.settled(),
            self.b@ == other.b@,
            self.links() == other.links(),
            self.excesses@.len() == other.excesses@.len(),
        ensures
            self.excesses@ == other.excesses@,
    {
        assert forall|u: int| 0 <= u < self.excesses@.len() implies self.excesses@[u] == other.excesses@[u] by {
            assert(self.excesses@[u] == self.b@[u] - net_out(self.links(), u));
            assert(other.excesses@[u] == other.b@[u] - net_out(other.links(), u));
        }
        assert(self.excesses@ =~= other.excesses@);
    }

    /// Whether the machine integers can hold the excesses depends on the
    /// supplies and the bounds alone.
    pub proof fn lemma_settleable_same_problem(&self, other: &Graph)
        requires
            self.same_problem(other),
            other.settleable(),
        ensures
            self.settleable(),
    {
        lemma_flow_bound_same_network(self.links(), other.links());
    }

    /// Gives edge `edge_id` the flow `flow`, as the caller sees the edge.
    pub fn set_edge_flow(&mut self, edge_id: usize, flow: i64)
        requires
            old(self).wf(),
            edge_id < old(self)@.len(),
            old(self)@[edge_id as int].lower <= flow <= old(self)@[edge_id as int].upper,
        ensures
            final(self).wf(),
            final(self).num_nodes == old(self).num_nodes,
            final(self).num_edges == old(self).num_edges,
            final(self).b == old(self).b,
            final(self).excesses == old(self).excesses,
            final(self).lowers == old(self).lowers,
            final(self).is_reversed == old(self).is_reversed,
            final(self).links() == crate::network::with_flow(old(self).links(), edge_id as int, flow as int),
    {
        let lower = self.lowers[edge_id];
        let room = self.edges[edge_id].upper;
        self.edges[edge_id].flow = if self.is_reversed[edge_id] {
            room - (flow - lower)
        } else {
            flow - lower
        };
        proof {
            let expected = crate::network::with_flow(old(self).links(), edge_id as int, flow as int);
            assert forall|i: int| 0 <= i < self.links().len() implies self.links()[i] == expected[i] by {
                assert(self.links()[i] == self.edge_at(i).link());
                assert(old(self).links()[i] == old(self).edge_at(i).link());
            }
            assert(self.links() =~= expected);
        }
    }

    /// The machine integers can hold the excesses that the flows leave:
    /// no supply and total flow together exceed an `i64`.
    pub open spec fn settleable(&self) -> bool {
        forall|u: int|
            0 <= u < self.b@.len() ==> magnitude(#[trigger] self.b@[u] as int) + flow_bound(self.links()) <= i64::MAX
    }

    /// Adds the edge `from -> to` with capacity `upper`, cost `cost` and the
    /// flow `flow` on it, and leaves all excesses as they are.
    fn add_artificial_edge(&mut self, from: usize, to: usize, upper: i64, cost: i64, flow: i64) -> (edge_id: usize)
        requires
            old(self).wf(),
            from < old(self).node_count(),
            to < old(self).node_count(),
            0 <= flow <= upper,
            0 <= cost,
            old(self)@.len() < usize::MAX,
        ensures
            final(self).wf(),
            final(self).num_nodes == old(self).num_nodes,
            final(self).b == old(self).b,
            final(self).excesses == old(self).excesses,
            edge_id == old(self)@.len(),
            final(self)@ == old(self)@.push(Edge { from, to, flow, lower: 0, upper, cost }),
    {
        self.edges.push(Edge { from, to, flow, lower: 0, upper, cost });
        self.lowers.push(0);
        self.is_reversed.push(false);
        self.num_edges += 1;
        proof {
            let added = Edge { from, to, flow, lower: 0, upper, cost };
            assert forall|i: int| 0 <= i < self@.len() implies self@[i] == old(self)@.push(added)[i] by {
                if i < old(self)@.len() {
                    assert(self.edges@[i] == old(self).edges@[i]);
                }
            }
            assert(self@ =~= old(self)@.push(added));
        }
        self.num_edges - 1
    }

    /// Adds a source that supplies every node with an excess and a sink
    /// that takes from every node with a deficit, so that these two are the
    /// only nodes left out of balance. Returns the source, the sink, the
    /// nodes added and the edges added.
    pub fn construct_extend_network_one_supply_one_demand(&mut self) -> (extension: (
        usize,
        usize,
        Vec<usize>,
        Vec<usize>,
    ))
        requires
            old(self).wf(),
            old(self).node_count() + 2 <= usize::MAX,
            old(self)@.len() + old(self).node_count() < usize::MAX,
        ensures
            final(self).wf(),
            final(self).node_count() == old(self).node_count() + 2,
            extension.0 == old(self).node_count(),
            extension.1 == old(self).node_count() + 1,
            extension.2@ == seq![extension.0, extension.1],
            final(self).b@ == old(self).b@.push(0).push(0),
            final(self)@ == old(self)@ + joining_edges(
                old(self).excesses@,
                extension.0,
                extension.1,
                old(self).node_count(),
            ),
            final(self)@.len() == old(self)@.len() + extension.3@.len(),
            forall|i: int| 0 <= i < extension.3@.len() ==> #[trigger] extension.3@[i] == old(self)@.len() + i,
            extension.3@.len() <= old(self).node_count(),
            final(self)@.take(old(self)@.len() as int) == old(self)@,
            forall|u: int| 0 <= u < old(self).node_count() ==> #[trigger] final(self).excesses@[u] == 0,
            final(self).excesses@[extension.0 as int] == clamp(
                gathered(old(self).excesses@, true, old(self).node_count()),
            ),
            final(self).excesses@[extension.1 as int] == clamp(
                gathered(old(self).excesses@, false, old(self).node_count()),
            ),
    {
        let mut artificial_edges: Vec<usize> = Vec::new();
        let source = self.add_node();
        let sink = self.add_node();
        let ghost extended = *self;
        proof {
            assert(self@ =~= old(self)@);
            assert(self@ =~= old(self)@ + joining_edges(old(self).excesses@, source, sink, 0));
        }
        let n = source;
        for u in 0..n
            invariant
                self.wf(),
                n == source,
                self.num_nodes == old(self).num_nodes + 2,
                source == old(self).num_nodes,
                sink == source + 1,
                self.b == extended.b,
                old(self)@.len() + old(self).node_count() < usize::MAX,
                self@.len() == old(self)@.len() + artificial_edges@.len(),
                artificial_edges@.len() <= u,
                forall|i: int|
                    0 <= i < artificial_edges@.len() ==> #[trigger] artificial_edges@[i] == old(self)@.len() + i,
                self@ == old(self)@ + joining_edges(old(self).excesses@, source, sink, u as nat),
                forall|w: int| 0 <= w < u ==> #[trigger] self.excesses@[w] == 0,
                forall|w: int| u <= w < n ==> #[trigger] self.excesses@[w] == old(self).excesses@[w],
                self.excesses@[source as int] == clamp(gathered(old(self).excesses@, true, u as nat)),
                self.excesses@[sink as int] == clamp(gathered(old(self).excesses@, false, u as nat)),
                0 <= gathered(old(self).excesses@, true, u as nat),
                gathered(old(self).excesses@, false, u as nat) <= 0,
        {
            let ghost before = self@;
            let excess = self.excesses[u];
            if excess > 0 {
                artificial_edges.push(self.add_artificial_edge(source, u, excess, 0, 0));
                let ghost joined = self@;
                self.excesses[source] = sat_add(self.excesses[source], excess);
                proof {
                    assert(self@ =~= joined);
                }
            }
            if excess < 0 {
                artificial_edges.push(self.add_artificial_edge(u, sink, sat_neg(excess), 0, 0));
                let ghost joined = self@;
                self.excesses[sink] = sat_add(self.excesses[sink], excess);
                proof {
                    assert(self@ =~= joined);
                }
            }
            let ghost added = self@;
            self.excesses[u] = 0;
            proof {
                assert(self@ =~= added);
                assert(self@ =~= old(self)@ + joining_edges(old(self).excesses@, source, sink, (u + 1) as nat));
            }
        }
        proof {
            assert(self@.take(old(self)@.len() as int) =~= old(self)@);
        }
        let mut artificial_nodes: Vec<usize> = Vec::new();
        artificial_nodes.push(source);
        artificial_nodes.push(sink);
        (source, sink, artificial_nodes, artificial_edges)
    }

    /// Adds a root that is joined to every node by an edge of high cost
    /// that carries the excess of the node, so that the flow on the
    /// extended network leaves no node out of balance. Returns the root,
    /// the nodes added and the edges added.
    pub fn construct_extend_network_feasible_solution(&mut self) -> (extension: (usize, Vec<usize>, Vec<usize>))
        requires
            old(self).wf(),
            old(self).node_count() + 1 <= usize::MAX,
            old(self)@.len() + old(self).node_count() < usize::MAX,
        ensures
            final(self).wf(),
            final(self).node_count() == old(self).node_count() + 1,
            extension.0 == old(self).node_count(),
            extension.1@ == seq![extension.0],
            final(self).b@ == old(self).b@.push(0),
            final(self)@ == old(self)@ + Seq::new(
                old(self).node_count(),
                |u: int|
                    rooting_edge(
                        old(self).excesses@[u],
                        u as usize,
                        extension.0,
                        clamp(1 + cost_sum(old(self).edges@, old(self).edges@.len())) as i64,
                    ),
            ),
            final(self)@.len() == old(self)@.len() + old(self).node_count(),
            extension.2@.len() == old(self).node_count(),
            forall|i: int| 0 <= i < extension.2@.len() ==> #[trigger] extension.2@[i] == old(self)@.len() + i,
            final(self)@.take(old(self)@.len() as int) == old(self)@,
            forall|u: int| 0 <= u <= old(self).node_count() ==> #[trigger] final(self).excesses@[u] == 0,
    {
        // every cost is non-negative
        let mut inf_cost: i64 = 1;
        for i in 0..self.num_edges
            invariant
                self.wf(),
                *self == *old(self),
                1 <= inf_cost,
                0 <= cost_sum(self.edges@, i as nat),
                inf_cost == clamp(1 + cost_sum(self.edges@, i as nat)),
        {
            inf_cost = sat_add(inf_cost, self.edges[i].cost);
        }

        let root = self.add_node();
        let ghost extended = *self;
        proof {
            assert(self@ =~= old(self)@);
            assert(self@ =~= old(self)@ + Seq::new(0, |u: int| rooting_edge(old(self).excesses@[u], u as usize, root, inf_cost)));
        }
        let mut artificial_edges: Vec<usize> = Vec::new();
        let n = root;
        for u in 0..n
            invariant
                self.wf(),
                n == root,
                self.num_nodes == old(self).num_nodes + 1,
                root == old(self).num_nodes,
                1 <= inf_cost,
                self.b == extended.b,
                old(self)@.len() + old(self).node_count() < usize::MAX,
                self@.len() == old(self)@.len() + artificial_edges@.len(),
                artificial_edges@.len() == u,
                forall|i: int|
                    0 <= i < artificial_edges@.len() ==> #[trigger] artificial_edges@[i] == old(self)@.len() + i,
                self@ == old(self)@ + Seq::new(
                    u as nat,
                    |w: int| rooting_edge(old(self).excesses@[w], w as usize, root, inf_cost),
                ),
                forall|w: int| 0 <= w < u ==> #[trigger] self.excesses@[w] == 0,
                forall|w: int| u <= w < n ==> #[trigger] self.excesses@[w] == old(self).excesses@[w],
                self.excesses@[root as int] == 0,
        {
            let ghost before = self@;
            let excess = self.excesses[u];
            if excess >= 0 {
                // u -> root
                artificial_edges.push(self.add_artificial_edge(u, root, excess, inf_cost, excess));
            } else {
                // root -> u
                let amount = sat_neg(excess);
                artificial_edges.push(self.add_artificial_edge(root, u, amount, inf_cost, amount));
            }
            let ghost added = self@;
            self.excesses[u] = 0;
            proof {
                assert(self@ =~= added);
                assert(self@ =~= old(self)@ + Seq::new(
                    (u + 1) as nat,
                    |w: int| rooting_edge(old(self).excesses@[w], w as usize, root, inf_cost),
                ));
            }
        }
        proof {
            assert(self@.take(old(self)@.len() as int) =~= old(self)@);
        }
        let mut artificial_nodes: Vec<usize> = Vec::new();
        artificial_nodes.push(root);
        (root, artificial_nodes, artificial_edges)
    }

    /// Takes the nodes and edges of an extension away again: as many of
    /// the last nodes and edges as the two slices name.
    pub fn remove_artificial_sub_graph(&mut self, artificial_nodes: &[usize], artificial_edges: &[usize])
        requires
            old(self).wf(),
            artificial_nodes@.len() <= old(self).node_count(),
            artificial_edges@.len() <= old(self)@.len(),
            forall|i: int|
                0 <= i < old(self)@.len() - artificial_edges@.len() ==> (#[trigger] old(self).edges@[i]).from < old(self).node_count() - artificial_nodes@.len() && old(self).edges@[i].to < old(self).node_count()
                    - artificial_nodes@.len(),
        ensures
            final(self).wf(),
            final(self).node_count() == old(self).node_count() - artificial_nodes@.len(),
            final(self)@ == old(self)@.take(old(self)@.len() - artificial_edges@.len()),
            final(self).b@ == old(self).b@.take(old(self).node_count() - artificial_nodes@.len()),
            final(self).excesses@ == old(self).excesses@.take(old(self).node_count() - artificial_nodes@.len()),
    {
        let edges_left = self.num_edges - artificial_edges.len();
        let nodes_left = self.num_nodes - artificial_nodes.len();
        self.edges.truncate(edges_left);
        self.b.truncate(nodes_left);
        self.lowers.truncate(edges_left);
        self.excesses.truncate(nodes_left);
        self.is_reversed.truncate(edges_left);
        self.num_nodes = nodes_left;
        self.num_edges = edges_left;
        proof {
            assert(self.b@ =~= old(self).b@.take(nodes_left as int));
            assert(self.excesses@ =~= old(self).excesses@.take(nodes_left as int));
            assert(self@ =~= old(self)@.take(edges_left as int));
        }
    }

    /// Sets the excess of every node to its supply less its net outflow.
    pub fn settle(&mut self)
        requires
            old(self).wf(),
            old(self).settleable(),
        ensures
            final(self).wf(),
            final(self).settled(),
            final(self).num_nodes == old(self).num_nodes,
            final(self).num_edges == old(self).num_edges,
            final(self).edges == old(self).edges,
            final(self).b == old(self).b,
            final(self).lowers == old(self).lowers,
            final(self).is_reversed == old(self).is_reversed,
    {
        let ghost links = self.links();
        let n = self.num_nodes;
        let m = self.num_edges;
        for u in 0..n
            invariant
                self.wf(),
                n == self.num_nodes,
                self.num_nodes == old(self).num_nodes,
                self.num_edges == old(self).num_edges,
                self.edges == old(self).edges,
                self.b == old(self).b,
                self.lowers == old(self).lowers,
                self.is_reversed == old(self).is_reversed,
                forall|w: int| 0 <= w < u ==> #[trigger] self.excesses@[w] == self.b@[w],
        {
            self.excesses[u] = self.b[u];
        }
        proof {
            assert(links.take(0) =~= Seq::<Link>::empty());
            assert(self.links() =~= links);
        }
        for edge_id in 0..m
            invariant
                self.wf(),
                self.settleable(),
                m == self.num_edges,
                links == self.links(),
                self.num_nodes == old(self).num_nodes,
                self.num_edges == old(self).num_edges,
                self.edges == old(self).edges,
                self.b == old(self).b,
                self.lowers == old(self).lowers,
                self.is_reversed == old(self).is_reversed,
                forall|w: int|
                    0 <= w < self.num_nodes ==> #[trigger] self.excesses@[w] == self.b@[w] - net_out(
                        links.take(edge_id as int),
                        w,
                    ),
        {
            let edge = self.get_edge(edge_id).unwrap();
            proof {
                self.lemma_links_within_bounds();
                let next = links.take(edge_id + 1);
                assert(next.drop_last() =~= links.take(edge_id as int));
                assert(next.last() == edge.link());
                assert(within_bounds(next)) by {
                    assert forall|i: int| 0 <= i < next.len() implies (#[trigger] next[i]).lower <= next[i].flow
                        <= next[i].upper by {
                        assert(next[i] == links[i]);
                    }
                }
                assert(within_bounds(links.take(edge_id as int))) by {
                    assert forall|i: int| 0 <= i < edge_id implies (#[trigger] links.take(edge_id as int)[i]).lower
                        <= links.take(edge_id as int)[i].flow <= links.take(edge_id as int)[i].upper by {
                        assert(links.take(edge_id as int)[i] == links[i]);
                    }
                }
                lemma_net_out_within_flow_bound(next, edge.from as int);
                lemma_net_out_within_flow_bound(next, edge.to as int);
                lemma_net_out_within_flow_bound(links.take(edge_id as int), edge.from as int);
                lemma_net_out_within_flow_bound(links.take(edge_id as int), edge.to as int);
                lemma_flow_bound_prefix(links, edge_id + 1);
                lemma_flow_bound_prefix(links, edge_id as int);
                assert(magnitude(self.b@[edge.from as int] as int) + flow_bound(links) <= i64::MAX);
                assert(magnitude(self.b@[edge.to as int] as int) + flow_bound(links) <= i64::MAX);
            }
            if edge.from != edge.to {
                self.excesses[edge.from] -= edge.flow;
                self.excesses[edge.to] += edge.flow;
            }
            proof {
                assert(self.links() =~= links);
            }
        }
        proof {
            assert(links.take(self.num_edges as int) =~= links);
        }
    }

    /// The node potentials as integers, for the nodes of the graph.
    pub open spec fn potentials_of(&self, potentials: Seq<i64>) -> Seq<int> {
        Seq::new(self.node_count(), |u: int| potentials[u] as int)
    }

    /// Whether the flow satisfies complementary slackness for the node
    /// potentials `potentials`: every edge with positive reduced cost
    /// carries its lower bound, every edge with negative reduced cost its
    /// upper bound.
    pub fn is_slack_for(&self, potentials: &Vec<i64>) -> (slack: bool)
        requires
            self.wf(),
            potentials@.len() >= self.node_count(),
        ensures
            slack == is_slack(self.links(), self.potentials_of(potentials@)),
    {
        let ghost pi = self.potentials_of(potentials@);
        let ghost links = self.links();
        for edge_id in 0..self.num_edges
            invariant
                self.wf(),
                potentials@.len() >= self.node_count(),
                pi == self.potentials_of(potentials@),
                links == self.links(),
                forall|i: int|
                    0 <= i < edge_id ==> (reduced_cost(#[trigger] links[i], pi) > 0 ==> links[i].flow == links[i].lower)
                        && (reduced_cost(links[i], pi) < 0 ==> links[i].flow == links[i].upper),
        {
            let edge = &self.edges[edge_id];
            let reduced: i128 = edge.cost as i128 - potentials[edge.from] as i128 + potentials[edge.to] as i128;
            proof {
                let l = links[edge_id as int];
                assert(l == self.edge_at(edge_id as int).link());
                if self.is_reversed@[edge_id as int] {
                    assert(reduced_cost(l, pi) == -reduced);
                } else {
                    assert(reduced_cost(l, pi) == reduced);
                }
            }
            if (reduced > 0 && edge.flow != 0) || (reduced < 0 && edge.flow != edge.upper) {
                return false;
            }
        }
        true
    }

    /// Closes a solve: computes the excess that the flow leaves at every
    /// node and tells what the flow is. It is `Infeasible` when some node
    /// keeps an excess, `Optimal` when none does and the flow satisfies
    /// complementary slackness for `potentials`, and `NotSolved` otherwise.
    pub fn conclude(&mut self, potentials: &Vec<i64>) -> (status: Status)
        requires
            old(self).wf(),
            old(self).settleable(),
            potentials@.len() >= old(self).node_count(),
        ensures
            final(self).concludes(old(self), status),
            final(self).links() == old(self).links(),
            status == Status::NotSolved <==> final(self).balanced() && !is_slack(
                final(self).links(),
                final(self).potentials_of(potentials@),
            ),
    {
        self.settle();
        proof {
            assert(self.links() =~= old(self).links());
        }
        let mut balanced = true;
        for u in 0..self.num_nodes
            invariant
                self.wf(),
                balanced == forall|w: int| 0 <= w < u ==> #[trigger] self.excesses@[w] == 0,
        {
            if self.excesses[u] != 0 {
                balanced = false;
            }
        }
        if !balanced {
            return Status::Infeasible;
        }
        if !self.is_slack_for(potentials) {
            return Status::NotSolved;
        }
        proof {
            let pi = self.potentials_of(potentials@);
            self.lemma_links_within_bounds();
            assert forall|u: int| 0 <= u < self.node_count() implies #[trigger] net_out(self.links(), u)
                == self.supplies()[u] by {
                assert(self.excesses@[u] == 0);
                assert(self.excesses@[u] == self.b@[u] - net_out(self.links(), u));
            }
            assert(meets_supplies(self.links(), self.supplies(), self.node_count() as int));
            lemma_slack_flow_is_minimum(self.links(), self.supplies(), pi, self.node_count() as int);
            assert(is_slack(self.links(), pi));
        }
        Status::Optimal
    }

    /// The graph is `before` with its excesses brought up to date, and
    /// `status` tells what its flow is: with `Optimal` the flow respects
    /// all bounds, meets all supplies, satisfies complementary slackness
    /// for some node potentials and has minimum cost; with `Infeasible`
    /// some node keeps an excess.
    pub open spec fn concludes(&self, before: &Graph, status: Status) -> bool {
        &&& self.wf()
        &&& self.same_problem(before)
        &&& self.settled()
        &&& (status == Status::Optimal || status == Status::Infeasible || status == Status::NotSolved)
        &&& status == Status::Infeasible <==> !self.balanced()
        &&& status == Status::Optimal ==> {
            &&& is_feasible(self.links(), self.supplies(), self.node_count() as int)
            &&& has_optimality_certificate(self.links(), self.node_count() as int)
            &&& is_minimum_cost_flow(self.links(), self.supplies(), self.node_count() as int)
        }
    }
}

/// Whatever two solvers make of one problem, they come to the same status,
/// and where the status is `Optimal`, the flows that they leave cost the same.
pub proof fn lemma_solvers_agree(before: &Graph, first: &Graph, second: &Graph, first_status: Status, second_status: Status)
    requires
        first.solved(before, first_status),
        second.solved(before, second_status),
    ensures
        first_status == second_status,
        first_status == Status::Optimal ==> total_cost(first.links()) == total_cost(second.links()),
{
    if supply_sum(before.b@) == 0 && first_status == Status::Optimal {
        assert(same_network(before.links(), second.links())) by {
            assert forall|i: int| 0 <= i < before.links().len() implies (#[trigger] before.links()[i]).from
                == second.links()[i].from && before.links()[i].to == second.links()[i].to && before.links()[i].lower
                == second.links()[i].lower && before.links()[i].upper == second.links()[i].upper
                && before.links()[i].cost == second.links()[i].cost by {
                assert(second.links()[i].from == before.links()[i].from);
            }
        }
        crate::network::lemma_same_network_transitive(first.links(), before.links(), second.links());
        assert(first.supplies() =~= second.supplies());
        crate::minimum_cost_flow::optimality::lemma_minimum_costs_agree(
            first.links(),
            second.links(),
            first.supplies(),
            first.node_count() as int,
        );
    }
}

} // verus!
