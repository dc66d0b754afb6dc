use crate::arith::{clamp, div_nonneg, div_toward_zero, sat_add, sat_mul, sat_neg};
use crate::minimum_cost_flow::csr::{certify, InsideEdge, CSR};
use crate::minimum_cost_flow::feasibility::{find_feasible_flow, fits, lemma_fits_same_problem};
use crate::minimum_cost_flow::graph::{supply_sum, Graph};
use crate::minimum_cost_flow::optimality::is_feasible;
use crate::minimum_cost_flow::status::Status;
use crate::network::{same_network, Link};
use std::collections::VecDeque;
use vstd::prelude::*;

verus! {

/// Calls `num_traits::FromPrimitive::from_isize` for `i64`, which turns an
/// `isize` into the `i64` of the same value: an `i64` holds every `isize`.
#[verifier::external_body]
fn flow_from_isize(n: isize) -> (flow: Option<i64>)
    ensures
        flow == Some(n as i64),
{
    num_traits::FromPrimitive::from_isize(n)
}

/// Calls `num_traits::FromPrimitive::from_usize` for `i64`, which turns a
/// `usize` into the `i64` of the same value where an `i64` holds it, and
/// into nothing where it does not.
#[verifier::external_body]
fn flow_from_usize(n: usize) -> (flow: Option<i64>)
    ensures
        n <= i64::MAX ==> flow == Some(n as i64),
        n > i64::MAX ==> flow.is_none(),
{
    num_traits::FromPrimitive::from_usize(n)
}

/// Minimum-cost flow by pushing and relabelling with costs scaled up, for
/// an error bound `epsilon` that goes down from the greatest cost to one.
pub struct CostScalingPushRelabel {
    pub csr: CSR,
    pub active_nodes: VecDeque<usize>,
    pub current_edge: Vec<usize>,
    pub alpha: i64,
}

impl Default for CostScalingPushRelabel {
    fn default() -> (solver: Self)
        ensures
            solver.alpha == 16,
    {
        CostScalingPushRelabel {
            csr: CSR::default(),
            active_nodes: VecDeque::new(),
            current_edge: Vec::new(),
            alpha: flow_from_isize(16).unwrap(),
        }
    }
}

impl CostScalingPushRelabel {
    /// A solver with the scaling factor `scaling_factor`, which is usually
    /// between 8 and 24.
    pub fn new(scaling_factor: i64) -> (solver: Self)
        requires
            scaling_factor > 1,
        ensures
            solver.alpha == scaling_factor,
    {
        CostScalingPushRelabel {
            csr: CSR::default(),
            active_nodes: VecDeque::new(),
            current_edge: Vec::new(),
            alpha: scaling_factor,
        }
    }

    /// The residual graph is well formed, every node has a current arc that
    /// does not lie behind its own arcs and only nodes wait to be discharged.
    pub open spec fn wf(&self) -> bool {
        &&& self.csr.wf()
        &&& self.alpha > 1
        &&& self.current_edge@.len() == self.csr.num_nodes
        &&& forall|w: int|
            0 <= w < self.csr.num_nodes ==> #[trigger] self.current_edge@[w] <= self.csr.start@[w + 1]
        &&& forall|i: int| 0 <= i < self.active_nodes@.len() ==> #[trigger] self.active_nodes@[i] < self.csr.num_nodes
    }

    /// Arc `a` out of node `u` may be pushed along: it has residual
    /// capacity and a negative reduced cost.
    pub open spec fn leads_on(&self, u: int, a: int) -> bool {
        self.csr.residual(a) > 0 && self.csr.reduced(u, self.csr.inside_edge_list@[a]) < 0
    }

    /// Solves the problem that `graph` states and stores flows and excesses in `graph`.
    ///
    /// Pushing and relabelling run under a guard on the number of steps.
    /// The node potentials that go with the result are computed anew from
    /// the flow that was found, with costs as the caller gave them.
    pub fn solve(&mut self, graph: &mut Graph) -> (status: Status)
        requires
            old(graph).solvable(),
            old(self).alpha > 1,
        ensures
            final(graph).solved(old(graph), status),
    {
        if graph.is_unbalance() {
            return Status::Unbalanced;
        }
        self.csr.build(graph);
        let ghost built = self.csr;
        let n = self.csr.num_nodes;

        // all edge costs are non-negative
        let mut idle = true;
        for u in 0..n
            invariant
                self.csr == built,
                n == self.csr.num_nodes,
                self.csr.wf(),
        {
            if self.csr.excesses[u] != 0 {
                idle = false;
            }
        }
        if idle || !self.check_feasibility(graph) {
            return certify(graph, &self.csr.potentials);
        }

        self.current_edge = vec![0usize; n];
        self.active_nodes = VecDeque::new();
        let mut gamma: i64 = if self.csr.inside_edge_list.len() == 0 { 1 } else { 0 };
        for i in 0..self.csr.inside_edge_list.len()
            invariant
                self.csr == built,
                0 <= gamma,
        {
            if self.csr.inside_edge_list[i].cost > gamma {
                gamma = self.csr.inside_edge_list[i].cost;
            }
        }
        let cost_scaling_factor = sat_mul(self.alpha, flow_from_usize(n).unwrap());
        let scaled = sat_mul(gamma, cost_scaling_factor);
        let mut epsilon: i64 = if scaled > 1 { scaled } else { 1 };

        // scale cost
        let arcs = self.csr.inside_edge_list.len();
        for i in 0..arcs
            invariant
                self.wf(),
                self.csr.same_shape_but_costs(&built),
                arcs == self.csr.inside_edge_list@.len(),
        {
            let scaled_cost = sat_mul(self.csr.inside_edge_list[i].cost, cost_scaling_factor);
            self.csr.set_cost(i, scaled_cost);
        }
        let mut budget: usize = usize::MAX;
        let mut refining = true;
        while refining
            invariant
                self.wf(),
                self.csr.same_shape_but_costs(&built),
                arcs == self.csr.inside_edge_list@.len(),
                epsilon >= 1,
            decreases epsilon, refining as int,
        {
            let quotient = div_nonneg(epsilon, self.alpha);
            proof {
                let e = epsilon as int;
                let a = self.alpha as int;
                assert(e / a < e) by (nonlinear_arith)
                    requires
                        e >= 1,
                        a > 1,
                ;
            }
            let finer = if quotient > 1 { quotient } else { 1 };
            if finer == epsilon {
                refining = false;
            }
            epsilon = finer;
            self.refine(epsilon, &mut budget);
            if epsilon == 1 {
                refining = false;
            }
        }
        // unscale cost
        if cost_scaling_factor > 0 {
            for i in 0..arcs
                invariant
                    self.wf(),
                    self.csr.same_shape_but_costs(&built),
                    arcs == self.csr.inside_edge_list@.len(),
                    cost_scaling_factor > 0,
            {
                let cost = div_toward_zero(self.csr.inside_edge_list[i].cost, cost_scaling_factor);
                self.csr.set_cost(i, cost);
            }
        }
        proof {
            self.csr.lemma_models_but_costs(&built, graph);
        }
        self.csr.set_flow(graph);
        proof {
            graph.lemma_settleable_same_problem(old(graph));
            crate::minimum_cost_flow::feasibility::lemma_fits_same_problem(graph, old(graph));
        }
        certify(graph, &self.csr.potentials)
    }

    /// Makes the flow `epsilon`-optimal: fills every arc of negative reduced
    /// cost, empties every arc of positive reduced cost, and discharges the
    /// nodes that are left with an excess.
    fn refine(&mut self, epsilon: i64, budget: &mut usize)
        requires
            old(self).wf(),
        ensures
            final(self).wf(),
            final(self).csr.same_shape(&old(self).csr),
            final(self).alpha == old(self).alpha,
            final(self).active_nodes@.len() == 0,
            *final(budget) <= *old(budget),
    {
        // make a 0-optimal pseudo flow
        let n = self.csr.num_nodes;
        for u in 0..n
            invariant
                self.wf(),
                self.csr.same_shape(&old(self).csr),
                self.alpha == old(self).alpha,
                n == self.csr.num_nodes,
        {
            proof {
                assert(self.csr.start@[u as int] <= self.csr.start@[u + 1]);
                assert(self.csr.start@[u + 1] <= self.csr.start@[n as int]);
            }
            let first = self.csr.start[u];
            let last = self.csr.start[u + 1];
            for edge_id in first..last
                invariant
                    self.wf(),
                    self.csr.same_shape(&old(self).csr),
                    self.alpha == old(self).alpha,
                    n == self.csr.num_nodes,
                    u < n,
                    first == self.csr.start@[u as int],
                    last == self.csr.start@[u + 1],
                    last <= self.csr.inside_edge_list@.len(),
            {
                proof {
                    self.csr.lemma_tail(u as int, edge_id as int);
                }
                let edge = self.csr.inside_edge_list[edge_id];
                let reduced_cost = self.csr.reduced_cost(u, &edge);
                if reduced_cost < 0 {
                    self.csr.push_flow(u, edge_id, edge.residual_capacity());
                } else if reduced_cost > 0 {
                    self.csr.push_flow(u, edge_id, -edge.flow);
                }
            }
        }

        for u in 0..n
            invariant
                self.wf(),
                self.csr.same_shape(&old(self).csr),
                self.alpha == old(self).alpha,
                n == self.csr.num_nodes,
        {
            self.current_edge[u] = self.csr.start[u];
        }
        for u in 0..n
            invariant
                self.wf(),
                self.csr.same_shape(&old(self).csr),
                self.alpha == old(self).alpha,
                n == self.csr.num_nodes,
        {
            if self.csr.excesses[u] > 0 {
                self.active_nodes.push_back(u);
            }
        }

        // 0-optimal pseudo flow -> epsilon-optimal feasible flow
        while *budget > 0 && self.active_nodes.len() > 0
            invariant
                self.wf(),
                self.csr.same_shape(&old(self).csr),
                self.alpha == old(self).alpha,
                *budget <= *old(budget),
            decreases *budget,
        {
            *budget -= 1;
            let ghost waiting = self.active_nodes@;
            let u = self.active_nodes.pop_back().unwrap();
            proof {
                assert forall|i: int| 0 <= i < self.active_nodes@.len() implies #[trigger] self.active_nodes@[i]
                    < self.csr.num_nodes by {
                    assert(self.active_nodes@[i] == waiting[i]);
                }
                assert(waiting[waiting.len() - 1] == u);
            }
            self.discharge(u, epsilon, budget);
        }
        self.active_nodes.clear();
    }

    /// Pushes the excess of `u` away, relabelling `u` whenever no
    /// admissible arc is left.
    fn discharge(&mut self, u: usize, epsilon: i64, budget: &mut usize)
        requires
            old(self).wf(),
            u < old(self).csr.num_nodes,
        ensures
            final(self).wf(),
            final(self).csr.same_shape(&old(self).csr),
            final(self).alpha == old(self).alpha,
            *final(budget) <= *old(budget),
            final(self).csr.excesses@[u as int] <= 0 || *final(budget) == 0,
    {
        let mut discharging = true;
        while discharging && *budget > 0 && self.csr.excesses[u] > 0
            invariant
                !discharging ==> self.csr.excesses@[u as int] == 0,
                self.wf(),
                self.csr.same_shape(&old(self).csr),
                self.alpha == old(self).alpha,
                u < self.csr.num_nodes,
                *budget <= *old(budget),
            decreases *budget, discharging as int,
        {
            *budget -= 1;
            self.push(u, epsilon);

            if self.csr.excesses[u] == 0 {
                discharging = false;
            } else {
                self.relabel(u, epsilon);
            }
        }
    }

    /// Whether an arc out of `u` may be pushed along: whether its reduced
    /// cost is negative.
    fn is_admissible(&self, u: usize, edge: &InsideEdge, _epsilon: i64) -> (admissible: bool)
        requires
            self.csr.wf(),
            u < self.csr.num_nodes,
            edge.to < self.csr.num_nodes,
        ensures
            admissible == (self.csr.reduced(u as int, *edge) < 0),
    {
        self.csr.reduced_cost(u, edge) < 0
    }

    /// Pushes the excess of `u` along admissible arcs, but not into a node
    /// that would be a dead end.
    fn push(&mut self, u: usize, epsilon: i64)
        requires
            old(self).wf(),
            u < old(self).csr.num_nodes,
        ensures
            final(self).wf(),
            final(self).csr.same_shape(&old(self).csr),
            final(self).alpha == old(self).alpha,
            final(self).csr.excesses@[u as int] == 0 || final(self).current_edge@[u as int]
                == final(self).csr.start@[u as int],
    {
        proof {
            assert(self.csr.start@[u as int] <= self.csr.start@[u + 1]);
            assert(self.csr.start@[u + 1] <= self.csr.start@[self.csr.num_nodes as int]);
        }
        let first = self.csr.start[u];
        let last = self.csr.start[u + 1];
        let mut edge_id = first;
        while edge_id < last
            invariant
                self.wf(),
                self.csr.same_shape(&old(self).csr),
                self.alpha == old(self).alpha,
                u < self.csr.num_nodes,
                first == self.csr.start@[u as int],
                last == self.csr.start@[u + 1],
                first <= edge_id <= last,
                last <= self.csr.inside_edge_list@.len(),
            decreases last - edge_id,
        {
            proof {
                self.csr.lemma_tail(u as int, edge_id as int);
            }
            let edge = self.csr.inside_edge_list[edge_id];
            let to = edge.to;
            let mut usable = edge.residual_capacity() > 0 && self.is_admissible(u, &edge, epsilon);
            if usable && !self.look_ahead(to, epsilon) {
                proof {
                    self.csr.lemma_tail(u as int, edge_id as int);
                }
                let edge_now = self.csr.inside_edge_list[edge_id];
                if !self.is_admissible(u, &edge_now, epsilon) {
                    usable = false;
                }
            }
            if usable {
                proof {
                    self.csr.lemma_tail(u as int, edge_id as int);
                }
                let residual = self.csr.inside_edge_list[edge_id].residual_capacity();
                let flow = if residual < self.csr.excesses[u] {
                    residual
                } else if self.csr.excesses[u] > 0 {
                    self.csr.excesses[u]
                } else {
                    0
                };
                self.csr.push_flow(u, edge_id, flow);

                if self.csr.excesses[to] > 0 && self.csr.excesses[to] <= flow {
                    self.active_nodes.push_back(to);
                }

                if self.csr.excesses[u] == 0 {
                    self.current_edge[u] = edge_id;
                    return;
                }
            }
            edge_id += 1;
        }

        // node has no admissible edge
        self.current_edge[u] = self.csr.start[u];
    }

    /// Raises the potential of `u` to the smallest value that makes an arc
    /// out of `u` with residual capacity admissible, plus `epsilon`.
    fn relabel(&mut self, u: usize, epsilon: i64)
        requires
            old(self).wf(),
            u < old(self).csr.num_nodes,
        ensures
            final(self).wf(),
            final(self).csr.same_shape(&old(self).csr),
            final(self).csr.inside_edge_list == old(self).csr.inside_edge_list,
            final(self).csr.excesses == old(self).csr.excesses,
            final(self).active_nodes == old(self).active_nodes,
            final(self).alpha == old(self).alpha,
            final(self).csr.potentials@ == old(self).csr.potentials@.update(
                u as int,
                relabelled(&old(self).csr, u as int, epsilon as int) as i64,
            ),
            final(self).current_edge@ == old(self).current_edge@.update(
                u as int,
                relabelled_arc(&old(self).csr, old(self).current_edge@, u as int, epsilon as int) as usize,
            ),
    {
        let guaranteed_new_potential = sat_add(self.csr.potentials[u], epsilon);

        let mut mini_potential: Option<i64> = None;
        let mut previous_mini_potential: Option<i64> = None;
        let mut current_edges_for_u: usize = 0;

        proof {
            assert(self.csr.start@[u as int] <= self.csr.start@[u + 1]);
            assert(self.csr.start@[u + 1] <= self.csr.start@[self.csr.num_nodes as int]);
        }
        let first = self.csr.start[u];
        let last = self.csr.start[u + 1];
        for edge_id in first..last
            invariant
                *self == *old(self),
                self.wf(),
                u < self.csr.num_nodes,
                first == self.csr.start@[u as int],
                last == self.csr.start@[u + 1],
                first <= last,
                last <= self.csr.inside_edge_list@.len(),
                current_edges_for_u <= last,
                guaranteed_new_potential == clamp(self.csr.potentials@[u as int] + epsilon),
                mini_potential.is_none() ==> least_reach(&self.csr, u as int, edge_id as int).is_none(),
                mini_potential matches Some(least) ==> least_reach(&self.csr, u as int, edge_id as int) == Some(
                    least as int,
                ) && least >= guaranteed_new_potential,
                least_at(&self.csr, u as int, edge_id as int) == (
                    match previous_mini_potential {
                        Some(previous) => Some(previous as int),
                        None => None,
                    },
                    current_edges_for_u as int,
                ),
                forall|x: int|
                    first <= x < edge_id ==> !(self.csr.residual(x) > 0 && #[trigger] reach_over(&self.csr, x)
                        < guaranteed_new_potential),
        {
            proof {
                self.csr.lemma_tail(u as int, edge_id as int);
            }
            if self.csr.inside_edge_list[edge_id].residual_capacity() > 0 {
                let to = self.csr.inside_edge_list[edge_id].to;
                let cost = self.csr.inside_edge_list[edge_id].cost;

                let new_potential = sat_add(self.csr.potentials[to], cost);
                let smaller = match mini_potential {
                    None => true,
                    Some(least) => new_potential < least,
                };
                if smaller {
                    // adding epsilon creates an admissible edge
                    if new_potential < guaranteed_new_potential {
                        proof {
                            lemma_least_reach(&self.csr, u as int, edge_id as int, last as int);
                            lemma_first_below(
                                &self.csr,
                                guaranteed_new_potential as int,
                                first as int,
                                last as int,
                                edge_id as int,
                            );
                        }
                        let ghost before = self.csr.potentials@;
                        let ghost pointers = self.current_edge@;
                        self.csr.potentials[u] = guaranteed_new_potential;
                        self.current_edge[u] = edge_id;
                        proof {
                            assert(self.csr.potentials@ =~= before.update(u as int, guaranteed_new_potential));
                            assert(self.current_edge@ =~= pointers.update(u as int, edge_id));
                        }
                        return;
                    }
                    previous_mini_potential = mini_potential;
                    mini_potential = Some(new_potential);
                    current_edges_for_u = edge_id;
                }
            }
        }

        // increasing the potential cannot create an admissible edge.
        let ghost before = self.csr.potentials@;
        let ghost pointers = self.current_edge@;
        proof {
            lemma_first_below(&self.csr, guaranteed_new_potential as int, first as int, last as int, last as int);
        }
        match mini_potential {
            None => {
                if self.csr.excesses[u] == 0 {
                    // the potential can be lowered as much as desired, but guaranteed_new_potential is applied
                    self.csr.potentials[u] = guaranteed_new_potential;
                    self.current_edge[u] = 0;
                }
            },
            Some(least) => {
                // adding more than epsilon creates an admissible edge
                let new_potential = sat_add(least, epsilon);
                self.csr.potentials[u] = new_potential;

                let keep = match previous_mini_potential {
                    None => true,
                    Some(previous) => previous >= new_potential,
                };
                self.current_edge[u] = if keep {
                    current_edges_for_u
                } else {
                    self.csr.start[u]
                };
            },
        }
        proof {
            assert(self.csr.potentials@ =~= before.update(
                u as int,
                relabelled(&old(self).csr, u as int, epsilon as int) as i64,
            ));
            assert(self.current_edge@ =~= pointers.update(
                u as int,
                relabelled_arc(&old(self).csr, old(self).current_edge@, u as int, epsilon as int) as usize,
            ));
        }
    }

    /// Whether pushing into `u` leads on: whether `u` has a deficit or an
    /// admissible arc at or behind its current arc. Relabels `u` when it
    /// has neither.
    fn look_ahead(&mut self, u: usize, epsilon: i64) -> (open: bool)
        requires
            old(self).wf(),
            u < old(self).csr.num_nodes,
        ensures
            final(self).wf(),
            final(self).csr.same_shape(&old(self).csr),
            final(self).csr.inside_edge_list == old(self).csr.inside_edge_list,
            final(self).csr.excesses == old(self).csr.excesses,
            final(self).active_nodes == old(self).active_nodes,
            final(self).alpha == old(self).alpha,
            open == (old(self).csr.excesses@[u as int] < 0 || exists|a: int|
                old(self).current_edge@[u as int] <= a < old(self).csr.start@[u + 1] && #[trigger] old(self).leads_on(
                    u as int,
                    a,
                )),
            open ==> final(self).csr.potentials == old(self).csr.potentials,
            open && old(self).csr.excesses@[u as int] >= 0 ==> {
                &&& old(self).current_edge@[u as int] <= final(self).current_edge@[u as int] < old(self).csr.start@[u + 1]
                &&& old(self).leads_on(u as int, final(self).current_edge@[u as int] as int)
                &&& forall|a: int|
                    old(self).current_edge@[u as int] <= a < final(self).current_edge@[u as int] ==> !old(self).leads_on(
                        u as int,
                        a,
                    )
            },
            !open ==> final(self).csr.potentials@ == old(self).csr.potentials@.update(
                u as int,
                relabelled(&old(self).csr, u as int, epsilon as int) as i64,
            ),
    {
        if self.csr.excesses[u] < 0 {
            return true;
        }
        // search admissible edge
        proof {
            assert(self.csr.start@[u + 1] <= self.csr.start@[self.csr.num_nodes as int]);
        }
        let first = self.current_edge[u];
        let last = self.csr.start[u + 1];
        for edge_id in first..last
            invariant
                *self == *old(self),
                self.wf(),
                u < self.csr.num_nodes,
                first == self.current_edge@[u as int],
                last == self.csr.start@[u + 1],
                last <= self.csr.inside_edge_list@.len(),
                forall|a: int| first <= a < edge_id ==> !self.leads_on(u as int, a),
        {
            proof {
                assert(self.csr.arc_ok(edge_id as int));
            }
            let edge = self.csr.inside_edge_list[edge_id];
            if edge.residual_capacity() > 0 && self.is_admissible(u, &edge, epsilon) {
                proof {
                    assert(old(self).leads_on(u as int, edge_id as int));
                }
                self.current_edge[u] = edge_id;
                return true;
            }
        }
        self.relabel(u, epsilon);
        false
    }

    /// Whether some flow respects all bounds and meets all supplies:
    /// whether a maximum flow on the network of free capacities, from a
    /// source that feeds every node in excess to a sink that drains every
    /// node in deficit, carries all of the excess.
    fn check_feasibility(&self, graph: &Graph) -> (feasible: bool)
        requires
            graph.wf(),
            graph.settleable(),
            fits(graph),
            supply_sum(graph.b@) == 0,
        ensures
            feasible == graph.is_satisfiable(),
    {
        let mut trial = Graph {
            num_nodes: graph.num_nodes,
            num_edges: graph.num_edges,
            edges: graph.edges.clone(),
            b: graph.b.clone(),
            lowers: graph.lowers.clone(),
            excesses: graph.excesses.clone(),
            is_reversed: graph.is_reversed.clone(),
        };
        proof {
            assert(trial.edges@ =~= graph.edges@);
            assert(trial.b@ =~= graph.b@);
            assert(trial.lowers@ =~= graph.lowers@);
            assert(trial.excesses@ =~= graph.excesses@);
            assert(trial.is_reversed@ =~= graph.is_reversed@);
            assert(trial.links() =~= graph.links());
            assert(trial.supplies() =~= graph.supplies());
            lemma_fits_same_problem(&trial, graph);
        }
        let ghost stated = trial;
        let feasible = find_feasible_flow(&mut trial);
        proof {
            if feasible {
                assert(trial.supplies() =~= graph.supplies());
                assert(same_network(trial.links(), graph.links()));
                assert(is_feasible(trial.links(), graph.supplies(), graph.node_count() as int));
            } else {
                assert forall|other: Seq<Link>| same_network(other, graph.links()) implies !#[trigger] is_feasible(
                    other,
                    graph.supplies(),
                    graph.node_count() as int,
                ) by {
                    assert(same_network(other, stated.links()));
                }
            }
        }
        feasible
    }
}

/// The least potential that node `u` can take over one of its arcs before
/// `upto` that has residual capacity, which is the potential of the head
/// of the arc plus its cost; nothing where there is no such arc.
pub open spec fn least_reach(csr: &CSR, u: int, upto: int) -> Option<int>
    decreases upto - csr.start@[u],
{
    if upto <= csr.start@[u] {
        None
    } else {
        let rest = least_reach(csr, u, upto - 1);
        let arc = csr.inside_edge_list@[upto - 1];
        let through = clamp(csr.potentials@[arc.to as int] + arc.cost);
        if csr.residual(upto - 1) <= 0 {
            rest
        } else if rest.is_some() && rest.unwrap() <= through {
            rest
        } else {
            Some(through)
        }
    }
}

/// The potential of node `u` after it was relabelled: its potential plus
/// `epsilon` where that makes an arc with residual capacity admissible,
/// or where there is no such arc and `u` is in balance; else the least
/// potential that it can take over such an arc, plus `epsilon`.
pub open spec fn relabelled(csr: &CSR, u: int, epsilon: int) -> int {
    let raised = clamp(csr.potentials@[u] + epsilon);
    match least_reach(csr, u, csr.start@[u + 1] as int) {
        None => if csr.excesses@[u] == 0 {
            raised
        } else {
            csr.potentials@[u] as int
        },
        Some(least) => if least < raised {
            raised
        } else {
            clamp(least + epsilon)
        },
    }
}

/// The least potential over the arcs before `upto` is at most the one
/// over arc `a` among them, where that has residual capacity.
pub proof fn lemma_least_reach(csr: &CSR, u: int, a: int, upto: int)
    requires
        csr.start@[u] <= a < upto,
        csr.residual(a) > 0,
    ensures
        least_reach(csr, u, upto).is_some(),
        least_reach(csr, u, upto).unwrap() <= clamp(
            csr.potentials@[csr.inside_edge_list@[a].to as int] + csr.inside_edge_list@[a].cost,
        ),
    decreases upto - a,
{
    if a < upto - 1 {
        lemma_least_reach(csr, u, a, upto - 1);
    }
}

/// The potential that a node can take over arc `a`: the potential of the
/// head of the arc plus its cost.
pub open spec fn reach_over(csr: &CSR, a: int) -> int {
    clamp(csr.potentials@[csr.inside_edge_list@[a].to as int] + csr.inside_edge_list@[a].cost)
}

/// Among the arcs out of node `u` before `upto` that have residual
/// capacity, the first over which `u` can take the least potential, and
/// the least that it could take over the arcs before that one.
pub open spec fn least_at(csr: &CSR, u: int, upto: int) -> (Option<int>, int)
    decreases upto - csr.start@[u],
{
    if upto <= csr.start@[u] {
        (None, 0)
    } else {
        let least = least_reach(csr, u, upto - 1);
        if csr.residual(upto - 1) > 0 && (least.is_none() || reach_over(csr, upto - 1) < least.unwrap()) {
            (least, upto - 1)
        } else {
            least_at(csr, u, upto - 1)
        }
    }
}

/// The first arc from `from` on and before `to` that has residual
/// capacity and over which a node can take less than `bound`.
pub open spec fn first_below(csr: &CSR, bound: int, from: int, to: int) -> Option<int>
    decreases to - from,
{
    if from >= to {
        None
    } else if csr.residual(from) > 0 && reach_over(csr, from) < bound {
        Some(from)
    } else {
        first_below(csr, bound, from + 1, to)
    }
}

/// Where no arc before `x` is such an arc, the first one is `x`, or none
/// where `x` is the end of the range.
pub proof fn lemma_first_below(csr: &CSR, bound: int, from: int, to: int, x: int)
    requires
        from <= x <= to,
        forall|a: int| from <= a < x ==> !(csr.residual(a) > 0 && #[trigger] reach_over(csr, a) < bound),
        x < to ==> csr.residual(x) > 0 && reach_over(csr, x) < bound,
    ensures
        first_below(csr, bound, from, to) == (if x < to {
            Some(x)
        } else {
            None
        }),
    decreases x - from,
{
    if from < x {
        assert(!(csr.residual(from) > 0 && reach_over(csr, from) < bound));
        lemma_first_below(csr, bound, from + 1, to, x);
    }
}

/// The current arc of node `u` after it was relabelled: the first arc
/// with residual capacity that its potential plus `epsilon` makes
/// admissible; else, where there is an arc with residual capacity, the
/// first of those over which it takes the least potential if no arc
/// before that one is admissible now, and its first arc if one is; else
/// no arc where `u` is in balance, and the arc as before where it is not.
pub open spec fn relabelled_arc(csr: &CSR, current_edge: Seq<usize>, u: int, epsilon: int) -> int {
    let raised = clamp(csr.potentials@[u] + epsilon);
    let last = csr.start@[u + 1] as int;
    match first_below(csr, raised, csr.start@[u] as int, last) {
        Some(a) => a,
        None => match least_reach(csr, u, last) {
            None => if csr.excesses@[u] == 0 {
                0
            } else {
                current_edge[u] as int
            },
            Some(least) => {
                let at = least_at(csr, u, last);
                if at.0.is_none() || at.0.unwrap() >= clamp(least + epsilon) {
                    at.1
                } else {
                    csr.start@[u] as int
                }
            },
        },
    }
}

} // verus!
