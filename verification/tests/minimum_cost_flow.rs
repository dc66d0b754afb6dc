use network_algorithms::minimum_cost_flow::cost_scaling_push_relabel::CostScalingPushRelabel;
use network_algorithms::minimum_cost_flow::cycle_canceling::CycleCanceling;
use network_algorithms::minimum_cost_flow::graph::{Edge, Graph};
use network_algorithms::minimum_cost_flow::network_simplex_pivot_rules::{
    AlteringCandidateListPivotRule, BestEligibleArcPivotRule, BlockSearchPivotRule, CandidateListPivotRule,
    FirstEligibleArcPivotRule, PivotRule,
};
use network_algorithms::minimum_cost_flow::dual_network_simplex::DualNetworkSimplex;
use network_algorithms::minimum_cost_flow::parametric_network_simplex::ParametricNetworkSimplex;
use network_algorithms::minimum_cost_flow::primal_network_simplex::PrimalNetworkSimplex;
use network_algorithms::minimum_cost_flow::out_of_kilter::OutOfKilter;
use network_algorithms::minimum_cost_flow::primal_dual::PrimalDual;
use network_algorithms::minimum_cost_flow::status::Status;
use network_algorithms::minimum_cost_flow::successive_shortest_path::SuccessiveShortestPath;

const SOLVERS: usize = 16;

fn build(supplies: &[i64], edges: &[(usize, usize, i64, i64, i64)]) -> Graph {
    let mut graph = Graph::default();
    graph.add_nodes(supplies.len());
    for &(from, to, lower, upper, cost) in edges {
        graph.add_directed_edge(from, to, lower, upper, cost).unwrap();
    }
    for (u, &supply) in supplies.iter().enumerate() {
        if supply >= 0 {
            graph.add_supply(u, supply);
        } else {
            graph.add_demand(u, -supply);
        }
    }
    graph
}

fn solve_with(solver: usize, graph: &mut Graph) -> Status {
    match solver {
        0 => SuccessiveShortestPath::default().solve(graph),
        1 => PrimalDual::default().solve(graph),
        2 => CycleCanceling::default().solve(graph),
        3 => OutOfKilter::default().solve(graph),
        4 => CostScalingPushRelabel::default().solve(graph),
        5 => PrimalNetworkSimplex::default().solve(&mut BestEligibleArcPivotRule::new(graph.num_edges()), graph),
        6 => PrimalNetworkSimplex::default().solve(&mut FirstEligibleArcPivotRule::new(graph.num_edges()), graph),
        7 => PrimalNetworkSimplex::default().solve(&mut BlockSearchPivotRule::new(graph.num_edges()), graph),
        8 => PrimalNetworkSimplex::default().solve(&mut CandidateListPivotRule::new(graph.num_edges()), graph),
        9 => PrimalNetworkSimplex::default().solve(&mut AlteringCandidateListPivotRule::new(graph.num_edges()), graph),
        10 => DualNetworkSimplex::default().solve(&mut BestEligibleArcPivotRule::new(graph.num_edges()), graph),
        11 => DualNetworkSimplex::default().solve(&mut FirstEligibleArcPivotRule::new(graph.num_edges()), graph),
        12 => DualNetworkSimplex::default().solve(&mut BlockSearchPivotRule::new(graph.num_edges()), graph),
        13 => DualNetworkSimplex::default().solve(&mut CandidateListPivotRule::new(graph.num_edges()), graph),
        14 => DualNetworkSimplex::default().solve(&mut AlteringCandidateListPivotRule::new(graph.num_edges()), graph),
        _ => ParametricNetworkSimplex::default().solve(graph),
    }
}

fn flows(graph: &Graph) -> Vec<i64> {
    (0..graph.num_edges()).map(|e| graph.get_edge(e).unwrap().flow).collect()
}

fn assert_feasible(graph: &Graph, supplies: &[i64]) {
    let mut balance = vec![0i64; graph.num_nodes()];
    for edge_id in 0..graph.num_edges() {
        let edge = graph.get_edge(edge_id).unwrap();
        assert!(edge.lower <= edge.flow && edge.flow <= edge.upper);
        balance[edge.from] += edge.flow;
        balance[edge.to] -= edge.flow;
    }
    assert_eq!(balance, supplies);
}

const DIAMOND: [(usize, usize, i64, i64, i64); 5] =
    [(0, 1, 0, 2, 1), (0, 2, 0, 1, 2), (1, 2, 0, 1, 1), (1, 3, 0, 1, 3), (2, 3, 0, 2, 1)];

#[test]
fn builder_restores_orientation_and_bounds() {
    let mut graph = Graph::default();
    assert_eq!(graph.add_node(), 0);
    assert_eq!(graph.add_nodes(2), vec![1, 2]);
    assert_eq!(graph.add_directed_edge(0, 1, 1, 4, 5), Some(0));
    assert_eq!(graph.add_directed_edge(0, 2, 0, 3, -3), Some(1));
    assert_eq!(graph.add_directed_edge(0, 3, 0, 1, 1), None);
    assert_eq!(graph.add_directed_edge(0, 1, 2, 1, 1), None);
    assert_eq!(graph.num_nodes(), 3);
    assert_eq!(graph.num_edges(), 2);
    assert_eq!(graph.get_edge(0), Some(Edge { from: 0, to: 1, flow: 1, lower: 1, upper: 4, cost: 5 }));
    assert_eq!(graph.get_edge(1), Some(Edge { from: 0, to: 2, flow: 3, lower: 0, upper: 3, cost: -3 }));
    assert_eq!(graph.get_edge(2), None);
    assert_eq!(graph.minimum_cost(), 5 - 9);
}

#[test]
fn balance_of_supplies() {
    let mut graph = Graph::default();
    graph.add_nodes(2);
    assert!(!graph.is_unbalance());
    graph.add_supply(0, 3);
    assert!(graph.is_unbalance());
    graph.add_demand(1, 3);
    assert!(!graph.is_unbalance());
}

#[test]
fn all_cost_solvers_diamond() {
    for solver in 0..SOLVERS {
        let mut graph = build(&[2, 0, 0, -2], &DIAMOND);
        assert_eq!(solve_with(solver, &mut graph), Status::Optimal, "solver {}", solver);
        assert_eq!(graph.minimum_cost(), 6, "solver {}", solver);
        assert_eq!(flows(&graph), vec![1, 1, 1, 0, 2], "solver {}", solver);
        assert_feasible(&graph, &[2, 0, 0, -2]);
    }
}

#[test]
fn all_cost_solvers_infeasible() {
    for solver in 0..SOLVERS {
        let mut graph = build(&[5, 0, -5], &[(0, 1, 0, 3, 1)]);
        assert_eq!(solve_with(solver, &mut graph), Status::Infeasible, "solver {}", solver);
    }
}

#[test]
fn all_cost_solvers_unbalanced() {
    for solver in 0..SOLVERS {
        let mut graph = build(&[1, 0], &[(0, 1, 0, 1, 1)]);
        assert_eq!(solve_with(solver, &mut graph), Status::Unbalanced, "solver {}", solver);
        assert_eq!(flows(&graph), vec![0]);
    }
}

#[test]
fn all_cost_solvers_negative_cost() {
    for solver in 0..SOLVERS {
        let mut graph = build(&[1, 0, -1], &[(0, 1, 0, 1, 5), (0, 2, 0, 1, -3)]);
        assert_eq!(solve_with(solver, &mut graph), Status::Optimal, "solver {}", solver);
        assert_eq!(
            graph.get_edge(1),
            Some(Edge { from: 0, to: 2, flow: 1, lower: 0, upper: 1, cost: -3 }),
            "solver {}",
            solver
        );
        assert_eq!(graph.minimum_cost(), -3);
        assert_feasible(&graph, &[1, 0, -1]);
    }
}

#[test]
fn all_cost_solvers_lower_bounds() {
    for solver in 0..SOLVERS {
        let mut graph = build(&[4, 0, 0, -4], &[(0, 1, 1, 3, 2), (0, 2, 2, 4, 1), (1, 3, 0, 5, 1), (2, 3, 1, 2, 4), (2, 1, 0, 3, 0)]);
        assert_eq!(solve_with(solver, &mut graph), Status::Optimal, "solver {}", solver);
        assert_feasible(&graph, &[4, 0, 0, -4]);
        assert_eq!(graph.minimum_cost(), 12, "solver {}", solver);
    }
}

#[test]
fn solvers_agree_on_generated_problems() {
    let mut seed: u64 = 2024;
    let mut next = move |bound: u64| {
        seed = seed.wrapping_mul(6364136223846793005).wrapping_add(1442695040888963407);
        (seed >> 33) % bound
    };
    for _ in 0..60 {
        let n = 2 + next(8) as usize;
        let m = next(20) as usize;
        let mut edges = Vec::new();
        for _ in 0..m {
            let from = next(n as u64) as usize;
            let to = next(n as u64) as usize;
            let upper = next(11) as i64;
            let cost = next(11) as i64 - 5;
            edges.push((from, to, 0, upper, cost));
        }
        let mut supplies = vec![0i64; n];
        for _ in 0..3 {
            let from = next(n as u64) as usize;
            let to = next(n as u64) as usize;
            let amount = next(4) as i64;
            supplies[from] += amount;
            supplies[to] -= amount;
        }
        let mut outcomes = Vec::new();
        for solver in 0..SOLVERS {
            let mut graph = build(&supplies, &edges);
            let status = solve_with(solver, &mut graph);
            assert!(status == Status::Optimal || status == Status::Infeasible, "solver {} gave {:?}", solver, status);
            if status == Status::Optimal {
                assert_feasible(&graph, &supplies);
                outcomes.push(Some(graph.minimum_cost()));
            } else {
                outcomes.push(None);
            }
        }
        for outcome in &outcomes {
            assert_eq!(*outcome, outcomes[0], "{:?} {:?}", supplies, edges);
        }
    }
}

#[test]
fn solving_a_cost_problem_twice_gives_the_same_result() {
    let supplies = [2, 0, 0, -2];
    for solver in 0..SOLVERS {
        let mut graph = build(&supplies, &DIAMOND);
        assert_eq!(solve_with(solver, &mut graph), Status::Optimal, "solver {}", solver);
        let cost = graph.minimum_cost();
        assert_eq!(solve_with(solver, &mut graph), Status::Optimal, "solver {}", solver);
        assert_eq!(graph.minimum_cost(), cost, "solver {}", solver);
        assert_feasible(&graph, &supplies);

        let mut stuck = build(&[5, 0, -5], &[(0, 1, 0, 3, 1)]);
        assert_eq!(solve_with(solver, &mut stuck), Status::Infeasible, "solver {}", solver);
        assert_eq!(solve_with(solver, &mut stuck), Status::Infeasible, "solver {}", solver);
    }
}
