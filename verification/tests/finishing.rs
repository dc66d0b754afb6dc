use network_algorithms::minimum_cost_flow::cost_scaling_push_relabel::CostScalingPushRelabel;
use network_algorithms::minimum_cost_flow::csr::{certify, InsideEdge, CSR};
use network_algorithms::minimum_cost_flow::feasibility::{build_feasibility_network, compute_demands, find_feasible_flow};
use network_algorithms::minimum_cost_flow::finishing::cancel_negative_cycles;
use network_algorithms::minimum_cost_flow::graph::{Edge, Graph};
use network_algorithms::minimum_cost_flow::primal_dual::PrimalDual;
use network_algorithms::minimum_cost_flow::status::Status;
use network_algorithms::minimum_cost_flow::successive_shortest_path::SuccessiveShortestPath;

fn build(supplies: &[i64], edges: &[(usize, usize, i64, i64, i64)]) -> Graph {
    let mut graph = Graph::default();
    graph.add_nodes(supplies.len());
    for &(from, to, lower, upper, cost) in edges {
        graph.add_directed_edge(from, to, lower, upper, cost).unwrap();
    }
    for (u, &supply) in supplies.iter().enumerate() {
        if supply >= 0 {
            graph.add_supply(u, supply);
        } else {
            graph.add_demand(u, -supply);
        }
    }
    graph
}

fn flows(graph: &Graph) -> Vec<i64> {
    (0..graph.num_edges()).map(|e| graph.get_edge(e).unwrap().flow).collect()
}

const DIAMOND: [(usize, usize, i64, i64, i64); 5] =
    [(0, 1, 0, 2, 1), (0, 2, 0, 1, 2), (1, 2, 0, 1, 1), (1, 3, 0, 1, 3), (2, 3, 0, 2, 1)];

const MIXED: [(usize, usize, i64, i64, i64); 5] =
    [(0, 1, 1, 3, 2), (0, 2, 2, 4, -1), (1, 3, 0, 5, 1), (2, 3, 1, 2, 4), (2, 1, 0, 3, 0)];

#[test]
fn demands_are_supplies_less_lower_bounds() {
    let graph = build(&[4, 0, 0, -4], &MIXED);
    assert_eq!(compute_demands(&graph), vec![4 - 1 - 2, 1, 2 - 1, -4 + 1]);
}

#[test]
fn feasibility_network_has_two_arcs_for_every_node() {
    let graph = build(&[4, 0, 0, -4], &MIXED);
    let demands = compute_demands(&graph);
    let network = build_feasibility_network(&graph, &demands);
    assert_eq!(network.num_nodes(), 6);
    assert_eq!(network.num_edges(), 5 + 8);
    assert_eq!(network.get_edge(1).unwrap().upper, 2);
    assert_eq!((network.get_edge(1).unwrap().from, network.get_edge(1).unwrap().to), (0, 2));
    assert_eq!(network.get_edge(5).unwrap().upper, 1);
    assert_eq!(network.get_edge(6).unwrap().upper, 0);
    assert_eq!((network.get_edge(11).unwrap().from, network.get_edge(11).unwrap().to), (4, 3));
    assert_eq!(network.get_edge(11).unwrap().upper, 0);
    assert_eq!((network.get_edge(12).unwrap().from, network.get_edge(12).unwrap().to), (3, 5));
    assert_eq!(network.get_edge(12).unwrap().upper, 3);
}

#[test]
fn feasible_flow_is_found_where_there_is_one() {
    let mut graph = build(&[4, 0, 0, -4], &MIXED);
    assert!(find_feasible_flow(&mut graph));
    let mut balance = vec![0i64; 4];
    for edge_id in 0..graph.num_edges() {
        let edge = graph.get_edge(edge_id).unwrap();
        assert!(edge.lower <= edge.flow && edge.flow <= edge.upper);
        balance[edge.from] += edge.flow;
        balance[edge.to] -= edge.flow;
    }
    assert_eq!(balance, vec![4, 0, 0, -4]);
    assert_eq!(graph.excesses, vec![0, 0, 0, 0]);
}

#[test]
fn no_feasible_flow_is_found_where_there_is_none() {
    let mut graph = build(&[5, 0, -5], &[(0, 1, 0, 3, 1), (1, 2, 0, 9, 1)]);
    assert!(!find_feasible_flow(&mut graph));
    assert_eq!(flows(&graph), vec![0, 0]);
    assert_eq!(graph.excesses, vec![5, 0, -5]);
}

#[test]
fn cycles_of_negative_cost_are_cancelled() {
    let mut graph = build(&[2, 0, 0, -2], &DIAMOND);
    // a flow that meets the supplies at a cost of 8
    graph.set_edge_flow(0, 2);
    graph.set_edge_flow(2, 1);
    graph.set_edge_flow(3, 1);
    graph.set_edge_flow(4, 1);
    assert_eq!(graph.minimum_cost(), 2 + 1 + 3 + 1);
    let labels = cancel_negative_cycles(&mut graph);
    assert_eq!(graph.minimum_cost(), 6);
    assert_eq!(flows(&graph), vec![1, 1, 1, 0, 2]);
    assert_eq!(labels.len(), 4);
    for edge_id in 0..graph.num_edges() {
        let edge = graph.get_edge(edge_id).unwrap();
        let reduced = edge.cost as i128 + labels[edge.from] - labels[edge.to];
        if reduced > 0 {
            assert_eq!(edge.flow, edge.lower);
        }
        if reduced < 0 {
            assert_eq!(edge.flow, edge.upper);
        }
    }
}

#[test]
fn a_cycle_of_negative_cost_fills_up() {
    let mut graph = build(&[0, 0, 0], &[(0, 1, 0, 4, -2), (1, 2, 0, 3, 1), (2, 0, 0, 5, -1)]);
    // the builder fills the edges of negative cost: start from no flow instead
    graph.set_edge_flow(0, 0);
    graph.set_edge_flow(2, 0);
    let labels = cancel_negative_cycles(&mut graph);
    assert_eq!(labels.len(), 3);
    assert_eq!(flows(&graph), vec![3, 3, 3]);
    assert_eq!(graph.minimum_cost(), -6);
}

#[test]
fn certify_completes_what_a_solver_left_undone() {
    // flows as the builder leaves them: nothing is solved yet
    let mut graph = build(&[2, 0, 0, -2], &DIAMOND);
    assert_eq!(certify(&mut graph, &vec![0, 0, 0, 0]), Status::Optimal);
    assert_eq!(graph.minimum_cost(), 6);
    assert_eq!(graph.excesses, vec![0, 0, 0, 0]);

    let mut impossible = build(&[5, 0, -5], &[(0, 1, 0, 3, 1)]);
    assert_eq!(certify(&mut impossible, &vec![0, 0, 0]), Status::Infeasible);
    assert_eq!(impossible.excesses, vec![5, 0, -5]);
}

#[test]
fn conclude_tells_what_the_flow_is() {
    let mut graph = build(&[2, 0, 0, -2], &DIAMOND);
    assert_eq!(graph.conclude(&vec![0, 0, 0, 0]), Status::Infeasible);
    graph.set_edge_flow(0, 2);
    graph.set_edge_flow(2, 1);
    graph.set_edge_flow(3, 1);
    graph.set_edge_flow(4, 1);
    assert_eq!(graph.conclude(&vec![0, 0, 0, 0]), Status::NotSolved);
    graph.set_edge_flow(0, 1);
    graph.set_edge_flow(1, 1);
    graph.set_edge_flow(3, 0);
    graph.set_edge_flow(4, 2);
    assert!(!graph.is_slack_for(&vec![0, 0, 0, 0]));
    assert!(graph.is_slack_for(&vec![0, -1, -2, -3]));
    assert_eq!(graph.conclude(&vec![0, -1, -2, -3]), Status::Optimal);
}

#[test]
fn settle_brings_the_excesses_up_to_date() {
    let mut graph = build(&[4, 0, 0, -4], &MIXED);
    graph.excesses = vec![9, 9, 9, 9];
    graph.settle();
    // flows are 1, 4, 0, 1, 0
    assert_eq!(graph.excesses, vec![4 - 5, 1, 4 - 1, -4 + 1]);
    graph.set_edge_flow(1, 2);
    assert_eq!(graph.get_edge(1), Some(Edge { from: 0, to: 2, flow: 2, lower: 2, upper: 4, cost: -1 }));
    graph.settle();
    assert_eq!(graph.excesses, vec![4 - 3, 1, 2 - 1, -4 + 1]);
}

#[test]
fn extension_with_source_and_sink() {
    let mut graph = build(&[3, 0, -3], &[(0, 1, 0, 5, 1), (1, 2, 0, 5, 1)]);
    let (source, sink, nodes, edges) = graph.construct_extend_network_one_supply_one_demand();
    assert_eq!((source, sink), (3, 4));
    assert_eq!(nodes, vec![3, 4]);
    assert_eq!(edges, vec![2, 3]);
    assert_eq!(graph.num_nodes(), 5);
    assert_eq!(graph.get_edge(2), Some(Edge { from: 3, to: 0, flow: 0, lower: 0, upper: 3, cost: 0 }));
    assert_eq!(graph.get_edge(3), Some(Edge { from: 2, to: 4, flow: 0, lower: 0, upper: 3, cost: 0 }));
    assert_eq!(graph.excesses, vec![0, 0, 0, 3, -3]);
    graph.remove_artificial_sub_graph(&nodes, &edges);
    assert_eq!(graph.num_nodes(), 3);
    assert_eq!(graph.num_edges(), 2);
    assert_eq!(graph.get_edge(2), None);
}

#[test]
fn extension_with_root() {
    let mut graph = build(&[3, 0, -3], &[(0, 1, 0, 5, 1), (1, 2, 0, 5, 2)]);
    let (root, nodes, edges) = graph.construct_extend_network_feasible_solution();
    assert_eq!(root, 3);
    assert_eq!(nodes, vec![3]);
    assert_eq!(edges, vec![2, 3, 4]);
    assert_eq!(graph.get_edge(2), Some(Edge { from: 0, to: 3, flow: 3, lower: 0, upper: 3, cost: 4 }));
    assert_eq!(graph.get_edge(3), Some(Edge { from: 1, to: 3, flow: 0, lower: 0, upper: 0, cost: 4 }));
    assert_eq!(graph.get_edge(4), Some(Edge { from: 3, to: 2, flow: 3, lower: 0, upper: 3, cost: 4 }));
    assert_eq!(graph.excesses, vec![0, 0, 0, 0]);
}

#[test]
fn cost_residual_graph_carries_costs_and_potentials() {
    let graph = build(&[2, 0, 0, -2], &DIAMOND);
    let mut csr = CSR::default();
    csr.build(&graph);
    assert_eq!(csr.excesses, vec![2, 0, 0, -2]);
    assert_eq!(csr.potentials, vec![0, 0, 0, 0]);
    let arc = csr.edge_index_to_inside_edge_index[1];
    let forward = csr.inside_edge_list[arc];
    let backward = csr.inside_edge_list[forward.rev];
    assert_eq!(forward, InsideEdge { to: 2, flow: 0, upper: 1, cost: 2, rev: forward.rev });
    assert_eq!(backward, InsideEdge { to: 0, flow: 1, upper: 1, cost: -2, rev: arc });
    assert_eq!(forward.residual_capacity(), 1);
    assert!(forward.is_feasible());
    assert!(!InsideEdge { to: 0, flow: 3, upper: 2, cost: 0, rev: 0 }.is_feasible());
    assert_eq!(csr.neighbors(1).len(), 3);

    csr.potentials = vec![5, 0, 1, 0];
    assert_eq!(csr.reduced_cost(0, &forward), 2 - 5 + 1);
    assert_eq!(csr.reduced_cost_rev(0, &forward), 2);

    csr.push_flow(0, arc, 1);
    assert_eq!(csr.inside_edge_list[arc].flow, 1);
    assert_eq!(csr.inside_edge_list[forward.rev].flow, 0);
    assert_eq!(csr.excesses, vec![1, 0, 1, -2]);
    csr.add_flow(forward.rev, 1);
    assert_eq!(csr.inside_edge_list[arc].flow, 0);
    assert_eq!(csr.excesses, vec![1, 0, 1, -2]);
    csr.set_cost(arc, 7);
    assert_eq!(csr.inside_edge_list[arc].cost, 7);
}

#[test]
fn search_finds_shortest_distances() {
    let graph = build(&[2, 0, 0, -2], &DIAMOND);
    let mut csr = CSR::default();
    csr.build(&graph);
    let (dist, prev) = csr.calculate_distance_from_source(0);
    assert_eq!(dist, vec![Some(0), Some(1), Some(2), Some(3)]);
    assert_eq!(prev[0], None);
    assert_eq!(prev[1], Some(csr.edge_index_to_inside_edge_index[0]));
    assert_eq!(prev[3], Some(csr.edge_index_to_inside_edge_index[4]));

    let paths = csr.shortest_paths(1, false, true);
    assert_eq!(paths.target, Some(3));
    assert_eq!(paths.dist[3], Some(2));
    assert_eq!(paths.visited, vec![false, true, true, true]);

    let mut solver = SuccessiveShortestPath::default();
    solver.csr.build(&graph);
    let (t, visited, dist, _prev) = solver.calculate_distance(0).unwrap();
    assert_eq!(t, 3);
    assert_eq!(dist[3], Some(3));
    assert!(visited[0] && visited[3]);
    // a node with a deficit is its own nearest node with a deficit
    assert_eq!(solver.calculate_distance(3).unwrap().0, 3);
    solver.csr.excesses = vec![2, 0, 0, 0];
    assert!(solver.calculate_distance(0).is_none());
}

#[test]
fn tight_levels_of_the_primal_dual_method() {
    let graph = build(&[2, 0, -2], &[(0, 1, 0, 2, 0), (1, 2, 0, 2, 0), (0, 2, 0, 1, 3)]);
    let mut solver = PrimalDual::default();
    solver.csr.build(&graph);
    solver.distances = vec![0; 3];
    solver.current_edge = vec![0; 3];
    solver.update_distances(0, 2);
    // the edge of cost 3 is not tight
    assert_eq!(solver.distances, vec![2, 1, 0]);
    let first = solver.csr.edge_index_to_inside_edge_index[0];
    let third = solver.csr.edge_index_to_inside_edge_index[2];
    assert!(solver.is_admissible_edge(0, first));
    assert!(!solver.is_admissible_edge(0, third));
}

#[test]
fn scaling_factor_of_cost_scaling() {
    assert_eq!(CostScalingPushRelabel::default().alpha, 16);
    assert_eq!(CostScalingPushRelabel::new(8).alpha, 8);
    let mut graph = build(&[2, 0, 0, -2], &DIAMOND);
    assert_eq!(CostScalingPushRelabel::new(8).solve(&mut graph), Status::Optimal);
    assert_eq!(graph.minimum_cost(), 6);
}
