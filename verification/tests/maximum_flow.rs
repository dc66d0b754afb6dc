use network_algorithms::maximum_flow::capacity_scaling::CapacityScaling;
use network_algorithms::maximum_flow::dinic::Dinic;
use network_algorithms::maximum_flow::edmonds_karp::EdmondsKarp;
use network_algorithms::maximum_flow::ford_fulkerson::FordFulkerson;
use network_algorithms::maximum_flow::graph::{Edge, Graph};
use network_algorithms::maximum_flow::push_relabel_fifo::PushRelabelFIFO;
use network_algorithms::maximum_flow::shortest_augmenting_path::ShortestAugmentingPath;
use network_algorithms::maximum_flow::status::Status;

fn build(num_nodes: usize, edges: &[(usize, usize, i64)]) -> Graph {
    let mut graph = Graph::default();
    graph.add_nodes(num_nodes);
    for &(from, to, upper) in edges {
        graph.add_directed_edge(from, to, upper).unwrap();
    }
    graph
}

fn diamond() -> Graph {
    build(4, &[(0, 1, 2), (0, 2, 1), (1, 2, 1), (1, 3, 1), (2, 3, 2)])
}

fn chain() -> Graph {
    build(4, &[(0, 1, 10), (1, 2, 1), (2, 3, 10)])
}

fn assert_feasible(graph: &Graph, source: usize, sink: usize) {
    let mut balance = vec![0i64; graph.num_nodes()];
    for edge_id in 0..graph.num_edges() {
        let edge = graph.get_edge(edge_id).unwrap();
        assert!(0 <= edge.flow && edge.flow <= edge.upper);
        balance[edge.from] += edge.flow;
        balance[edge.to] -= edge.flow;
    }
    for u in 0..graph.num_nodes() {
        if u != source && u != sink {
            assert_eq!(balance[u], 0);
        }
    }
    assert_eq!(balance[source], graph.maximum_flow(source));
    assert_eq!(balance[sink], -graph.maximum_flow(source));
}

fn assert_no_augmenting_path(graph: &Graph, source: usize, sink: usize) {
    let mut reached = vec![false; graph.num_nodes()];
    reached[source] = true;
    let mut grew = true;
    while grew {
        grew = false;
        for edge_id in 0..graph.num_edges() {
            let edge = graph.get_edge(edge_id).unwrap();
            if reached[edge.from] && !reached[edge.to] && edge.flow < edge.upper {
                reached[edge.to] = true;
                grew = true;
            }
            if reached[edge.to] && !reached[edge.from] && edge.flow > 0 {
                reached[edge.from] = true;
                grew = true;
            }
        }
    }
    assert!(!reached[sink]);
}

fn solve_with(solver: usize, source: usize, sink: usize, graph: &mut Graph) -> Status {
    match solver {
        0 => FordFulkerson::default().solve(source, sink, graph),
        1 => EdmondsKarp::default().solve(source, sink, graph),
        2 => Dinic::default().solve(source, sink, graph),
        3 => CapacityScaling::default().solve(source, sink, graph),
        4 => ShortestAugmentingPath::default().solve(source, sink, graph),
        5 => PushRelabelFIFO::default().solve(source, sink, graph),
        _ => PushRelabelFIFO::new(6).solve(source, sink, graph),
    }
}

fn check_all(make: fn() -> Graph, source: usize, sink: usize, expected: i64) {
    for solver in 0..7 {
        let mut graph = make();
        assert_eq!(solve_with(solver, source, sink, &mut graph), Status::Optimal, "solver {}", solver);
        assert_eq!(graph.maximum_flow(source), expected, "solver {}", solver);
        assert_feasible(&graph, source, sink);
        assert_no_augmenting_path(&graph, source, sink);
    }
}

fn layered() -> Graph {
    build(
        8,
        &[
            (0, 1, 7),
            (0, 2, 4),
            (0, 3, 9),
            (1, 4, 3),
            (1, 5, 5),
            (2, 4, 2),
            (2, 6, 6),
            (3, 5, 4),
            (3, 6, 3),
            (4, 7, 6),
            (5, 7, 5),
            (6, 7, 8),
            (5, 4, 2),
            (6, 5, 1),
            (4, 0, 3),
            (7, 3, 2),
            (2, 2, 5),
        ],
    )
}

fn disconnected() -> Graph {
    build(5, &[(0, 1, 4), (1, 0, 2), (2, 3, 5), (3, 4, 1)])
}

fn without_capacity() -> Graph {
    build(3, &[(0, 1, 0), (1, 2, 0)])
}

fn without_edges() -> Graph {
    build(2, &[])
}

#[test]
fn graph_builder_counts_nodes_and_edges() {
    let mut graph = Graph::default();
    assert_eq!(graph.add_node(), 0);
    assert_eq!(graph.add_nodes(3), vec![1, 2, 3]);
    assert_eq!(graph.num_nodes(), 4);
    assert_eq!(graph.add_directed_edge(0, 1, 5), Some(0));
    assert_eq!(graph.add_directed_edge(1, 3, 7), Some(1));
    assert_eq!(graph.num_edges(), 2);
    assert_eq!(graph.get_edge(1), Some(Edge { from: 1, to: 3, flow: 0, upper: 7 }));
    assert_eq!(graph.get_edge(2), None);
}

#[test]
fn graph_builder_refuses_unknown_endpoints() {
    let mut graph = Graph::default();
    graph.add_nodes(2);
    assert_eq!(graph.add_directed_edge(0, 2, 1), None);
    assert_eq!(graph.add_directed_edge(2, 0, 1), None);
    assert_eq!(graph.num_edges(), 0);
}

#[test]
fn maximum_flow_counts_net_outflow() {
    let mut graph = build(3, &[(0, 1, 5), (2, 0, 4), (0, 0, 9)]);
    assert_eq!(graph.maximum_flow(0), 0);
    assert_eq!(FordFulkerson::default().solve(0, 1, &mut graph), Status::Optimal);
    assert_eq!(graph.maximum_flow(0), 5);
    assert_eq!(graph.maximum_flow(1), -5);
    assert_eq!(graph.maximum_flow(2), 0);
}

#[test]
fn all_solvers_diamond() {
    check_all(diamond, 0, 3, 3);
}

#[test]
fn all_solvers_saturated_bottleneck() {
    check_all(chain, 0, 3, 1);
}

#[test]
fn all_solvers_layered_network() {
    check_all(layered, 0, 7, 17);
}

#[test]
fn all_solvers_unreachable_sink() {
    check_all(disconnected, 0, 4, 0);
}

#[test]
fn all_solvers_zero_capacities() {
    check_all(without_capacity, 0, 2, 0);
}

#[test]
fn all_solvers_no_edges() {
    check_all(without_edges, 0, 1, 0);
}

#[test]
fn ford_fulkerson_diamond() {
    let mut graph = diamond();
    assert_eq!(FordFulkerson::default().solve(0, 3, &mut graph), Status::Optimal);
    assert_eq!(graph.maximum_flow(0), 3);
}

#[test]
fn push_relabel_refuses_bad_endpoints() {
    let mut graph = diamond();
    assert_eq!(PushRelabelFIFO::default().solve(0, 0, &mut graph), Status::BadInput);
    assert_eq!(PushRelabelFIFO::default().solve(4, 0, &mut graph), Status::BadInput);
    assert_eq!(PushRelabelFIFO::default().solve(0, 9, &mut graph), Status::BadInput);
    assert_eq!(graph.get_edge(0), Some(Edge { from: 0, to: 1, flow: 0, upper: 2 }));
}

#[test]
fn solving_twice_gives_the_same_result() {
    for solver in 0..7 {
        let mut graph = layered();
        assert_eq!(solve_with(solver, 0, 7, &mut graph), Status::Optimal);
        let first: Vec<Edge> = (0..graph.num_edges()).map(|e| graph.get_edge(e).unwrap()).collect();
        assert_eq!(solve_with(solver, 0, 7, &mut graph), Status::Optimal);
        let second: Vec<Edge> = (0..graph.num_edges()).map(|e| graph.get_edge(e).unwrap()).collect();
        assert_eq!(first, second);
    }
}

#[test]
fn solvers_agree_on_generated_networks() {
    let mut seed: u64 = 12345;
    let mut next = move |bound: u64| {
        seed = seed.wrapping_mul(6364136223846793005).wrapping_add(1442695040888963407);
        (seed >> 33) % bound
    };
    for _ in 0..60 {
        let n = 2 + next(10) as usize;
        let m = next(30) as usize;
        let mut edges = Vec::new();
        for _ in 0..m {
            edges.push((next(n as u64) as usize, next(n as u64) as usize, next(11) as i64));
        }
        let mut values = Vec::new();
        for solver in 0..7 {
            let mut graph = build(n, &edges);
            assert_eq!(solve_with(solver, 0, n - 1, &mut graph), Status::Optimal);
            assert_feasible(&graph, 0, n - 1);
            assert_no_augmenting_path(&graph, 0, n - 1);
            values.push(graph.maximum_flow(0));
        }
        for value in &values {
            assert_eq!(*value, values[0]);
        }
    }
}
