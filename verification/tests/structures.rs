use network_algorithms::adjacency::arc_layout;
use network_algorithms::arith::{div_nonneg, div_toward_zero, floor_sqrt, sat_add, sat_mul, sat_neg, sat_sub};
use network_algorithms::maximum_flow::csr::{InsideEdge, CSR};
use network_algorithms::maximum_flow::dinic::Dinic;
use network_algorithms::maximum_flow::graph::Graph;
use network_algorithms::maximum_flow::status::Status;
use network_algorithms::min_queue::MinQueue;

fn diamond() -> Graph {
    let mut graph = Graph::default();
    graph.add_nodes(4);
    for &(from, to, upper) in &[(0, 1, 2), (0, 2, 1), (1, 2, 1), (1, 3, 1), (2, 3, 2)] {
        graph.add_directed_edge(from, to, upper).unwrap();
    }
    graph
}

#[test]
fn saturating_arithmetic_stops_at_the_limits() {
    assert_eq!(sat_add(3, 4), 7);
    assert_eq!(sat_add(i64::MAX, 1), i64::MAX);
    assert_eq!(sat_add(i64::MIN, -1), i64::MIN);
    assert_eq!(sat_sub(3, 4), -1);
    assert_eq!(sat_sub(i64::MIN, 1), i64::MIN);
    assert_eq!(sat_sub(i64::MAX, -1), i64::MAX);
    assert_eq!(sat_neg(5), -5);
    assert_eq!(sat_neg(i64::MIN), i64::MAX);
    assert_eq!(sat_mul(6, -7), -42);
    assert_eq!(sat_mul(i64::MAX, 2), i64::MAX);
    assert_eq!(sat_mul(i64::MAX, -2), i64::MIN);
}

#[test]
fn quotients_and_roots() {
    assert_eq!(div_nonneg(17, 5), 3);
    assert_eq!(div_nonneg(0, 5), 0);
    assert_eq!(div_toward_zero(17, 5), 3);
    assert_eq!(div_toward_zero(-17, 5), -3);
    assert_eq!(div_toward_zero(i64::MIN, 1), i64::MIN);
    assert_eq!(floor_sqrt(0), 0);
    assert_eq!(floor_sqrt(1), 1);
    assert_eq!(floor_sqrt(15), 3);
    assert_eq!(floor_sqrt(16), 4);
    assert_eq!(floor_sqrt(1_000_000), 1000);
}

#[test]
fn queue_gives_least_key_and_greatest_node_first() {
    let mut queue = MinQueue::new();
    assert_eq!(queue.pop(), None);
    queue.push(5, 1);
    queue.push(3, 2);
    queue.push(3, 7);
    queue.push(9, 0);
    assert_eq!(queue.len(), 4);
    assert_eq!(queue.pop(), Some((3, 7)));
    assert_eq!(queue.pop(), Some((3, 2)));
    assert_eq!(queue.pop(), Some((5, 1)));
    assert_eq!(queue.pop(), Some((9, 0)));
    assert_eq!(queue.pop(), None);
}

#[test]
fn layout_gives_every_pair_two_slots() {
    let ends = vec![(0, 1), (0, 2), (1, 2), (2, 2)];
    let layout = arc_layout(3, &ends);
    assert_eq!(layout.start, vec![0, 2, 4, 8]);
    assert_eq!(layout.forward, vec![0, 1, 3, 6]);
    assert_eq!(layout.backward, vec![2, 4, 5, 7]);
}

#[test]
fn residual_graph_pairs_arcs() {
    let mut graph = diamond();
    let mut csr = CSR::default();
    csr.build(&mut graph);
    assert_eq!(csr.num_nodes, 4);
    assert_eq!(csr.num_edges, 5);
    assert_eq!(csr.start, vec![0, 2, 5, 8, 10]);
    assert_eq!(csr.distances, vec![4, 4, 4, 4]);
    for (edge_id, &arc) in csr.edge_index_to_inside_edge_index.iter().enumerate() {
        let edge = graph.get_edge(edge_id).unwrap();
        let forward = csr.inside_edge_list[arc];
        let backward = csr.inside_edge_list[forward.rev];
        assert_eq!(forward, InsideEdge { to: edge.to, flow: 0, upper: edge.upper, rev: forward.rev });
        assert_eq!(backward, InsideEdge { to: edge.from, flow: edge.upper, upper: edge.upper, rev: arc });
        assert!(csr.start[edge.from] <= arc && arc < csr.start[edge.from + 1]);
        assert!(csr.start[edge.to] <= forward.rev && forward.rev < csr.start[edge.to + 1]);
    }
    assert_eq!(csr.neighbors(0).len(), 2);
    assert_eq!(csr.neighbors(2).len(), 3);
}

#[test]
fn residual_capacity_is_room_left() {
    let arc = InsideEdge { to: 1, flow: 3, upper: 10, rev: 0 };
    assert_eq!(arc.residual_capacity(), 7);
    assert_eq!(InsideEdge::default(), InsideEdge { to: 0, flow: 0, upper: 0, rev: 0 });
}

#[test]
fn push_moves_flow_between_paired_arcs() {
    let mut graph = diamond();
    let mut csr = CSR::default();
    csr.build(&mut graph);
    let arc = csr.edge_index_to_inside_edge_index[4];
    let rev = csr.inside_edge_list[arc].rev;
    csr.push_flow(arc, 2);
    assert_eq!(csr.inside_edge_list[arc].flow, 2);
    assert_eq!(csr.inside_edge_list[rev].flow, 0);
    csr.push_flow(rev, 1);
    assert_eq!(csr.inside_edge_list[arc].flow, 1);
    assert_eq!(csr.inside_edge_list[rev].flow, 1);
    csr.set_flow(&mut graph);
    assert_eq!(graph.get_edge(4).unwrap().flow, 1);
    assert_eq!(graph.get_edge(0).unwrap().flow, 0);
}

#[test]
fn distance_labels_count_arcs_to_the_sink() {
    let mut graph = diamond();
    let mut csr = CSR::default();
    csr.build(&mut graph);
    csr.update_distances(0, 3);
    assert_eq!(csr.distances, vec![2, 1, 1, 0]);
    let first = csr.edge_index_to_inside_edge_index[0];
    let third = csr.edge_index_to_inside_edge_index[2];
    assert!(csr.is_admissible_edge(0, first));
    assert!(!csr.is_admissible_edge(1, third));
    // with the two edges into the sink full, no node reaches the sink
    let a = csr.edge_index_to_inside_edge_index[3];
    let b = csr.edge_index_to_inside_edge_index[4];
    csr.push_flow(a, 1);
    csr.push_flow(b, 2);
    csr.update_distances(0, 3);
    assert_eq!(csr.distances, vec![4, 4, 4, 0]);
}

#[test]
fn blocking_flows_complete_a_flow_that_was_begun() {
    let mut graph = diamond();
    let mut solver = Dinic::default();
    solver.csr.build(&mut graph);
    solver.current_edge = vec![0; 4];
    let first = solver.csr.edge_index_to_inside_edge_index[0];
    let fourth = solver.csr.edge_index_to_inside_edge_index[3];
    solver.csr.push_flow(first, 1);
    solver.csr.push_flow(fourth, 1);
    solver.run(0, 3);
    solver.csr.set_flow(&mut graph);
    assert_eq!(graph.maximum_flow(0), 3);
}

#[test]
fn minimum_cut_lists_the_source_side() {
    let mut graph = diamond();
    assert_eq!(graph.minimum_cut(0), vec![0, 1, 2, 3]);
    assert_eq!(Dinic::default().solve(0, 3, &mut graph), Status::Optimal);
    assert_eq!(graph.minimum_cut(0), vec![0]);

    let mut chain = Graph::default();
    chain.add_nodes(4);
    chain.add_directed_edge(0, 1, 10).unwrap();
    chain.add_directed_edge(1, 2, 1).unwrap();
    chain.add_directed_edge(2, 3, 10).unwrap();
    assert_eq!(Dinic::default().solve(0, 3, &mut chain), Status::Optimal);
    assert_eq!(chain.minimum_cut(0), vec![0, 1]);
    assert_eq!(chain.minimum_cut(3), vec![3, 2, 1, 0]);
    assert_eq!(chain.minimum_cut(2), vec![2, 1, 3, 0]);

    let mut lonely = Graph::default();
    lonely.add_nodes(2);
    assert_eq!(lonely.minimum_cut(1), vec![1]);
}

#[test]
fn default_status_is_not_solved() {
    assert_eq!(Status::default(), Status::NotSolved);
    assert_eq!(
        network_algorithms::minimum_cost_flow::status::Status::default(),
        network_algorithms::minimum_cost_flow::status::Status::NotSolved
    );
}

#[test]
fn labels_reach_beyond_the_source() {
    let mut graph = Graph::default();
    graph.add_nodes(4);
    graph.add_directed_edge(0, 1, 1).unwrap();
    graph.add_directed_edge(1, 2, 1).unwrap();
    graph.add_directed_edge(2, 3, 1).unwrap();
    let mut csr = CSR::default();
    csr.build(&mut graph);
    csr.update_distances(1, 3);
    assert_eq!(csr.distances, vec![3, 2, 1, 0]);
    // the slots of a node lie behind those of the nodes below it, in the order of the edges
    assert_eq!(csr.start, vec![0, 1, 3, 5, 6]);
    assert_eq!(csr.edge_index_to_inside_edge_index, vec![0, 2, 4]);
}

#[test]
fn new_nodes_have_no_excess() {
    let mut graph = Graph::default();
    graph.add_node();
    graph.add_nodes(3);
    assert_eq!(graph.excesses, vec![0, 0, 0, 0]);
    assert_eq!(graph.add_nodes(0), Vec::<usize>::new());
    assert_eq!(graph.num_nodes(), 4);
}
