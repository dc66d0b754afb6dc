use network_algorithms::minimum_cost_flow::graph::Graph;
use network_algorithms::minimum_cost_flow::network_simplex_pivot_rules::{
    AlteringCandidateListPivotRule, BestEligibleArcPivotRule, BlockSearchPivotRule, CandidateListPivotRule,
    FirstEligibleArcPivotRule, PivotRule,
};
use network_algorithms::minimum_cost_flow::primal_network_simplex::{copy_flows, potentials_of};
use network_algorithms::minimum_cost_flow::spanning_tree_structure::{
    EdgeState, InternalEdge, Node, SpanningTreeStructure,
};

const NONE: usize = usize::MAX;

fn chain_graph() -> Graph {
    let mut graph = Graph::default();
    graph.add_nodes(4);
    graph.add_directed_edge(0, 1, 0, 5, 1).unwrap();
    graph.add_directed_edge(1, 2, 0, 5, 2).unwrap();
    graph.add_directed_edge(0, 2, 0, 5, 4).unwrap();
    graph.add_directed_edge(2, 3, 0, 5, 1).unwrap();
    graph.add_supply(0, 3);
    graph.add_demand(3, 3);
    graph
}

fn built() -> SpanningTreeStructure {
    let mut graph = chain_graph();
    let mut st = SpanningTreeStructure::default();
    st.build(&mut graph);
    st
}

/// The tree of the shortest paths from node 0: 0 - 1 - 2 - 3.
fn grown() -> SpanningTreeStructure {
    let mut st = built();
    st.root = 0;
    st.nodes = vec![
        Node { parent: NONE, parent_edge_id: NONE, potential: 0 },
        Node { parent: 0, parent_edge_id: 0, potential: -1 },
        Node { parent: 1, parent_edge_id: 1, potential: -3 },
        Node { parent: 2, parent_edge_id: 3, potential: -4 },
    ];
    for edge_id in [0, 1, 3] {
        st.edges[edge_id].state = EdgeState::Tree;
    }
    st.next_node_dft = vec![1, 2, 3, 0];
    st.prev_node_dft = vec![NONE, 0, 1, 2];
    st.last_descendent_dft = vec![3, 3, 3, 3];
    st.num_successors = vec![4, 3, 2, 1];
    st
}

fn violation_by_flow(edge: &InternalEdge, _st: &SpanningTreeStructure) -> i64 {
    edge.flow
}

#[test]
fn internal_edge_reads_its_flow() {
    let edge = InternalEdge { from: 3, to: 8, upper: 10, cost: 2, flow: 4, state: EdgeState::Tree };
    assert!(edge.is_feasible());
    assert!(!edge.is_lower());
    assert!(!edge.is_upper());
    assert_eq!(edge.residual_capacity(), 6);
    assert_eq!(edge.opposite_side(3), 8);
    assert_eq!(edge.opposite_side(8), 3);
    let empty = InternalEdge { flow: 0, ..edge };
    let full = InternalEdge { flow: 10, ..edge };
    let over = InternalEdge { flow: 11, ..edge };
    assert!(empty.is_lower() && full.is_upper());
    assert!(!over.is_feasible());
    assert!(!InternalEdge { flow: -1, ..edge }.is_feasible());
    assert_eq!(InternalEdge::default().state, EdgeState::Lower);
    assert_eq!(EdgeState::default(), EdgeState::Lower);
    assert_eq!(Node::default(), Node { parent: 0, parent_edge_id: 0, potential: 0 });
}

#[test]
fn build_takes_nodes_and_edges_over() {
    let st = built();
    assert_eq!(st.num_nodes, 4);
    assert_eq!(st.num_edges, 4);
    assert_eq!(st.excesses, vec![3, 0, 0, -3]);
    assert_eq!(st.root, NONE);
    assert_eq!(st.edges[2], InternalEdge { from: 0, to: 2, upper: 5, cost: 4, flow: 0, state: EdgeState::Lower });
    assert_eq!(st.nodes[1], Node { parent: NONE, parent_edge_id: NONE, potential: 0 });
    assert_eq!(st.num_successors, vec![0, 0, 0, 0]);
    assert!(!st.satisfy_constraints());
    assert!(st.satisfy_optimality_conditions());
}

#[test]
fn reduced_cost_uses_potentials() {
    let mut st = built();
    st.nodes[2].potential = 3;
    st.nodes[3].potential = 3;
    let edge = st.edges[2];
    assert_eq!(st.reduced_cost(&edge), 4 - 0 + 3);
    assert!(st.satisfy_optimality_conditions());
    st.edges[2].state = EdgeState::Upper;
    assert!(!st.satisfy_optimality_conditions());
    st.edges[2].state = EdgeState::Tree;
    assert!(!st.satisfy_optimality_conditions());
    st.nodes[0].potential = 7;
    st.nodes[1].potential = 7;
    let edge = st.edges[1];
    assert_eq!(st.reduced_cost(&edge), 2 - 7 + 3);
    assert!(!st.satisfy_optimality_conditions());
    st.edges[1].state = EdgeState::Upper;
    assert!(st.satisfy_optimality_conditions());
    st.edges[1].upper = 0;
    st.edges[1].state = EdgeState::Lower;
    assert!(st.satisfy_optimality_conditions());
}

#[test]
fn shortest_paths_over_the_edges() {
    let st = built();
    let (distances, prev) = st.shortest_path(0);
    assert_eq!(distances, vec![0, 1, 3, 4]);
    assert_eq!(prev, vec![None, Some(0), Some(1), Some(3)]);
    let (distances, prev) = st.shortest_path(2);
    assert_eq!(distances, vec![9, 9, 0, 1]);
    assert_eq!(prev, vec![None, None, None, Some(3)]);
}

#[test]
fn threaded_tree_of_shortest_paths_is_consistent() {
    let st = grown();
    let (distances, prev) = st.shortest_path(0);
    for u in 1..4 {
        let edge = st.edges[prev[u].unwrap()];
        assert_eq!(st.nodes[u].parent, edge.from);
        assert_eq!(st.nodes[u].potential, -distances[u]);
        assert_eq!(st.reduced_cost(&edge), 0);
    }
    assert!(st.validate_num_successors(0));
    assert!(st.satisfy_optimality_conditions());
    assert_eq!(potentials_of(&st), vec![0, -1, -3, -4]);
}

#[test]
fn wrong_counts_of_successors_are_found() {
    let mut st = grown();
    st.num_successors[1] = 2;
    assert!(!st.validate_num_successors(0));
    let mut open = grown();
    open.next_node_dft[3] = NONE;
    assert!(!open.validate_num_successors(0));
}

#[test]
fn flow_moves_along_the_tree_path() {
    let mut st = grown();
    st.update_flow_in_path(0, 3, 3);
    assert_eq!(st.edges.iter().map(|e| e.flow).collect::<Vec<_>>(), vec![3, 3, 0, 3]);
    assert_eq!(st.excesses, vec![0, 0, 0, 0]);
    assert!(st.satisfy_constraints());
    st.update_flow_in_path(1, 3, -1);
    assert_eq!(st.edges.iter().map(|e| e.flow).collect::<Vec<_>>(), vec![3, 2, 0, 2]);
    assert_eq!(st.excesses, vec![0, 1, 0, -1]);
}

#[test]
fn flow_moves_around_the_cycle_of_an_entering_edge() {
    let mut st = grown();
    st.update_flow_in_path(0, 3, 3);
    // edge 2 leads from 0 to 2 and closes a cycle with the tree path 0 - 1 - 2
    st.update_flow_in_cycle(2, 2, 0);
    assert_eq!(st.edges.iter().map(|e| e.flow).collect::<Vec<_>>(), vec![1, 1, 2, 3]);
    st.edges[2].state = EdgeState::Upper;
    st.update_flow_in_cycle(2, 1, 0);
    assert_eq!(st.edges.iter().map(|e| e.flow).collect::<Vec<_>>(), vec![2, 2, 1, 3]);
}

#[test]
fn subtree_is_detached_and_attached_elsewhere() {
    let mut st = grown();
    st.update_flow_in_path(0, 3, 3);
    // edge 1 leaves the tree: the subtree of node 2 is cut off
    st.detach_tree(0, 2, 1);
    assert_eq!(st.edges[1].state, EdgeState::Upper);
    assert_eq!(st.nodes[2].parent, NONE);
    assert_eq!(st.nodes[2].parent_edge_id, NONE);
    assert_eq!(st.num_successors, vec![2, 1, 2, 1]);
    assert_eq!(st.next_node_dft, vec![1, 0, 3, 2]);
    assert_eq!(st.last_descendent_dft, vec![1, 1, 3, 3]);
    // edge 2 enters the tree: the subtree hangs below node 0
    st.re_rooting(2, 2, 2);
    assert_eq!(st.nodes[2].potential, -4);
    assert_eq!(st.nodes[3].potential, -5);
    st.attach_tree(0, 0, 2, 2);
    assert_eq!(st.edges[2].state, EdgeState::Tree);
    assert_eq!(st.nodes[2], Node { parent: 0, parent_edge_id: 2, potential: -4 });
    assert_eq!(st.num_successors, vec![4, 1, 2, 1]);
    assert_eq!(st.next_node_dft, vec![1, 2, 3, 0]);
    assert_eq!(st.last_descendent_dft, vec![3, 1, 3, 3]);
    assert!(st.validate_num_successors(0));
}

#[test]
fn subtree_gets_a_new_root() {
    let mut st = grown();
    st.detach_tree(0, 1, 0);
    assert_eq!(st.edges[0].state, EdgeState::Lower);
    assert_eq!(st.num_successors, vec![1, 3, 2, 1]);
    // node 2 becomes the root of the subtree 1 - 2 - 3, which edge 2 then joins to node 0
    st.re_rooting(1, 2, 2);
    assert_eq!(st.nodes[2].parent, NONE);
    assert_eq!(st.nodes[1], Node { parent: 2, parent_edge_id: 1, potential: -2 });
    assert_eq!(st.nodes[3].parent, 2);
    assert_eq!(st.num_successors[2], 3);
    assert_eq!(st.num_successors[1], 1);
    st.attach_tree(0, 0, 2, 2);
    assert!(st.validate_num_successors(0));
    // the tree edges are tight; the edge that left is cheaper than the path that replaced it
    for edge_id in 1..4 {
        let edge = st.edges[edge_id];
        assert_eq!(edge.state, EdgeState::Tree);
        assert_eq!(st.reduced_cost(&edge), 0);
    }
    let left = st.edges[0];
    assert_eq!(st.reduced_cost(&left), -1);
    assert!(!st.satisfy_optimality_conditions());
}

#[test]
fn flows_are_copied_within_the_capacities() {
    let mut graph = chain_graph();
    let mut st = SpanningTreeStructure::default();
    st.build(&mut graph);
    st.edges[0].flow = 3;
    st.edges[1].flow = 9;
    st.edges[2].flow = -2;
    st.excesses = vec![1, 2, 3, 4];
    copy_flows(&st, &mut graph);
    assert_eq!((0..4).map(|e| graph.get_edge(e).unwrap().flow).collect::<Vec<_>>(), vec![3, 5, 0, 0]);
    assert_eq!(graph.excesses, vec![1, 2, 3, 4]);
}

fn with_flows(flows: &[i64]) -> SpanningTreeStructure {
    let mut graph = Graph::default();
    graph.add_nodes(2);
    for _ in flows {
        graph.add_directed_edge(0, 1, 0, 100, 1).unwrap();
    }
    let mut st = SpanningTreeStructure::default();
    st.build(&mut graph);
    for (edge_id, &flow) in flows.iter().enumerate() {
        st.edges[edge_id].flow = flow;
    }
    st
}

#[test]
fn best_eligible_arc_has_the_greatest_violation() {
    let st = with_flows(&[0, 4, 9, 9, 2]);
    let mut rule = BestEligibleArcPivotRule::new(5);
    assert_eq!(rule.find_entering_edge(&st, violation_by_flow), Some(2));
    let calm = with_flows(&[0, -1, 0]);
    assert_eq!(rule.find_entering_edge(&calm, violation_by_flow), None);
    let empty = with_flows(&[]);
    assert_eq!(rule.find_entering_edge(&empty, violation_by_flow), None);
}

#[test]
fn first_eligible_arc_goes_on_from_where_it_stopped() {
    let st = with_flows(&[0, 4, 0, 9, 2]);
    let mut rule = FirstEligibleArcPivotRule::new(5);
    assert_eq!(rule.find_entering_edge(&st, violation_by_flow), Some(1));
    assert_eq!(rule.find_entering_edge(&st, violation_by_flow), Some(1));
    rule.current_edge_id = 2;
    assert_eq!(rule.find_entering_edge(&st, violation_by_flow), Some(3));
    rule.current_edge_id = 4;
    assert_eq!(rule.find_entering_edge(&st, violation_by_flow), Some(4));
    let calm = with_flows(&[0, 0, 0, 0, 0]);
    assert_eq!(rule.find_entering_edge(&calm, violation_by_flow), None);
    let late = with_flows(&[3, 0, 0, 0, 0]);
    assert_eq!(rule.find_entering_edge(&late, violation_by_flow), Some(0));
}

#[test]
fn block_search_takes_the_best_of_the_first_block_that_has_one() {
    let st = with_flows(&[0, 0, 1, 5, 0, 9]);
    let mut rule = BlockSearchPivotRule::with_block_size(2);
    assert_eq!(rule.block_size, 2);
    assert_eq!(rule.find_entering_edge(&st, violation_by_flow), Some(3));
    let mut wide = BlockSearchPivotRule::with_block_size(4);
    assert_eq!(wide.find_entering_edge(&st, violation_by_flow), Some(3));
    let mut whole = BlockSearchPivotRule::new(6);
    assert_eq!(whole.block_size, 10);
    assert_eq!(whole.find_entering_edge(&st, violation_by_flow), Some(5));
    assert_eq!(BlockSearchPivotRule::new(400).block_size, 20);
    let calm = with_flows(&[0, 0, 0]);
    assert_eq!(rule.find_entering_edge(&calm, violation_by_flow), None);
}

#[test]
fn candidate_list_is_searched_before_it_is_built_anew() {
    let mut st = with_flows(&[0, 4, 0, 9, 2, 7]);
    let mut rule = CandidateListPivotRule::with_sizes(2, 3);
    // the list takes the first two edges with a violation
    assert_eq!(rule.find_entering_edge(&st, violation_by_flow), Some(3));
    assert_eq!(rule.current_size, 2);
    assert_eq!(rule.candidates, vec![1, 3]);
    // minor iterations select from the list
    st.edges[3].flow = 0;
    assert_eq!(rule.find_entering_edge(&st, violation_by_flow), Some(1));
    assert_eq!(rule.current_size, 1);
    st.edges[1].flow = 0;
    // the list runs empty: it is built anew from where the search stopped
    assert_eq!(rule.find_entering_edge(&st, violation_by_flow), Some(5));
    assert_eq!(rule.candidates, vec![4, 5]);
    let calm = with_flows(&[0, 0, 0, 0, 0, 0]);
    assert_eq!(rule.find_entering_edge(&calm, violation_by_flow), None);

    let usual = CandidateListPivotRule::new(100);
    assert_eq!(usual.candidate_list_size, 10);
    assert_eq!(usual.minor_count_limit, 3);
    let large = CandidateListPivotRule::new(1_000_000);
    assert_eq!(large.candidate_list_size, 250);
    assert_eq!(large.minor_count_limit, 25);
}

#[test]
fn altering_candidate_list_gives_the_best_and_keeps_the_next() {
    let mut st = with_flows(&[3, 8, 0, 5, 1, 9]);
    let mut rule = AlteringCandidateListPivotRule::with_sizes(3, 1);
    // the first block holds edges 0 and 1: more than the head can keep
    assert_eq!(rule.find_entering_edge(&st, violation_by_flow), Some(1));
    assert_eq!(rule.current_size, 1);
    assert_eq!(rule.candidates[0], (0, 3));
    st.edges[1].flow = 0;
    // edge 0 is kept, the next block adds edges 3 and 4
    assert_eq!(rule.find_entering_edge(&st, violation_by_flow), Some(3));
    assert_eq!(rule.current_size, 1);
    let calm = with_flows(&[0, 0, 0, 0, 0, 0]);
    assert_eq!(rule.find_entering_edge(&calm, violation_by_flow), None);
    assert_eq!(rule.current_size, 0);

    let usual = AlteringCandidateListPivotRule::new(100);
    assert_eq!(usual.block_size, 10);
    assert_eq!(usual.head_length, 3);
    assert_eq!(usual.candidates.len(), 13);
    let large = AlteringCandidateListPivotRule::new(1_000_000);
    assert_eq!(large.block_size, 1000);
    assert_eq!(large.head_length, 10);
}

#[test]
fn altering_candidate_list_gives_the_greatest_of_three() {
    let st = with_flows(&[2, 4, 1]);
    let mut rule = AlteringCandidateListPivotRule::new(3);
    assert_eq!(rule.find_entering_edge(&st, violation_by_flow), Some(1));
    // the two others are kept, the greater of them in front
    assert_eq!(rule.current_size, 2);
    assert_eq!(rule.candidates[1], (0, 2));
    assert_eq!(rule.candidates[0], (2, 1));
}

#[test]
fn candidate_list_gives_the_best_listed_edge_again() {
    let st = with_flows(&[-2, 2, 4]);
    let mut rule = CandidateListPivotRule::new(3);
    assert_eq!(rule.find_entering_edge(&st, violation_by_flow), Some(2));
    assert_eq!(rule.current_size, 2);
    assert_eq!(rule.candidates[..2], [1, 2]);
    assert_eq!(rule.find_entering_edge(&st, violation_by_flow), Some(2));
    assert_eq!(rule.candidates[..2], [1, 2]);
    assert_eq!(rule.minor_count, 2);
}
