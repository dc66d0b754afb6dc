pub mod cost_scaling_push_relabel;
pub mod csr;
pub mod cycle_canceling;
pub mod dual_network_simplex;
pub mod feasibility;
pub mod finishing;
pub mod graph;
pub mod network_simplex_pivot_rules;
pub mod optimality;
pub mod out_of_kilter;
pub mod parametric_network_simplex;
pub mod path_costs;
pub mod primal_dual;
pub mod primal_network_simplex;
pub mod pushing;
pub mod spanning_tree_structure;
pub mod status;
pub mod successive_shortest_path;
pub mod threading;
