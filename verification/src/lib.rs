pub mod adjacency;
pub mod arith;
pub mod counting;
pub mod maximum_flow;
pub mod min_queue;
pub mod minimum_cost_flow;
pub mod network;
