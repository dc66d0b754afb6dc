pub mod capacity_scaling;
pub mod csr;
pub mod cut;
pub mod dinic;
pub mod edmonds_karp;
pub mod ford_fulkerson;
pub mod graph;
pub mod push_relabel_fifo;
pub mod shortest_augmenting_path;
pub mod status;
