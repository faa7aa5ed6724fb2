//! An append-only directed graph stored in arenas and addressed by handles,
//! with depth-first and breadth-first walks and a maximum-flow solver.

pub mod bfs;
pub mod bfs_laws;
pub mod dfs;
pub mod dfs_laws;
pub mod duality;
pub mod flow;
pub mod graph;
pub mod growth;
pub mod handle;
pub mod reach;
pub mod residual;
pub mod search;
pub mod solver;
pub mod traverse;

pub use flow::FlowError;
pub use graph::Graph;
pub use graph::GraphView;
pub use handle::EdgeRef;
pub use handle::NodeRef;
pub use traverse::Visit;
