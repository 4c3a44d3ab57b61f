//! Process-flow topology engine: the data model of a production-line
//! topology, a directed graph built from it with breadth-first and
//! depth-first traversals, Kahn's topological sort, dependency chains and
//! bottleneck ranking, together with the decisions the message server takes.

pub mod models;
pub mod digraph;
pub mod edges;
pub mod graph;
pub mod bfs;
pub mod kahn;
pub mod dfs;
pub mod laws;
pub mod messages;
pub mod session;
pub mod config;
