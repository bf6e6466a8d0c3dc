//! Topological mode-seeking clustering (ToMATo) over a neighborhood graph.
//!
//! Given a graph over `n` vertices and a density value per vertex, the
//! library sweeps the vertices in decreasing density order, grows clusters
//! around density modes, and merges clusters whose persistence falls below
//! a threshold `tau`. Densities are carried as `i64` values on a caller
//! chosen integer scale; squared distances enter as `u64` order keys, so
//! that comparing keys compares distances.

pub mod backend;
pub mod graph;
pub mod graph_build;
pub mod knn;
pub mod order;
pub mod seqs;
pub mod sweep;
pub mod tomato;
pub mod uf;

pub use backend::HnswParams;
pub use graph::Graph;
pub use tomato::TomatoError;
pub use tomato::TomatoParams;
pub use tomato::TomatoResult;
pub use tomato::tomato_cluster;
