//! Re-export chain resolution: how references reaching a barrel file are
//! attached to the exports of the module it re-exports from, and the
//! re-export cycles of the module graph.

pub mod attach;
pub mod bound;
pub mod cycles;
pub mod graph;
pub mod propagate;
pub mod resolve;
pub mod settle;
