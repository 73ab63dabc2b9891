//! Dynamic computation graphs: cells hold values, thunks and memos derive
//! values from other nodes, and mutating a cell dirties exactly the edges
//! downstream of it so that memos recompute only when needed.

pub mod graph;
pub mod model;
pub mod dcg;

pub use dcg::Dcg;
pub use model::{Cell, DcgNode, Formula, Memo, Node, Thunk};
