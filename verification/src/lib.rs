//! Verified optimization and reactive-scope passes of a React compiler,
//! operating on a control-flow-graph IR (HIR) and a tree-shaped reactive IR.

pub mod text;
pub mod fxhash;
pub mod hir;
pub mod optimization;
pub mod reactive_scopes;
