//! Sequence and forest containers built on balanced binary trees, parameterised
//! over an algebraic value domain.
pub mod algebra;
mod sharing;
pub mod bbstree;
pub mod container;
pub mod lctree;
pub mod segment_tree;
