//! Support containers for clients of the trees.
pub mod vector;
pub mod persistent_stack;
pub mod double_linked_list;
