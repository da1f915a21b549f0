//! Balanced binary trees that represent sequences: the node capabilities, the
//! concrete node kinds, and the AVL and splay engines.
pub mod node_traits;
pub mod nodes;
pub mod avl_tree_array;
pub mod splay_tree_array;
pub mod laws;
