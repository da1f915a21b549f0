//! A link/cut forest: rooted trees whose topology changes, with folds and
//! deferred actions on root-to-node paths.
pub mod node_traits;
pub mod valnode;
pub mod effectnode;
pub mod model;
pub mod forest;
pub mod lctree;
