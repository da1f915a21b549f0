//! Segment trees over a monoid: folds of ranges of a sequence of fixed length.
pub mod dynamic_segment_tree;
pub mod persistent_segment_tree;
pub mod lazy_segment_tree;
pub mod persistent_lazy_segment_tree;
