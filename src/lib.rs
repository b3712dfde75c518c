//! Persistent (immutable) sequences with structural sharing: a linked
//! [`stack::Stack`] and the random-access [`skew_tree_vector::SkewTreeVector`],
//! a list of complete binary trees whose sizes follow the skew binary system.
pub mod skew_tree_vector;
pub mod stack;
