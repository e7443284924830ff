pub mod chained_tree;
pub mod ett;
pub mod leaf;
pub mod max_seg;
pub mod selector;
