pub mod bits;
pub mod bitset;
pub mod fixed_bitset;
pub mod fixed_queue;
pub mod union_find;
