pub mod clock;
pub mod grid;
pub mod pos;
pub mod tracker;
