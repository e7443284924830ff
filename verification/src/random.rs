pub mod pcg;
pub mod xor128;
