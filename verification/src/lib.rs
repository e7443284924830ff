pub mod beam;
pub mod contest;
pub mod ds;
pub mod random;
pub mod util;
