use vstd::prelude::*;

verus! {

/// A reading of the monotonic clock.
#[verifier::external_type_specification]
#[verifier::external_body]
pub struct ExInstant(std::time::Instant);

/// The whole microseconds since `start`, through `Instant::elapsed` and
/// `Duration::as_micros`. The reading depends on the time; all that is
/// stated is the bound every `Duration` keeps: at most `u64::MAX` seconds
/// and 999,999,999 nanoseconds (`Duration::MAX`), so at most
/// 18,446,744,073,709,551,615,999,999 microseconds.
#[verifier::external_body]
pub(crate) fn elapsed_micros(start: &std::time::Instant) -> (r: u128)
    ensures
        r <= 18_446_744_073_709_551_615_999_999u128,
{
    start.elapsed().as_micros()
}

} // verus!
