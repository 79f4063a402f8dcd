use vstd::prelude::*;

verus! {

/// What a search engine needs from its host: a clock and a source of random numbers.
pub trait Platform {
    /// Milliseconds on the host's clock. Callers treat a reading earlier than a previous
    /// one as no time elapsed.
    fn now_ms() -> u64;

    /// A random integer drawn uniformly below `n`.
    fn random_below(n: usize) -> (r: usize)
        requires
            n > 0,
        ensures
            r < n,
    ;
}

/// Relies on `rand::random_range`, which draws from the thread-local generator a value
/// inside the given range; it panics only on an empty range.
#[verifier::external_body]
fn thread_random_below(n: usize) -> (r: usize)
    requires
        n > 0,
    ensures
        r < n,
{
    rand::random_range(0..n)
}

/// Relies on `std::time::SystemTime::now`, read as milliseconds since the Unix epoch
/// (0 when the clock is set before it). Nothing is promised of the value.
#[verifier::external_body]
fn system_clock_ms() -> u64 {
    std::time::SystemTime::now().duration_since(std::time::UNIX_EPOCH).map_or(0, |d| d.as_millis() as u64)
}

/// The host of a native program: the system clock and the thread-local generator.
#[derive(Clone, Copy, Debug)]
pub struct NativePlatform;

impl Platform for NativePlatform {
    fn now_ms() -> u64 {
        system_clock_ms()
    }

    fn random_below(n: usize) -> (r: usize) {
        thread_random_below(n)
    }
}

} // verus!
