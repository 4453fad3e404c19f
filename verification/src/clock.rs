//! Monotonic time readings.
//!
//! The LRU container stamps entries with 64-bit readings. Raw readings come
//! from the `quanta` clock through the trusted items below; the container
//! clamps every reading against its own last stamp, so monotonicity of the
//! stamps it stores is verified regardless of what the clock returns.

use vstd::prelude::*;

verus! {

#[verifier::external_type_specification]
#[verifier::external_body]
pub struct ExQuantaInstant(quanta::Instant);

/// Relies on quanta's `Instant::now`: a reading of the monotonic clock,
/// used as the origin that later tick readings are measured from.
#[verifier::external_body]
pub fn clock_now() -> quanta::Instant {
    quanta::Instant::now()
}

/// Relies on quanta's `Instant::now` and `Instant::duration_since` (which
/// saturates to zero): the nanoseconds elapsed since `origin`, truncated to
/// 64 bits. Nothing is assumed of the value.
#[verifier::external_body]
pub fn ticks_since(origin: &quanta::Instant) -> u64 {
    quanta::Instant::now().duration_since(*origin).as_nanos() as u64
}

/// Relies on quanta's `Clock::new` and `Clock::raw`: one 64-bit reading
/// of the fastest available clock source. quanta does not promise that
/// raw readings are monotonic or in nanoseconds, so nothing is assumed of
/// the value.
#[verifier::external_body]
fn raw_clock_reading() -> u64 {
    quanta::Clock::new().raw()
}

/// A timestamp that can be refreshed in place and compared, the abstract
/// shape of the stamps carried by LRU entries: `now` takes a reading at the
/// current time, `update` refreshes the stamp to the current time, and
/// `is_before` is the strict total order on the stored 64-bit readings.
pub trait AtomicTimestamp: Sized {
    spec fn stamp_spec(&self) -> u64;

    fn now() -> Self;

    fn update(&mut self);

    fn is_before(&self, other: &Self) -> (r: bool)
        ensures
            r == (self.stamp_spec() < other.stamp_spec()),
    ;
}

/// A timestamp holding one 64-bit reading of the `quanta` clock.
pub struct AtomicInstant {
    pub reading: u64,
}

impl AtomicTimestamp for AtomicInstant {
    open spec fn stamp_spec(&self) -> u64 {
        self.reading
    }

    fn now() -> Self {
        AtomicInstant { reading: raw_clock_reading() }
    }

    fn update(&mut self) {
        self.reading = raw_clock_reading();
    }

    fn is_before(&self, other: &Self) -> (r: bool) {
        self.reading < other.reading
    }
}

} // verus!
