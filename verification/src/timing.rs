//! The stopwatch that times a growth.

use vstd::prelude::*;
use solana_measure::measure::Measure;

verus! {

/// `solana_measure::measure::Measure`, a stopwatch. The verifier sees nothing
/// inside it.
#[verifier::external_type_specification]
#[verifier::external_body]
pub struct ExMeasure(solana_measure::measure::Measure);

/// Calls `Measure::start`, which reads the clock and hands out a running
/// stopwatch. Nothing is claimed of it.
#[verifier::external_body]
pub(crate) fn start_measure(name: &'static str) -> (measure: Measure) {
    Measure::start(name)
}

/// Calls `Measure::stop`, which reads the clock again and keeps the time that
/// has passed. Nothing is claimed of it.
#[verifier::external_body]
pub(crate) fn stop_measure(measure: &mut Measure) {
    measure.stop()
}

/// Calls `Measure::as_us`, which gives the time that a stopped stopwatch has
/// kept, in microseconds. The time depends on the clock: nothing is claimed
/// of it.
#[verifier::external_body]
pub(crate) fn measured_us(measure: &Measure) -> (elapsed_us: u64) {
    measure.as_us()
}

} // verus!
