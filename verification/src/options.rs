//! What a solver run is given besides the state: a cooperative deadline
//! (a start instant plus a millisecond budget that search loops poll), the
//! bonus phrases, and the optional tag and supplied solution.
use vstd::prelude::*;

use crate::codec::valid_cmd_str;

verus! {

/// Upper bound on how many bonus phrases a run may carry.
pub const PHRASES_MAX: usize = 64;

/// Upper bound on the length of one bonus phrase.
pub const PHRASE_LEN_MAX: usize = 100;

/// Relies on `std::time::Instant`: an opaque reading of the monotonic clock,
/// carried through the options and compared only by the wrappers below.
#[verifier::external_type_specification]
#[verifier::external_body]
pub struct ExInstant(std::time::Instant);

/// Relies on `std::time::Instant::now`: an opaque reading of the monotonic
/// clock. Nothing is promised of its value.
#[verifier::external_body]
pub(crate) fn instant_now() -> std::time::Instant {
    std::time::Instant::now()
}

/// Relies on `std::time::Instant::saturating_duration_since`: the time from
/// `earlier` to `self`, or zero when `self` is not later. The value depends
/// on the clock, so nothing is promised of it.
pub assume_specification[ std::time::Instant::saturating_duration_since ](
    later: &std::time::Instant,
    earlier: std::time::Instant,
) -> core::time::Duration;

/// Relies on `core::time::Duration::as_millis`: the whole milliseconds of the
/// duration. Nothing is promised of the value.
pub assume_specification[ core::time::Duration::as_millis ](
    d: &core::time::Duration,
) -> u128;

/// Milliseconds elapsed since `start`; zero if the clock reads earlier than
/// `start`. The value depends on the machine's clock, so no more is promised.
pub fn elapsed_ms(start: &std::time::Instant) -> u64 {
    let now = instant_now();
    let d = now.saturating_duration_since(*start);
    let ms = d.as_millis();
    if ms > u64::MAX as u128 {
        u64::MAX
    } else {
        ms as u64
    }
}

/// One bonus phrase is acceptable when it is a decodable command string of
/// bounded length that yields at least one command.
pub open spec fn phrase_ok(p: Seq<char>) -> bool {
    &&& valid_cmd_str(p)
    &&& 1 <= p.len() <= PHRASE_LEN_MAX
    &&& 1 <= crate::codec::decode_str(p).len()
}

/// The options a solver run carries.
pub struct SolverOptions {
    /// The millisecond budget of the run, measured from `started`.
    pub time_limit_ms: u64,
    /// When the run started.
    pub started: std::time::Instant,
    /// Bonus phrases: each occurrence in an emitted command string scores.
    pub phrases_of_power: Vec<String>,
    /// A free-text tag for emitted solutions.
    pub tag: Option<String>,
    /// A supplied command string, for the replaying strategy.
    pub solution: Option<String>,
}

/// The bounds every solver requires of its options.
pub open spec fn options_wf(o: &SolverOptions) -> bool {
    &&& o.phrases_of_power@.len() <= PHRASES_MAX
    &&& forall|i: int|
        0 <= i < o.phrases_of_power@.len() ==> phrase_ok(#[trigger] o.phrases_of_power@[i]@)
    &&& o.time_limit_ms <= 0x4000_0000_0000_0000
}

impl SolverOptions {
    /// Options for a run starting now.
    pub fn new(
        time_limit_ms: u64,
        phrases_of_power: Vec<String>,
        tag: Option<String>,
        solution: Option<String>,
    ) -> (o: SolverOptions)
        requires
            time_limit_ms <= 0x4000_0000_0000_0000,
        ensures
            o.time_limit_ms == time_limit_ms,
            o.phrases_of_power == phrases_of_power,
            o.tag == tag,
            o.solution == solution,
    {
        SolverOptions {
            time_limit_ms,
            started: instant_now(),
            phrases_of_power,
            tag,
            solution,
        }
    }

    /// Milliseconds of the budget left; negative once the deadline passed.
    /// The value depends on the clock, so only its upper bound is promised.
    pub fn time_left_ms(&self) -> (r: i64)
        requires
            self.time_limit_ms <= 0x4000_0000_0000_0000,
        ensures
            r <= self.time_limit_ms,
    {
        let e = elapsed_ms(&self.started);
        let e_clamped: i64 = if e > 0x4000_0000_0000_0000 {
            0x4000_0000_0000_0000
        } else {
            e as i64
        };
        (self.time_limit_ms as i64) - e_clamped
    }
}

} // verus!
