//! Time in the project format is counted in ticks; this turns a count of
//! ticks into whole seconds and nanoseconds.
use vstd::prelude::*;

use crate::TICKS_PER_SECOND;

verus! {

/// A length of time: whole seconds and the nanoseconds beyond them.
#[derive(Clone, Copy, Debug, PartialEq, Eq, Structural)]
pub struct Span {
    pub secs: u64,
    pub nanos: u32,
}

/// `ticks` in whole seconds, and the nanoseconds beyond them, rounded down.
pub open spec fn span_of(ticks: u64) -> Span {
    Span {
        secs: (ticks / TICKS_PER_SECOND) as u64,
        nanos: ((ticks % TICKS_PER_SECOND) * 1_000_000_000 / TICKS_PER_SECOND as int) as u32,
    }
}

/// Every length of time of a read is its tick count divided by the tick
/// rate: `span_of` gives exactly `ticks / TICKS_PER_SECOND` seconds, to the
/// nanosecond, rounded down. Sequence durations (work out point minus work
/// in point), cut in and out points and media durations all go through it.
pub proof fn lemma_span_is_ticks_over_rate(ticks: u64)
    ensures
        span_of(ticks).secs as int * 1_000_000_000 + span_of(ticks).nanos as int == (ticks as int
            * 1_000_000_000) / (TICKS_PER_SECOND as int),
{
    let d = TICKS_PER_SECOND as int;
    let t = ticks as int;
    let q = t / d;
    let r = t % d;
    vstd::arithmetic::div_mod::lemma_fundamental_div_mod(t, d);
    let x = r * 1_000_000_000;
    vstd::arithmetic::div_mod::lemma_hoist_over_denominator(x, q * 1_000_000_000, d as nat);
    assert(x + q * 1_000_000_000 * d == t * 1_000_000_000) by (nonlinear_arith)
        requires
            t == d * q + r,
            x == r * 1_000_000_000,
    ;
    vstd::arithmetic::div_mod::lemma_fundamental_div_mod(x, d);
    assert(x / d < 1_000_000_000) by (nonlinear_arith)
        requires
            0 <= r < d,
            x == r * 1_000_000_000,
            x == d * (x / d) + x % d,
            0 <= x % d,
            d > 0,
    ;
    assert(0 <= x / d) by (nonlinear_arith)
        requires
            x >= 0,
            d > 0,
    ;
}

impl Span {
    /// The length of `ticks` ticks.
    pub fn from_ticks(ticks: u64) -> (r: Span)
        ensures
            r == span_of(ticks),
    {
        let rest = ticks % TICKS_PER_SECOND;
        let nanos = rest * 1000 / 254_016;
        proof {
            vstd::arithmetic::div_mod::lemma_div_multiples_vanish_quotient(
                1_000_000,
                rest * 1000,
                254_016,
            );
            assert(rest * 1_000_000_000 / TICKS_PER_SECOND as int == rest * 1000 / 254_016);
            assert(rest * 1000 / 254_016 < 1_000_000_000) by (nonlinear_arith)
                requires
                    rest < 254_016_000_000,
            ;
        }
        Span { secs: ticks / TICKS_PER_SECOND, nanos: nanos as u32 }
    }
}

} // verus!
