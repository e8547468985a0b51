//! The machine timer: when the next timer interrupt is due.

use vstd::prelude::*;
use crate::boards::CLOCK_FREQ;

verus! {

/// Time between two timer interrupts, in milliseconds.
pub const TICK_PERIOD_MS: u64 = 1000;

/// Bit of `mie` that enables the machine timer interrupt.
pub const MIE_MTIE: usize = 0x80;

/// Bit of `mstatus` that enables machine interrupts.
pub const MSTATUS_MIE: usize = 0x8;

/// The timer value `milliseconds` after `mtime`.
pub open spec fn deadline(mtime: int, milliseconds: int) -> int {
    mtime + (milliseconds * CLOCK_FREQ) / 1000
}

/// The value to put in `mtimecmp` so that the timer interrupt comes `milliseconds` after the
/// timer reads `mtime`.
pub fn next_timeout(mtime: u64, milliseconds: u64) -> (due: u64)
    requires
        milliseconds * CLOCK_FREQ <= u64::MAX,
        deadline(mtime as int, milliseconds as int) <= u64::MAX,
    ensures
        due == deadline(mtime as int, milliseconds as int),
{
    mtime + (milliseconds * CLOCK_FREQ) / 1000
}

/// A tick period later, the timer has counted one second's worth of cycles.
pub proof fn lemma_tick_period_is_one_second(mtime: int)
    ensures
        deadline(mtime, TICK_PERIOD_MS as int) == mtime + CLOCK_FREQ,
{
}

/// The timer runs at ten thousand cycles per millisecond: the deadline lies exactly
/// `10_000 * milliseconds` cycles after `mtime`, so one more millisecond always adds ten
/// thousand cycles.
pub proof fn lemma_deadline_counts_milliseconds(mtime: int, milliseconds: int)
    requires
        milliseconds >= 0,
    ensures
        deadline(mtime, milliseconds) == mtime + 10_000 * milliseconds,
        deadline(mtime, milliseconds + 1) == deadline(mtime, milliseconds) + 10_000,
{
    assert((milliseconds * 10_000_000) / 1000 == 10_000 * milliseconds);
    assert(((milliseconds + 1) * 10_000_000) / 1000 == 10_000 * (milliseconds + 1));
}

} // verus!
