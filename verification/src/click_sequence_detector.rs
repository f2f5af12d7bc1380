//! Click classifier: turns raw button press/release timestamps into the
//! short/long quantisation that the sequence automaton consumes.
//!
//! The caller reads the clock and hands the current time in; the classifier
//! itself is pure arithmetic on millisecond timestamps.

use vstd::prelude::*;

verus! {

/// Whether a press was short (a dot) or long (a dash).
#[derive(Copy, Clone, PartialEq, Eq, Structural, Debug)]
pub enum MouseClickKind {
    Short,
    Long,
}

/// Tracks the time of the last button event and the dot/dash threshold.
pub struct ClickSequenceDetector {
    timestamp: u128,
    long_ms: u128,
}

impl ClickSequenceDetector {
    /// Time of the last press or release fed to the detector, in ms.
    pub closed spec fn last_event_ms(self) -> u128 {
        self.timestamp
    }

    /// A release at most this many ms after its press is a short click.
    pub closed spec fn long_threshold_ms(self) -> u128 {
        self.long_ms
    }

    pub fn new(long_ms: u128) -> (r: Self)
        ensures
            r.last_event_ms() == 0,
            r.long_threshold_ms() == long_ms,
    {
        Self { timestamp: 0, long_ms }
    }

    /// Record a button press at `now_ms`; returns the time since the last
    /// event, which the caller compares against its gap threshold to decide
    /// whether to emit a reset.
    #[must_use]
    pub fn click(&mut self, now_ms: u128) -> (elapsed: u128)
        requires
            old(self).last_event_ms() <= now_ms,
        ensures
            elapsed == now_ms - old(self).last_event_ms(),
            final(self).last_event_ms() == now_ms,
            final(self).long_threshold_ms() == old(self).long_threshold_ms(),
    {
        let elapsed_since_last = now_ms - self.timestamp;
        self.timestamp = now_ms;
        elapsed_since_last
    }

    /// Record a button release at `now_ms`: a hold longer than the threshold
    /// is a long click, anything up to and including it a short one.
    pub fn release(&mut self, now_ms: u128) -> (kind: MouseClickKind)
        requires
            old(self).last_event_ms() <= now_ms,
        ensures
            kind == (if now_ms - old(self).last_event_ms() > old(self).long_threshold_ms() {
                MouseClickKind::Long
            } else {
                MouseClickKind::Short
            }),
            final(self).last_event_ms() == now_ms,
            final(self).long_threshold_ms() == old(self).long_threshold_ms(),
    {
        let elapsed = now_ms - self.timestamp;
        self.timestamp = now_ms;
        if elapsed > self.long_ms {
            MouseClickKind::Long
        } else {
            MouseClickKind::Short
        }
    }
}

} // verus!
