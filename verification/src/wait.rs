//! Waiting for a signal, for a limited time.

use vstd::prelude::*;

verus! {

/// A wait in which the signal is looked at in intervals.
#[derive(Debug, Clone, Copy, PartialEq, Eq, Structural)]
pub struct Waiting {
    /// How often the signal is still looked at.
    pub left: u32,
    /// How long to wait after a look at it that was in vain, in milliseconds.
    pub interval_ms: u32,
}

/// Whether the signal is up in one of the first `left` looks at it.
pub open spec fn comes(left: nat, signals: Seq<bool>) -> bool
    decreases left,
{
    left > 0 && signals.len() > 0 && (signals[0] || comes((left - 1) as nat, signals.skip(1)))
}

impl Waiting {
    /// A wait of no more than `timeout_ms`.
    pub fn new(timeout_ms: u32, interval_ms: u32) -> (r: Waiting)
        requires
            interval_ms > 0,
        ensures
            r.left == timeout_ms / interval_ms,
            r.interval_ms == interval_ms,
    {
        Waiting { left: timeout_ms / interval_ms, interval_ms }
    }

    /// A wait for the computer at the other end of the USB bus to reset it.
    pub fn wait_for_usb_bus(timeout_ms: u32) -> (r: Waiting)
        ensures
            r.left == timeout_ms / 10,
            r.interval_ms == 10,
    {
        Waiting::new(timeout_ms, 10)
    }

    /// Whether the signal is not to be looked at any more.
    pub fn is_over(&self) -> (r: bool)
        ensures
            r == (self.left == 0),
    {
        self.left == 0
    }

    /// What is left of the wait after the signal was `signal`.
    pub open spec fn after(self, signal: bool) -> Waiting {
        if signal {
            self
        } else {
            Waiting { left: (self.left - 1) as u32, ..self }
        }
    }

    /// Takes the signal for whether the wait was successful. If it was not, the interval is to
    /// be waited for before the signal is looked at again.
    pub fn look(&mut self, signal: bool) -> (ready: bool)
        requires
            old(self).left > 0,
        ensures
            ready == signal,
            *final(self) == old(self).after(signal),
    {
        if !signal {
            self.left = self.left - 1;
        }
        signal
    }
}

/// The wait succeeds exactly when the signal is up in one of the looks at it.
pub proof fn law_wait_finds_the_signal(w: Waiting, signals: Seq<bool>)
    ensures
        comes(w.left as nat, signals) <==> exists|i: int|
            0 <= i < w.left && i < signals.len() && signals[i],
        w.left > 0 && signals.len() > 0 && !signals[0] ==> comes(w.left as nat, signals) == comes(
            w.after(false).left as nat,
            signals.skip(1),
        ),
    decreases w.left,
{
    if w.left > 0 && signals.len() > 0 && !signals[0] {
        let rest = signals.skip(1);
        law_wait_finds_the_signal(w.after(false), rest);
        if comes(w.left as nat, signals) {
            let i = choose|i: int| 0 <= i < w.after(false).left && i < rest.len() && rest[i];
            assert(signals[i + 1]);
        }
        if exists|i: int| 0 <= i < w.left && i < signals.len() && signals[i] {
            let i = choose|i: int| 0 <= i < w.left && i < signals.len() && signals[i];
            assert(rest[i - 1]);
        }
    }
}

/// A look in vain uses up one of those that are left, and no other does; the interval stays.
pub proof fn law_looks_are_counted(w: Waiting, signal: bool)
    requires
        w.left > 0,
    ensures
        w.after(false).left == w.left - 1,
        w.after(true).left == w.left,
        w.after(signal).interval_ms == w.interval_ms,
{
}

/// All intervals together take no longer than the time that the wait was made for, and less
/// than one interval is left over.
pub proof fn law_wait_is_limited(timeout_ms: nat, interval_ms: nat)
    requires
        interval_ms > 0,
    ensures
        (timeout_ms / interval_ms) * interval_ms <= timeout_ms,
        timeout_ms < (timeout_ms / interval_ms) * interval_ms + interval_ms,
{
    vstd::arithmetic::div_mod::lemma_fundamental_div_mod(timeout_ms as int, interval_ms as int);
    assert((timeout_ms / interval_ms) * interval_ms == interval_ms * (timeout_ms / interval_ms))
        by (nonlinear_arith);
}

} // verus!
