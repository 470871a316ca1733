//! The signal that tells a spawned worker when to stop.
use vstd::prelude::*;

verus! {

/// The state of a signal: whether it is still running, and whether the stop has
/// already been reported.
pub struct SignalState {
    /// `true` until [`SignalHandle::done`] is called.
    pub single: bool,
    /// `true` once the stop has been reported by [`SignalHandle::next`].
    pub stopped: bool,
}

/// The state after a call of `done`.
pub open spec fn signal_done(s: SignalState) -> SignalState {
    SignalState { single: false, stopped: s.stopped }
}

/// The state after a call of `next`, and what it returns: nothing once the stop has been
/// reported; otherwise whether the signal is done, the stop being reported only once.
pub open spec fn signal_step(s: SignalState) -> (SignalState, Option<bool>) {
    if s.stopped {
        (s, None)
    } else if s.single {
        (s, Some(false))
    } else {
        (SignalState { single: s.single, stopped: true }, Some(true))
    }
}

/// A handle used to pass a single stop signal to a worker.
pub struct SignalHandle {
    single: bool,
    stopped: bool,
}

impl View for SignalHandle {
    type V = SignalState;

    closed spec fn view(&self) -> SignalState {
        SignalState { single: self.single, stopped: self.stopped }
    }
}

impl SignalHandle {
    /// A running signal.
    pub fn new() -> (h: Self)
        ensures
            h@ == (SignalState { single: true, stopped: false }),
    {
        SignalHandle { single: true, stopped: false }
    }

    /// Sets the signal done.
    pub fn done(&mut self)
        ensures
            final(self)@ == signal_done(old(self)@),
    {
        self.single = false;
    }

    /// The next value seen by the worker: `Some(false)` while running, `Some(true)` once
    /// after the signal is done, then `None`.
    pub fn next(&mut self) -> (r: Option<bool>)
        ensures
            (final(self)@, r) == signal_step(old(self)@),
    {
        if self.stopped {
            None
        } else {
            let signal = !self.single;
            if signal {
                self.stopped = true;
            }
            Some(signal)
        }
    }
}

/// A worker that watches a signal sees `Some(false)` and nothing changes until the signal
/// is done.
pub proof fn lemma_signal_running(s: SignalState)
    requires
        s.single,
        !s.stopped,
    ensures
        signal_step(s) == (s, Some(false)),
{
}

/// Once the signal is done, the worker sees `Some(true)` exactly once, then `None` for
/// ever.
pub proof fn lemma_signal_stops_once(s: SignalState)
    requires
        !s.stopped,
    ensures
        signal_step(signal_done(s)).1 == Some(true),
        signal_step(signal_step(signal_done(s)).0).1 == None::<bool>,
        signal_step(signal_step(signal_done(s)).0).0 == signal_step(signal_done(s)).0,
{
}

/// A further `done` does not bring back a stopped signal.
pub proof fn lemma_signal_stays_stopped(s: SignalState)
    requires
        s.stopped,
    ensures
        signal_step(signal_done(s)).1 == None::<bool>,
        signal_step(s).1 == None::<bool>,
{
}

} // verus!
