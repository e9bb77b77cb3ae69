//! The event-dispatch layer: values recorded by interrupt handlers are
//! polled from non-interrupt context and fanned out to registered
//! listeners.  Interrupt handlers themselves only record raw data — they
//! never allocate and never take the dispatcher's locks.

pub mod keyboard;
pub mod timer;

use vstd::prelude::*;

verus! {

/// A receiver of dispatched event values.
pub trait Listener {
    type Value;

    /// Called once for each polled event value.
    fn recv_polled_val(&mut self, polled_val: Self::Value);
}

} // verus!
