//! Timer events: the timer interrupt records an unconsumed tick in a
//! flag; polling consumes the flag and announces the tick to every
//! registered listener.

use vstd::prelude::*;
use crate::event::Listener;

verus! {

/// A single unconsumed-tick flag, written by the timer-interrupt edge and
/// consumed by polling.
pub struct TickFlag {
    pub pending: bool,
}

/// Records that a timer tick arrived and has not been consumed yet.
/// Meant to be called only by the timer-interrupt edge.
pub fn update_tick(flag: &mut TickFlag)
    ensures
        final(flag).pending,
{
    flag.pending = true;
}

/// Fans consumed timer ticks out to registered listeners, each identified
/// by a handle that is unique over the dispatcher's lifetime.
pub struct TimerEventDispatcher<L: Listener<Value = ()>> {
    listeners: Vec<(u64, L)>,
    next_handle: u64,
}

impl<L: Listener<Value = ()>> View for TimerEventDispatcher<L> {
    type V = Seq<(u64, L)>;

    closed spec fn view(&self) -> Seq<(u64, L)> {
        self.listeners@
    }
}

impl<L: Listener<Value = ()>> TimerEventDispatcher<L> {
    /// The handles of the registered listeners, in registration order.
    pub open spec fn handles(&self) -> Seq<u64> {
        self@.map_values(|p: (u64, L)| p.0)
    }

    /// Registered handles are pairwise distinct and below the next one to
    /// be issued.
    pub closed spec fn wf(&self) -> bool {
        &&& forall|k: int|
            0 <= k < self.listeners@.len() ==> (#[trigger] self.listeners@[k]).0
                < self.next_handle
        &&& forall|k1: int, k2: int|
            0 <= k1 < self.listeners@.len() && 0 <= k2 < self.listeners@.len() && k1 != k2 ==> (
            #[trigger] self.listeners@[k1]).0 != (#[trigger] self.listeners@[k2]).0
    }

    /// How many more handles can still be issued.
    pub closed spec fn handles_left(&self) -> u64 {
        (u64::MAX - self.next_handle) as u64
    }

    /// A handle can still be issued.
    pub open spec fn can_add(&self) -> bool {
        self.handles_left() > 0
    }

    /// A dispatcher with no listeners.
    pub fn new() -> (r: TimerEventDispatcher<L>)
        ensures
            r.wf(),
            r.handles_left() == u64::MAX,
            r@ == Seq::<(u64, L)>::empty(),
    {
        TimerEventDispatcher { listeners: Vec::new(), next_handle: 0 }
    }

    /// If a tick is pending, consumes it and announces it to every
    /// registered listener, in registration order; otherwise does nothing.
    /// Either way no listener is added or removed, and no tick stays
    /// pending.
    pub fn poll(&mut self, flag: &mut TickFlag)
        requires
            old(self).wf(),
        ensures
            final(self).wf(),
            final(self).handles_left() == old(self).handles_left(),
            !final(flag).pending,
            final(self)@.len() == old(self)@.len(),
            forall|k: int|
                0 <= k < old(self)@.len() ==> (#[trigger] final(self)@[k]).0 == (old(self)@[k]).0,
            !old(flag).pending ==> final(self)@ == old(self)@,
    {
        let pending = flag.pending;
        flag.pending = false;
        if pending {
            let ghost m0 = self@;
            let ghost nh0 = self.next_handle;
            let n = self.listeners.len();
            let mut i: usize = 0;
            while i < n
                invariant
                    i <= n,
                    n == self.listeners@.len(),
                    self.listeners@.len() == m0.len(),
                    m0 == old(self)@,
                    self.next_handle == nh0,
                    nh0 == old(self).next_handle,
                    old(self).wf(),
                    forall|k: int|
                        0 <= k < m0.len() ==> (#[trigger] self.listeners@[k]).0 == (m0[k]).0,
                decreases n - i,
            {
                self.listeners[i].1.recv_polled_val(());
                i = i + 1;
            }
            proof {
                assert forall|k: int|
                    0 <= k < self.listeners@.len() implies (#[trigger] self.listeners@[k]).0
                    < self.next_handle by {
                    assert((m0[k]).0 < nh0);
                }
                assert forall|k1: int, k2: int|
                    0 <= k1 < self.listeners@.len() && 0 <= k2 < self.listeners@.len() && k1
                        != k2 implies (#[trigger] self.listeners@[k1]).0 != (
                #[trigger] self.listeners@[k2]).0 by {
                    assert((self.listeners@[k1]).0 == (m0[k1]).0);
                    assert((self.listeners@[k2]).0 == (m0[k2]).0);
                    assert((m0[k1]).0 != (m0[k2]).0);
                }
            }
        }
    }

    /// Number of registered listeners.
    pub fn listener_count(&self) -> (r: usize)
        ensures
            r == self@.len(),
    {
        self.listeners.len()
    }

    /// Registers a listener and returns the fresh handle that identifies
    /// it: one never issued before, so distinct from every registered one.
    pub fn add_listener(&mut self, listener: L) -> (r: u64)
        requires
            old(self).wf(),
            old(self).can_add(),
        ensures
            final(self).wf(),
            final(self).handles_left() == old(self).handles_left() - 1,
            final(self)@ == old(self)@.push((r, listener)),
            forall|k: int| 0 <= k < old(self)@.len() ==> (#[trigger] old(self)@[k]).0 != r,
    {
        let handle = self.next_handle;
        self.next_handle = self.next_handle + 1;
        self.listeners.push((handle, listener));
        handle
    }

    /// Deregisters and returns the listener identified by `handle`;
    /// returns `None`, changing nothing, when no registered listener
    /// carries it.  The other listeners keep their order.
    pub fn remove_listener(&mut self, handle: u64) -> (r: Option<L>)
        requires
            old(self).wf(),
        ensures
            final(self).wf(),
            final(self).handles_left() == old(self).handles_left(),
            r is Some <==> old(self).handles().contains(handle),
            r is None ==> final(self)@ == old(self)@,
            r is Some ==> ({
                let k = old(self).handles().index_of(handle);
                &&& 0 <= k < old(self)@.len()
                &&& (old(self)@[k]).0 == handle
                &&& r->0 == (old(self)@[k]).1
                &&& final(self)@ == old(self)@.remove(k)
            }),
    {
        let ghost m0 = self@;
        let n = self.listeners.len();
        let mut i: usize = 0;
        while i < n
            invariant
                i <= n,
                n == self.listeners@.len(),
                self@ == m0,
                m0 == old(self)@,
                self.next_handle == old(self).next_handle,
                old(self).wf(),
                forall|k: int| 0 <= k < i ==> (#[trigger] m0[k]).0 != handle,
            decreases n - i,
        {
            if self.listeners[i].0 == handle {
                let entry = self.listeners.remove(i);
                proof {
                    assert(old(self).handles()[i as int] == handle);
                    assert(old(self).handles().contains(handle));
                    let k = old(self).handles().index_of(handle);
                    assert(0 <= k < m0.len() && old(self).handles()[k] == handle);
                    if k != i {
                        // Handles are pairwise distinct, so only one index
                        // can carry this one.
                        assert((m0[k]).0 == handle);
                        assert((m0[i as int]).0 == handle);
                        assert((m0[k]).0 != (m0[i as int]).0);
                    }
                    assert forall|k2: int|
                        0 <= k2 < self.listeners@.len() implies (#[trigger] self.listeners@[k2]).0
                        < self.next_handle by {
                        let k0 = if k2 < i {
                            k2
                        } else {
                            k2 + 1
                        };
                        assert(self.listeners@[k2] == m0[k0]);
                    }
                    assert forall|k2: int, k3: int|
                        0 <= k2 < self.listeners@.len() && 0 <= k3 < self.listeners@.len() && k2
                            != k3 implies (#[trigger] self.listeners@[k2]).0 != (
                    #[trigger] self.listeners@[k3]).0 by {
                        let k20 = if k2 < i {
                            k2
                        } else {
                            k2 + 1
                        };
                        let k30 = if k3 < i {
                            k3
                        } else {
                            k3 + 1
                        };
                        assert(self.listeners@[k2] == m0[k20]);
                        assert(self.listeners@[k3] == m0[k30]);
                        assert((m0[k20]).0 != (m0[k30]).0);
                    }
                }
                return Some(entry.1);
            }
            i = i + 1;
        }
        proof {
            if old(self).handles().contains(handle) {
                let k = choose|k: int|
                    0 <= k < old(self).handles().len() && old(self).handles()[k] == handle;
                assert((m0[k]).0 != handle);
            }
        }
        None
    }
}

/// Announces each tick it receives by appending the two-byte tick marker
/// to its output buffer; a display edge can drain and render that buffer.
pub struct TimerPrinter {
    pub output: Vec<u8>,
}

impl TimerPrinter {
    /// A printer with an empty output buffer.
    pub fn new() -> (r: TimerPrinter)
        ensures
            r.output@ == Seq::<u8>::empty(),
    {
        TimerPrinter { output: Vec::new() }
    }

    /// Appends the tick marker `:)` to the output buffer.
    pub fn print_tick(&mut self)
        ensures
            final(self).output@ == old(self).output@ + seq![58u8, 41u8],
    {
        self.output.push(58);
        self.output.push(41);
        proof {
            assert(self.output@ =~= old(self).output@ + seq![58u8, 41u8]);
        }
    }
}

impl Listener for TimerPrinter {
    type Value = ();

    fn recv_polled_val(&mut self, _polled_val: ()) {
        self.print_tick();
    }
}

} // verus!
