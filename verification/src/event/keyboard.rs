//! Keyboard events: the keyboard interrupt records one raw scancode byte
//! in a slot; polling takes the byte, runs it through the scancode decoder
//! of the `pc_keyboard` crate, and fans any decoded key out to every
//! registered listener.

use vstd::prelude::*;
use crate::event::Listener;

verus! {

/// Holds the stateful scancode decoder of `pc_keyboard`.  The decoder's
/// generic type cannot be declared to the verifier (its type parameters
/// are bounded by the crate's own traits), so the holder as a whole
/// stands behind a trusted boundary and its contents are reached only
/// through the wrappers below.
#[verifier::external_body]
pub struct ScancodeDecoder {
    inner: pc_keyboard::Keyboard<pc_keyboard::layouts::Us104Key, pc_keyboard::ScancodeSet1>,
}

/// Declares `pc_keyboard::KeyEvent`, one decoded make/break event.
#[verifier::external_type_specification]
#[verifier::external_body]
pub struct ExKeyEvent(pc_keyboard::KeyEvent);

/// Declares `pc_keyboard::DecodedKey`, a key event after layout handling.
#[verifier::external_type_specification]
#[verifier::external_body]
pub struct ExDecodedKey(pc_keyboard::DecodedKey);

/// Declares `pc_keyboard::KeyCode`, the code of a non-printable key.
#[verifier::external_type_specification]
#[verifier::external_body]
pub struct ExKeyCode(pc_keyboard::KeyCode);

/// A key as the dispatch layer hands it to listeners: either a printable
/// character, or the code of a key without one.
#[derive(Clone, Copy, Debug, PartialEq, Eq)]
pub enum Key {
    Unicode(char),
    RawKey(pc_keyboard::KeyCode),
}

/// Relies on `pc_keyboard::Keyboard::new`: a fresh decoder in its start
/// state, for the US 104-key layout and scancode set 1, leaving control
/// characters unmapped.
#[verifier::external_body]
pub(crate) fn kb_new() -> ScancodeDecoder {
    ScancodeDecoder {
        inner: pc_keyboard::Keyboard::new(
            pc_keyboard::layouts::Us104Key,
            pc_keyboard::ScancodeSet1,
            pc_keyboard::HandleControl::Ignore,
        ),
    }
}

/// Relies on `pc_keyboard::Keyboard::add_byte`: feeds one scancode byte to
/// the decoder; a byte that completes a key event yields it, while an
/// incomplete sequence or a decode error yields nothing.
#[verifier::external_body]
pub(crate) fn kb_add_byte(kb: &mut ScancodeDecoder, byte: u8) -> Option<pc_keyboard::KeyEvent> {
    match kb.inner.add_byte(byte) {
        Ok(ev) => ev,
        Err(_) => None,
    }
}

/// Relies on `pc_keyboard::Keyboard::process_keyevent`: applies modifier
/// state and the layout to one key event; a key press yields the decoded
/// key, a release or a pure modifier yields nothing.
#[verifier::external_body]
pub(crate) fn kb_process_keyevent(
    kb: &mut ScancodeDecoder,
    ev: pc_keyboard::KeyEvent,
) -> Option<pc_keyboard::DecodedKey> {
    kb.inner.process_keyevent(ev)
}

/// Relies on `pc_keyboard::DecodedKey`: tells its two variants apart, one
/// arm each.
#[verifier::external_body]
pub(crate) fn key_of_decoded(k: pc_keyboard::DecodedKey) -> Key {
    match k {
        pc_keyboard::DecodedKey::Unicode(c) => Key::Unicode(c),
        pc_keyboard::DecodedKey::RawKey(rk) => Key::RawKey(rk),
    }
}

/// A single-scancode mailbox, written by the keyboard-interrupt edge and
/// drained by polling.  The interrupt handler only records the raw byte —
/// it never allocates — and an unread byte is overwritten by the next one.
pub struct ScancodeSlot {
    pub latest: Option<u8>,
}

/// Records the raw scancode byte the keyboard controller produced.  Meant
/// to be called only by the keyboard-interrupt edge.
pub fn update_scancode(slot: &mut ScancodeSlot, scancode: u8)
    ensures
        final(slot).latest == Some(scancode),
{
    slot.latest = Some(scancode);
}

/// Decodes polled scancodes and fans decoded keys out to registered
/// listeners, each identified by a handle unique over the dispatcher's
/// lifetime.
pub struct KeyboardEventDispatcher<L: Listener<Value = Key>> {
    keyboard: ScancodeDecoder,
    listeners: Vec<(u64, L)>,
    next_handle: u64,
}

impl<L: Listener<Value = Key>> View for KeyboardEventDispatcher<L> {
    type V = Seq<(u64, L)>;

    closed spec fn view(&self) -> Seq<(u64, L)> {
        self.listeners@
    }
}

impl<L: Listener<Value = Key>> KeyboardEventDispatcher<L> {
    /// The handles of the registered listeners, in registration order.
    pub open spec fn handles(&self) -> Seq<u64> {
        self@.map_values(|p: (u64, L)| p.0)
    }

    /// Registered handles are pairwise distinct and below the next one to
    /// be issued.
    pub closed spec fn wf(&self) -> bool {
        &&& forall|k: int|
            0 <= k < self.listeners@.len() ==> (#[trigger] self.listeners@[k]).0
                < self.next_handle
        &&& forall|k1: int, k2: int|
            0 <= k1 < self.listeners@.len() && 0 <= k2 < self.listeners@.len() && k1 != k2 ==> (
            #[trigger] self.listeners@[k1]).0 != (#[trigger] self.listeners@[k2]).0
    }

    /// How many more handles can still be issued.
    pub closed spec fn handles_left(&self) -> u64 {
        (u64::MAX - self.next_handle) as u64
    }

    /// A handle can still be issued.
    pub open spec fn can_add(&self) -> bool {
        self.handles_left() > 0
    }

    /// A dispatcher with no listeners and a fresh decoder.
    pub fn new() -> (r: KeyboardEventDispatcher<L>)
        ensures
            r.wf(),
            r.handles_left() == u64::MAX,
            r@ == Seq::<(u64, L)>::empty(),
    {
        KeyboardEventDispatcher { keyboard: kb_new(), listeners: Vec::new(), next_handle: 0 }
    }

    /// Drains the scancode slot and processes what it held.  No listener
    /// is added or removed, and no scancode stays in the slot.
    pub fn poll(&mut self, slot: &mut ScancodeSlot)
        requires
            old(self).wf(),
        ensures
            final(self).wf(),
            final(self).handles_left() == old(self).handles_left(),
            final(slot).latest is None,
            final(self)@.len() == old(self)@.len(),
            forall|k: int|
                0 <= k < old(self)@.len() ==> (#[trigger] final(self)@[k]).0 == (old(self)@[k]).0,
    {
        let scancode = slot.latest.take();
        self.poll_key(scancode);
    }

    /// Feeds one polled scancode byte, if any, through the decoder; a byte
    /// that completes a key press hands the decoded key to every
    /// registered listener, in registration order.  No listener is added
    /// or removed; with no byte to process the listeners are untouched.
    pub fn poll_key(&mut self, scancode: Option<u8>)
        requires
            old(self).wf(),
        ensures
            final(self).wf(),
            final(self).handles_left() == old(self).handles_left(),
            final(self)@.len() == old(self)@.len(),
            forall|k: int|
                0 <= k < old(self)@.len() ==> (#[trigger] final(self)@[k]).0 == (old(self)@[k]).0,
            scancode is None ==> final(self)@ == old(self)@,
    {
        if let Some(sc) = scancode {
            if let Some(ev) = kb_add_byte(&mut self.keyboard, sc) {
                if let Some(dk) = kb_process_keyevent(&mut self.keyboard, ev) {
                    let key = key_of_decoded(dk);
                    let ghost m0 = self@;
                    let ghost nh0 = self.next_handle;
                    let n = self.listeners.len();
                    let mut i: usize = 0;
                    while i < n
                        invariant
                            i <= n,
                            n == self.listeners@.len(),
                            self.listeners@.len() == m0.len(),
                            m0 == old(self)@,
                            self.next_handle == nh0,
                            nh0 == old(self).next_handle,
                            forall|k: int|
                                0 <= k < m0.len() ==> (#[trigger] self.listeners@[k]).0 == (
                                m0[k]).0,
                        decreases n - i,
                    {
                        self.listeners[i].1.recv_polled_val(key);
                        i = i + 1;
                    }
                    proof {
                        assert forall|k: int|
                            0 <= k < self.listeners@.len() implies (
                        #[trigger] self.listeners@[k]).0 < self.next_handle by {
                            assert((m0[k]).0 < nh0);
                        }
                        assert forall|k1: int, k2: int|
                            0 <= k1 < self.listeners@.len() && 0 <= k2 < self.listeners@.len()
                                && k1 != k2 implies (#[trigger] self.listeners@[k1]).0 != (
                        #[trigger] self.listeners@[k2]).0 by {
                            assert((self.listeners@[k1]).0 == (m0[k1]).0);
                            assert((self.listeners@[k2]).0 == (m0[k2]).0);
                            assert((m0[k1]).0 != (m0[k2]).0);
                        }
                    }
                }
            }
        }
    }

    /// Number of registered listeners.
    pub fn listener_count(&self) -> (r: usize)
        ensures
            r == self@.len(),
    {
        self.listeners.len()
    }

    /// Registers a listener and returns the fresh handle that identifies
    /// it: one never issued before, so distinct from every registered one.
    pub fn add_listener(&mut self, listener: L) -> (r: u64)
        requires
            old(self).wf(),
            old(self).can_add(),
        ensures
            final(self).wf(),
            final(self).handles_left() == old(self).handles_left() - 1,
            final(self)@ == old(self)@.push((r, listener)),
            forall|k: int| 0 <= k < old(self)@.len() ==> (#[trigger] old(self)@[k]).0 != r,
    {
        let handle = self.next_handle;
        self.next_handle = self.next_handle + 1;
        self.listeners.push((handle, listener));
        handle
    }

    /// Deregisters and returns the listener identified by `handle`;
    /// returns `None`, changing nothing, when no registered listener
    /// carries it.  The other listeners keep their order.
    pub fn remove_listener(&mut self, handle: u64) -> (r: Option<L>)
        requires
            old(self).wf(),
        ensures
            final(self).wf(),
            final(self).handles_left() == old(self).handles_left(),
            r is Some <==> old(self).handles().contains(handle),
            r is None ==> final(self)@ == old(self)@,
            r is Some ==> ({
                let k = old(self).handles().index_of(handle);
                &&& 0 <= k < old(self)@.len()
                &&& (old(self)@[k]).0 == handle
                &&& r->0 == (old(self)@[k]).1
                &&& final(self)@ == old(self)@.remove(k)
            }),
    {
        let ghost m0 = self@;
        let n = self.listeners.len();
        let mut i: usize = 0;
        while i < n
            invariant
                i <= n,
                n == self.listeners@.len(),
                self@ == m0,
                m0 == old(self)@,
                self.next_handle == old(self).next_handle,
                old(self).wf(),
                forall|k: int| 0 <= k < i ==> (#[trigger] m0[k]).0 != handle,
            decreases n - i,
        {
            if self.listeners[i].0 == handle {
                let entry = self.listeners.remove(i);
                proof {
                    assert(old(self).handles()[i as int] == handle);
                    assert(old(self).handles().contains(handle));
                    let k = old(self).handles().index_of(handle);
                    assert(0 <= k < m0.len() && old(self).handles()[k] == handle);
                    if k != i {
                        assert((m0[k]).0 == handle);
                        assert((m0[i as int]).0 == handle);
                        assert((m0[k]).0 != (m0[i as int]).0);
                    }
                    assert forall|k2: int|
                        0 <= k2 < self.listeners@.len() implies (#[trigger] self.listeners@[k2]).0
                        < self.next_handle by {
                        let k0 = if k2 < i {
                            k2
                        } else {
                            k2 + 1
                        };
                        assert(self.listeners@[k2] == m0[k0]);
                    }
                    assert forall|k2: int, k3: int|
                        0 <= k2 < self.listeners@.len() && 0 <= k3 < self.listeners@.len() && k2
                            != k3 implies (#[trigger] self.listeners@[k2]).0 != (
                    #[trigger] self.listeners@[k3]).0 by {
                        let k20 = if k2 < i {
                            k2
                        } else {
                            k2 + 1
                        };
                        let k30 = if k3 < i {
                            k3
                        } else {
                            k3 + 1
                        };
                        assert(self.listeners@[k2] == m0[k20]);
                        assert(self.listeners@[k3] == m0[k30]);
                        assert((m0[k20]).0 != (m0[k30]).0);
                    }
                }
                return Some(entry.1);
            }
            i = i + 1;
        }
        proof {
            if old(self).handles().contains(handle) {
                let k = choose|k: int|
                    0 <= k < old(self).handles().len() && old(self).handles()[k] == handle;
                assert((m0[k]).0 != handle);
            }
        }
        None
    }
}

/// Records every key it is asked to print, in order; a display edge can
/// drain the record and render it.
pub struct KeyPrinter {
    pub printed: Vec<Key>,
}

impl KeyPrinter {
    /// A printer that has printed nothing.
    pub fn new() -> (r: KeyPrinter)
        ensures
            r.printed@ == Seq::<Key>::empty(),
    {
        KeyPrinter { printed: Vec::new() }
    }

    /// Appends one key to the record.
    pub fn print_key(&mut self, key: Key)
        ensures
            final(self).printed@ == old(self).printed@.push(key),
    {
        self.printed.push(key);
    }
}

impl Listener for KeyPrinter {
    type Value = Key;

    fn recv_polled_val(&mut self, key: Key) {
        self.print_key(key);
    }
}

} // verus!
