//! The keyboard task runner: a plain shape of keyboard dispatch, with
//! tasks registered for good instead of removable listeners.  The
//! interrupt edge records one raw scancode byte; polling decodes it and
//! hands any decoded key to every registered task, in registration order.

use vstd::prelude::*;
use crate::event::keyboard::{
    kb_add_byte, kb_new, kb_process_keyevent, key_of_decoded, Key, ScancodeDecoder, ScancodeSlot,
};

verus! {

/// Records the raw scancode byte the keyboard controller produced.  Meant
/// to be called only by the keyboard-interrupt edge.
pub fn update_scancode(slot: &mut ScancodeSlot, scancode: u8)
    ensures
        final(slot).latest == Some(scancode),
{
    slot.latest = Some(scancode);
}

/// A receiver of polled values.
pub trait Task {
    type Value;

    /// Called once for each polled value.
    fn recv_polled_val(&mut self, polled_val: Self::Value);
}

/// Decodes polled scancodes and hands decoded keys to registered tasks.
pub struct KeyboardTaskRunner<T: Task<Value = Key>> {
    keyboard: ScancodeDecoder,
    tasks: Vec<T>,
}

impl<T: Task<Value = Key>> View for KeyboardTaskRunner<T> {
    type V = Seq<T>;

    closed spec fn view(&self) -> Seq<T> {
        self.tasks@
    }
}

impl<T: Task<Value = Key>> KeyboardTaskRunner<T> {
    /// A runner with no tasks and a fresh decoder.
    pub fn new() -> (r: KeyboardTaskRunner<T>)
        ensures
            r@ == Seq::<T>::empty(),
    {
        KeyboardTaskRunner { keyboard: kb_new(), tasks: Vec::new() }
    }

    /// Drains the scancode slot; a byte that completes a key press hands
    /// the decoded key to every registered task, in registration order.
    /// No task is added or removed; with no byte in the slot, and whenever
    /// no key press completes, the tasks are untouched.
    pub fn poll(&mut self, slot: &mut ScancodeSlot)
        ensures
            final(slot).latest is None,
            final(self)@.len() == old(self)@.len(),
            old(slot).latest is None ==> final(self)@ == old(self)@,
    {
        let scancode = slot.latest.take();
        if let Some(sc) = scancode {
            if let Some(ev) = kb_add_byte(&mut self.keyboard, sc) {
                if let Some(dk) = kb_process_keyevent(&mut self.keyboard, ev) {
                    let key = key_of_decoded(dk);
                    let ghost m0 = self@;
                    let n = self.tasks.len();
                    let mut i: usize = 0;
                    while i < n
                        invariant
                            i <= n,
                            n == self.tasks@.len(),
                            self.tasks@.len() == m0.len(),
                        decreases n - i,
                    {
                        self.tasks[i].recv_polled_val(key);
                        i = i + 1;
                    }
                }
            }
        }
    }

    /// Number of registered tasks.
    pub fn task_count(&self) -> (r: usize)
        ensures
            r == self@.len(),
    {
        self.tasks.len()
    }

    /// Registers a task; tasks are polled in registration order.
    pub fn add_task(&mut self, task: T)
        ensures
            final(self)@ == old(self)@.push(task),
    {
        self.tasks.push(task);
    }
}

/// Records every key it is asked to print, in order; a display edge can
/// drain the record and render it.
pub struct KeyPrinter {
    pub printed: Vec<Key>,
}

impl KeyPrinter {
    /// A printer that has printed nothing.
    pub fn new() -> (r: KeyPrinter)
        ensures
            r.printed@ == Seq::<Key>::empty(),
    {
        KeyPrinter { printed: Vec::new() }
    }

    /// Appends one key to the record.
    pub fn print_key(&mut self, key: Key)
        ensures
            final(self).printed@ == old(self).printed@.push(key),
    {
        self.printed.push(key);
    }
}

impl Task for KeyPrinter {
    type Value = Key;

    fn recv_polled_val(&mut self, key: Key) {
        self.print_key(key);
    }
}

} // verus!
