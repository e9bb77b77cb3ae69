use blog_os::event::keyboard::{
    update_scancode, Key, KeyPrinter, KeyboardEventDispatcher, ScancodeSlot,
};
use blog_os::event::timer::{update_tick, TickFlag, TimerEventDispatcher, TimerPrinter};
use blog_os::event::Listener;

struct MockListener {
    expected: Key,
    hits: usize,
}

impl Listener for MockListener {
    type Value = Key;

    fn recv_polled_val(&mut self, key: Key) {
        assert_eq!(key, self.expected);
        self.hits += 1;
    }
}

#[test]
fn update_tick_sets_flag() {
    let mut flag = TickFlag { pending: false };
    update_tick(&mut flag);
    assert!(flag.pending);
}

#[test]
fn timer_poll_consumes_tick_and_notifies() {
    let mut d: TimerEventDispatcher<TimerPrinter> = TimerEventDispatcher::new();
    let h = d.add_listener(TimerPrinter::new());
    let mut flag = TickFlag { pending: false };
    // no tick pending: nothing is announced
    d.poll(&mut flag);
    update_tick(&mut flag);
    d.poll(&mut flag);
    assert!(!flag.pending);
    // a consumed tick is not announced twice
    d.poll(&mut flag);
    let p = d.remove_listener(h).unwrap();
    assert_eq!(p.output, b":)".to_vec());
}

#[test]
fn timer_add_remove() {
    let mut d: TimerEventDispatcher<TimerPrinter> = TimerEventDispatcher::new();
    let h1 = d.add_listener(TimerPrinter::new());
    assert_eq!(d.listener_count(), 1);
    let h2 = d.add_listener(TimerPrinter::new());
    assert_eq!(d.listener_count(), 2);
    assert_ne!(h1, h2);
    assert!(d.remove_listener(h2).is_some());
    assert_eq!(d.listener_count(), 1);
    assert!(d.remove_listener(h1).is_some());
    assert_eq!(d.listener_count(), 0);
    assert!(d.remove_listener(h1).is_none());
}

#[test]
fn keyboard_add_remove() {
    let mut d: KeyboardEventDispatcher<KeyPrinter> = KeyboardEventDispatcher::new();
    let h1 = d.add_listener(KeyPrinter::new());
    assert_eq!(d.listener_count(), 1);
    let h2 = d.add_listener(KeyPrinter::new());
    assert_eq!(d.listener_count(), 2);
    assert!(d.remove_listener(h2).is_some());
    assert_eq!(d.listener_count(), 1);
    assert!(d.remove_listener(h1).is_some());
    assert_eq!(d.listener_count(), 0);
}

#[test]
fn correct_key() {
    let mut d: KeyboardEventDispatcher<MockListener> = KeyboardEventDispatcher::new();
    let h = d.add_listener(MockListener { expected: Key::Unicode(' '), hits: 0 });
    // no scancode: nothing reaches the listener
    d.poll_key(None);
    // scancode 57 is the space key in scancode set 1
    d.poll_key(Some(57));
    let m = d.remove_listener(h).unwrap();
    assert_eq!(m.hits, 1);
}

#[test]
fn scancode_slot_is_drained_by_poll() {
    let mut d: KeyboardEventDispatcher<KeyPrinter> = KeyboardEventDispatcher::new();
    let h = d.add_listener(KeyPrinter::new());
    let mut slot = ScancodeSlot { latest: None };
    update_scancode(&mut slot, 57);
    assert_eq!(slot.latest, Some(57));
    d.poll(&mut slot);
    assert_eq!(slot.latest, None);
    let p = d.remove_listener(h).unwrap();
    assert_eq!(p.printed, vec![Key::Unicode(' ')]);
}

#[test]
fn task_runner_polls_tasks() {
    let mut runner: blog_os::keyboard::KeyboardTaskRunner<blog_os::keyboard::KeyPrinter> =
        blog_os::keyboard::KeyboardTaskRunner::new();
    runner.add_task(blog_os::keyboard::KeyPrinter::new());
    assert_eq!(runner.task_count(), 1);
    let mut slot = ScancodeSlot { latest: None };
    // polling an empty slot does nothing
    runner.poll(&mut slot);
    blog_os::keyboard::update_scancode(&mut slot, 57);
    runner.poll(&mut slot);
    assert_eq!(slot.latest, None);
    assert_eq!(runner.task_count(), 1);
}
