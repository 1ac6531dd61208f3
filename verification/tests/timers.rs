use sipx_transport::timers::TimerQueue;

/// A key for timer `timer` of transaction `transaction`.
fn key(transaction: u64, timer: u64) -> u64 {
    transaction * 16 + timer
}

#[test]
fn timers_fire_in_deadline_order() {
    let mut q = TimerQueue::new();
    let now = 1_000;
    q.set(key(1, 0), now, 500);
    q.set(key(2, 1), now, 100);
    q.set(key(3, 4), now, 300);

    let fired = q.take_due(now + 600);
    assert_eq!(fired, vec![key(2, 1), key(3, 4), key(1, 0)]);
    assert!(q.is_empty());
}

#[test]
fn scheduling_and_firing_need_no_real_time_to_pass() {
    let mut q = TimerQueue::new();
    let epoch = 0;
    q.set(key(1, 0), epoch, 3_600_000);
    assert!(q.take_due(epoch).is_empty(), "not due yet");
    assert_eq!(q.take_due(epoch + 3_600_000).len(), 1, "an hour later, without an hour passing");
}

#[test]
fn a_cleared_timer_does_not_fire() {
    let mut q = TimerQueue::new();
    q.set(key(1, 0), 0, 100);
    q.clear(key(1, 0));
    assert!(q.take_due(200).is_empty());
}

#[test]
fn forgetting_one_timer_leaves_the_others() {
    let mut q = TimerQueue::new();
    q.set(key(1, 0), 0, 100);
    q.set(key(9, 1), 0, 200);
    q.forget(key(1, 0));
    assert_eq!(q.take_due(300), vec![key(9, 1)]);
}

#[test]
fn reusing_a_forgotten_key_does_not_revive_its_stale_timer() {
    let mut q = TimerQueue::new();
    q.set(key(1, 0), 0, 100);
    q.forget(key(1, 0));
    q.set(key(1, 0), 0, 200);
    assert!(q.take_due(100).is_empty());
    assert_eq!(q.take_due(200), vec![key(1, 0)]);
}

#[test]
fn resetting_a_timer_replaces_it() {
    let mut q = TimerQueue::new();
    q.set(key(1, 0), 0, 100);
    q.set(key(1, 0), 0, 500);
    assert!(q.take_due(200).is_empty(), "the first schedule must not survive");
    assert_eq!(q.take_due(600).len(), 1);
}

#[test]
fn clearing_a_transaction_clears_all_of_its_timers() {
    let mut q = TimerQueue::new();
    q.set(key(1, 0), 0, 100);
    q.set(key(1, 1), 0, 200);
    q.set(key(9, 0), 0, 100);
    q.clear_matching(|k| k / 16 == 1);
    let fired = q.take_due(300);
    assert_eq!(fired, vec![key(9, 0)]);
}

#[test]
fn forgetting_a_transaction_forgets_all_of_its_timers() {
    let mut q = TimerQueue::new();
    q.set(key(1, 0), 0, 100);
    q.set(key(1, 1), 0, 200);
    q.set(key(9, 0), 0, 100);
    q.forget_matching(|k| k / 16 == 1);
    assert_eq!(q.len(), 1);
}

#[test]
fn cancelled_entries_do_not_keep_waking_the_loop() {
    let mut q = TimerQueue::new();
    let now = 0;
    for i in 0..100 {
        q.set(key(i, 0), now, 10);
        q.clear(key(i, 0));
    }
    q.set(key(1000, 0), now, 60_000);
    let deadline = q.next_deadline().expect("a deadline");
    assert!(deadline >= now + 59_000);
    assert_eq!(q.len(), 1, "cancelled entries are gone");
}

#[test]
fn a_virtual_clock_drives_the_queue_with_no_runtime() {
    const RETRANSMIT: u64 = 1;
    const GIVE_UP: u64 = 2;
    let mut q = TimerQueue::new();
    let epoch = 0u64;

    q.set(RETRANSMIT, epoch, 500);
    q.set(GIVE_UP, epoch, 32_000);

    assert!(q.take_due(epoch).is_empty(), "nothing is due at the epoch");
    assert_eq!(q.next_deadline(), Some(500), "the queue answers in the caller's own units");
    assert_eq!(q.take_due(500), vec![RETRANSMIT]);
    assert_eq!(q.take_due(31_999), Vec::<u64>::new());
    assert_eq!(q.take_due(32_000), vec![GIVE_UP]);
}
