//! Scenarios for the timer wheel: due-subset ordering, tie-breaking by
//! arrival, periodic re-arming with coalescing, and cancellation.

use reactor::timer::{TimerEntry, TimerWheel};
use reactor::Token;

fn entry(id: usize, deadline: u64, millis: u64, interval: bool, cb: u32) -> TimerEntry<u32> {
    TimerEntry { id: Token(id), deadline, millis, interval, cb }
}

#[test]
fn pop_due_returns_exactly_the_due_subset_in_order() {
    let mut w: TimerWheel<u32> = TimerWheel::new();
    w.schedule(entry(1, 160, 160, false, 10));
    w.schedule(entry(2, 150, 150, false, 20));
    w.schedule(entry(3, 400, 400, false, 30));
    w.schedule(entry(4, 90, 90, false, 40));

    let due = w.pop_due(200);
    let ids: Vec<usize> = due.iter().map(|e| e.id.0).collect();
    assert_eq!(ids, vec![4, 2, 1]);
    assert!(due.iter().all(|e| e.deadline <= 200));
    assert_eq!(w.len(), 1);
    assert_eq!(w.next_deadline(), Some(400));
}

#[test]
fn equal_deadlines_fire_in_arrival_order() {
    let mut w: TimerWheel<u32> = TimerWheel::new();
    w.schedule(entry(7, 100, 100, false, 1));
    w.schedule(entry(8, 100, 100, false, 2));
    w.schedule(entry(9, 100, 100, false, 3));
    let due = w.pop_due(100);
    let ids: Vec<usize> = due.iter().map(|e| e.id.0).collect();
    assert_eq!(ids, vec![7, 8, 9]);
    assert_eq!(w.len(), 0);
}

#[test]
fn nothing_due_before_first_deadline() {
    let mut w: TimerWheel<u32> = TimerWheel::new();
    w.schedule(entry(1, 150, 150, false, 0));
    let due = w.pop_due(149);
    assert_eq!(due.len(), 0);
    assert_eq!(w.len(), 1);
}

#[test]
fn periodic_entry_rearms_at_fire_time_plus_period() {
    let mut w: TimerWheel<u32> = TimerWheel::new();
    w.schedule(entry(5, 50, 50, true, 9));
    // Fired late, at 130: coalescing re-arms at 130 + 50, not 50 + 50.
    let due = w.pop_due(130);
    assert_eq!(due.len(), 1);
    assert_eq!(due[0].id.0, 5);
    assert_eq!(w.len(), 1);
    assert_eq!(w.next_deadline(), Some(180));
}

#[test]
fn periodic_entry_fires_once_per_sweep_even_when_many_periods_elapsed() {
    let mut w: TimerWheel<u32> = TimerWheel::new();
    w.schedule(entry(6, 50, 50, true, 9));
    // Ten periods have gone by; the sweep still yields one firing.
    let due = w.pop_due(500);
    assert_eq!(due.len(), 1);
    // The missed ticks are coalesced, not queued.
    let due2 = w.pop_due(549);
    assert_eq!(due2.len(), 0);
    let due3 = w.pop_due(550);
    assert_eq!(due3.len(), 1);
}

#[test]
fn one_shot_entry_is_removed_on_fire() {
    let mut w: TimerWheel<u32> = TimerWheel::new();
    w.schedule(entry(1, 100, 100, false, 0));
    let due = w.pop_due(100);
    assert_eq!(due.len(), 1);
    assert_eq!(w.len(), 0);
    assert_eq!(w.next_deadline(), None);
}

#[test]
fn cancel_removes_only_the_named_entry() {
    let mut w: TimerWheel<u32> = TimerWheel::new();
    w.schedule(entry(1, 100, 100, false, 0));
    w.schedule(entry(2, 200, 200, false, 0));
    assert!(w.cancel(Token(1)));
    assert_eq!(w.len(), 1);
    assert!(!w.cancel(Token(1)));
    assert_eq!(w.len(), 1);
    let due = w.pop_due(1000);
    assert_eq!(due.len(), 1);
    assert_eq!(due[0].id.0, 2);
}

#[test]
fn cancelled_interval_does_not_come_back() {
    let mut w: TimerWheel<u32> = TimerWheel::new();
    w.schedule(entry(3, 50, 50, true, 0));
    let due = w.pop_due(50);
    assert_eq!(due.len(), 1);
    // The interval re-armed itself at 100; cancelling kills it for good.
    assert!(w.cancel(Token(3)));
    let due2 = w.pop_due(10_000);
    assert_eq!(due2.len(), 0);
    assert_eq!(w.len(), 0);
}
