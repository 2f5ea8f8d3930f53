//! Scenarios for the reactor core: registration and deregistration over
//! the shared token space, timer sweeps, and the loop's termination test.

use reactor::callback::CallbackTable;
use reactor::node::{Core, Dereg, FIRST_TOKEN};
use reactor::Token;

#[test]
fn tokens_come_from_one_shared_monotonic_counter() {
    let mut core: Core<&'static str, u32, u32> = Core::new(0);
    let t1 = core.register_event("a");
    let t2 = core.set_timeout(1, 100, false);
    let t3 = core.register_event("b");
    assert_eq!(t1.0, FIRST_TOKEN);
    assert_eq!(t2.0, FIRST_TOKEN + 1);
    assert_eq!(t3.0, FIRST_TOKEN + 2);
}

#[test]
fn deregister_finds_an_event_then_a_timer_then_nothing() {
    let mut core: Core<&'static str, u32, u32> = Core::new(0);
    let te = core.register_event("sock");
    let tt = core.set_timeout(7, 100, false);
    match core.deregister_event(te) {
        Dereg::Event(h) => assert_eq!(h, "sock"),
        _ => panic!("expected a live event registration"),
    }
    assert!(matches!(core.deregister_event(tt), Dereg::Timer));
    assert!(matches!(core.deregister_event(Token(9999)), Dereg::NotFound));
}

#[test]
fn deregistering_twice_reports_not_found_the_second_time() {
    let mut core: Core<&'static str, u32, u32> = Core::new(0);
    let te = core.register_event("sock");
    assert!(matches!(core.deregister_event(te), Dereg::Event(_)));
    assert!(matches!(core.deregister_event(te), Dereg::NotFound));

    let tt = core.set_timeout(7, 100, false);
    assert!(matches!(core.deregister_event(tt), Dereg::Timer));
    assert!(matches!(core.deregister_event(tt), Dereg::NotFound));
}

#[test]
fn failed_poller_registration_leaves_no_entry() {
    let mut core: Core<&'static str, u32, u32> = Core::new(0);
    let t = core.register_event("sock");
    assert_eq!(core.event_count(), 1);
    // The poller refused: roll back, as if the entry had never been stored.
    core.undo_register_event(t);
    assert_eq!(core.event_count(), 0);
    assert!(matches!(core.deregister_event(t), Dereg::NotFound));
}

#[test]
fn failed_poller_deregistration_restores_the_entry() {
    let mut core: Core<&'static str, u32, u32> = Core::new(0);
    let t = core.register_event("sock");
    let h = match core.deregister_event(t) {
        Dereg::Event(h) => h,
        _ => panic!("expected a live event registration"),
    };
    assert_eq!(core.event_count(), 0);
    // The poller failed hard: the entry is retained, state recoverable.
    core.restore_event(t, h);
    assert_eq!(core.event_count(), 1);
    assert!(matches!(core.deregister_event(t), Dereg::Event(_)));
}

#[test]
fn sweep_records_time_fires_due_and_rearms_intervals() {
    let mut core: Core<&'static str, u32, u32> = Core::new(0);
    core.set_timeout(1, 150, false);
    core.set_timeout(2, 160, false);
    let ti = core.set_timeout(3, 50, true);
    let due = core.do_timeouts(155);
    let cbs: Vec<u32> = due.iter().map(|e| e.cb).collect();
    // The interval (due at 50) fires first, then the 150 one-shot.
    assert_eq!(cbs, vec![3, 1]);
    assert_eq!(core.now(), 155);
    // The interval re-armed at 155 + 50 = 205; the 160 one-shot remains.
    assert_eq!(core.timer_count(), 2);
    assert_eq!(core.poll_timeout(), Some(5));
    assert!(matches!(core.deregister_event(ti), Dereg::Timer));
    assert_eq!(core.timer_count(), 1);
}

#[test]
fn poll_timeout_is_bounded_by_the_nearest_deadline() {
    let mut core: Core<&'static str, u32, u32> = Core::new(100);
    assert_eq!(core.poll_timeout(), None);
    core.set_timeout(1, 300, false);
    core.set_timeout(2, 40, false);
    assert_eq!(core.poll_timeout(), Some(40));
}

#[test]
fn loop_terminates_exactly_when_nothing_could_wake_it() {
    let mut core: Core<&'static str, u32, u32> = Core::new(0);
    let table: CallbackTable<u32> = CallbackTable::new();
    assert!(core.loop_idle(&table));

    let t = core.register_event("sock");
    assert!(!core.loop_idle(&table));
    assert!(matches!(core.deregister_event(t), Dereg::Event(_)));
    assert!(core.loop_idle(&table));

    let tt = core.set_timeout(1, 10, false);
    assert!(!core.loop_idle(&table));
    assert!(matches!(core.deregister_event(tt), Dereg::Timer));
    assert!(core.loop_idle(&table));

    let id = core.next_callback_id();
    core.register_callback(id, 5);
    assert!(!core.loop_idle(&table));
    let staged = core.drain_cycle_callbacks();
    assert_eq!(staged.len(), 1);
    assert!(core.loop_idle(&table));
}

#[test]
fn handler_lookup_serves_readiness_dispatch() {
    let mut core: Core<&'static str, u32, u32> = Core::new(0);
    let t = core.register_event("reader");
    assert_eq!(core.handler_for(t), Some(&"reader"));
    assert_eq!(core.handler_for(Token(9999)), None);
}

#[test]
fn callback_ids_are_sequential() {
    let mut core: Core<&'static str, u32, u32> = Core::new(0);
    assert_eq!(core.next_callback_id(), 0);
    core.register_callback(0, 10);
    assert_eq!(core.next_callback_id(), 1);
    core.register_callback(1, 20);
    let staged = core.drain_cycle_callbacks();
    assert_eq!(staged.len(), 2);
    assert_eq!(staged[0].id, 0);
    assert_eq!(staged[1].id, 1);
    assert_eq!(core.drain_cycle_callbacks().len(), 0);
}
