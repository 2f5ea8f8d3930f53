//! Scenarios for callback cells and canary-based liveness: dispatch
//! reunites environment and function, and a dead canary's registration is
//! discarded without being invoked.

use reactor::callback::{dispatch, CallbackImpl, CallbackTable, Canary};

#[test]
fn dispatch_invokes_the_captured_function_on_the_environment() {
    let c = Canary { callback_id: 3 };
    let cell = CallbackImpl::new(10i64, |w: i64, x: i64| w + x, &c);
    let cell = dispatch(cell, 5);
    assert_eq!(cell.w, 15);
    assert_eq!(cell.canary.callback_id, 3);
    // Re-entrant use: the same cell can be dispatched again.
    let cell = dispatch(cell, 7);
    assert_eq!(cell.w, 22);
}

#[test]
fn live_canary_hands_the_cell_out() {
    let mut table: CallbackTable<u32> = CallbackTable::new();
    table.install(0, 40);
    assert_eq!(table.lookup_dispatch(0, true), Some(&40));
    assert_eq!(table.len(), 1);
}

#[test]
fn dead_canary_is_discarded_without_invocation() {
    let mut table: CallbackTable<u32> = CallbackTable::new();
    table.install(0, 40);
    // Every strong owner was dropped before the request was delivered:
    // the request is silently discarded and the entry removed.
    assert_eq!(table.lookup_dispatch(0, false), None);
    assert_eq!(table.len(), 0);
    // Delivered again: still nothing, still no error.
    assert_eq!(table.lookup_dispatch(0, false), None);
    assert_eq!(table.lookup_dispatch(0, true), None);
}

#[test]
fn unknown_id_is_ignored() {
    let mut table: CallbackTable<u32> = CallbackTable::new();
    assert_eq!(table.lookup_dispatch(42, true), None);
    assert_eq!(table.len(), 0);
}

#[test]
fn installing_under_the_same_id_replaces_the_cell() {
    let mut table: CallbackTable<u32> = CallbackTable::new();
    table.install(1, 10);
    table.install(1, 11);
    assert_eq!(table.len(), 1);
    assert_eq!(table.lookup_dispatch(1, true), Some(&11));
}

#[test]
fn prune_keeps_live_entries_and_drops_dead_ones() {
    let mut table: CallbackTable<u32> = CallbackTable::new();
    table.install(0, 10);
    table.install(1, 11);
    table.install(2, 12);
    let alive = vec![true, false, true];
    table.prune(&alive);
    assert_eq!(table.len(), 2);
    assert_eq!(table.at(0).id, 0);
    assert_eq!(table.at(1).id, 2);
    // One sweep suffices: nothing of the dead entry is left.
    assert_eq!(table.lookup_dispatch(1, true), None);
}

#[test]
fn dropped_owner_means_zero_invocations_and_no_leak_past_one_sweep() {
    let mut table: CallbackTable<u32> = CallbackTable::new();
    table.install(0, 99);
    // The consumer drains after the owner is gone: the sweep prunes the
    // entry; a request delivered later finds nothing and nothing runs.
    let alive = vec![false];
    table.prune(&alive);
    assert_eq!(table.len(), 0);
    assert_eq!(table.lookup_dispatch(0, true), None);
}
