//! End-to-end scenarios, driven against the verified core with a
//! simulated clock: deferred scope setup, timer firing order, an interval
//! cancelled from inside its own callback, and immediate termination.

use reactor::callback::CallbackTable;
use reactor::node::{Core, Dereg};
use reactor::timer::TimerEntry;
use reactor::Token;

/// Run timer sweeps against `core`, interpreting each fired cell with
/// `run`, until no timer is pending or `deadline` ms have passed. The
/// clock jumps to each next deadline, as a blocked poller would.
fn drive<F>(core: &mut Core<&'static str, u32, u32>, deadline: u64, mut run: F)
where
    F: FnMut(&mut Core<&'static str, u32, u32>, TimerEntry<u32>),
{
    let mut now = core.now();
    loop {
        let due = core.do_timeouts(now);
        for e in due {
            run(core, e);
        }
        match core.poll_timeout() {
            None => break,
            Some(gap) => {
                let next = core.now() + gap.max(1);
                if next > deadline {
                    break;
                }
                now = next;
            }
        }
    }
}

#[test]
fn scope_setup_never_runs_inside_the_creating_call() {
    let mut core: Core<&'static str, u32, u32> = Core::new(0);
    let mut log: Vec<&'static str> = Vec::new();

    log.push("before");
    // Creating a child scope schedules its setup as a zero-delay one-shot
    // timer instead of running it in the caller's stack frame.
    const SETUP: u32 = 1;
    core.set_timeout(SETUP, 0, false);
    log.push("after");

    // Control has returned; only now does the loop run the setup.
    let due = core.do_timeouts(0);
    for e in due {
        if e.cb == SETUP {
            log.push("setup");
        }
    }
    assert_eq!(log, vec!["before", "after", "setup"]);
}

#[test]
fn one_shot_timers_fire_in_deadline_order_with_mutations_visible() {
    let mut core: Core<&'static str, u32, u32> = Core::new(0);
    // A freshly entered scope: setup runs deferred, then schedules the
    // 150 ms and 160 ms one-shots against its own payload.
    const SETUP: u32 = 1;
    const AT_150: u32 = 2;
    const AT_160: u32 = 3;
    core.set_timeout(SETUP, 0, false);

    let mut payload: Vec<u32> = Vec::new();
    let mut fired: Vec<u32> = Vec::new();
    drive(&mut core, 200, |core, e| match e.cb {
        SETUP => {
            core.set_timeout(AT_150, 150, false);
            core.set_timeout(AT_160, 160, false);
        }
        AT_150 => {
            fired.push(150);
            payload.push(1);
        }
        AT_160 => {
            fired.push(160);
            payload.push(2);
        }
        _ => unreachable!(),
    });
    // By 200 ms: 150 fired before 160, both payload mutations visible.
    assert_eq!(fired, vec![150, 160]);
    assert_eq!(payload, vec![1, 2]);
    assert!(core.now() <= 200);
}

#[test]
fn interval_cancelled_from_its_twentieth_firing_fires_exactly_twenty_times() {
    let mut core: Core<&'static str, u32, u32> = Core::new(0);
    const TICK: u32 = 4;
    let token = core.set_timeout(TICK, 50, true);

    let mut firings: u32 = 0;
    drive(&mut core, 10_000, |core, e| {
        if e.cb == TICK {
            firings += 1;
            if firings == 20 {
                // Cancelling from inside the callback is honored: the
                // re-armed entry is removed before it can fire again.
                assert!(matches!(core.deregister_event(token), Dereg::Timer));
            }
        }
    });
    assert_eq!(firings, 20);
    assert_eq!(core.timer_count(), 0);
}

#[test]
fn loop_with_no_live_work_terminates_without_polling() {
    let mut core: Core<&'static str, u32, u32> = Core::new(0);
    let table: CallbackTable<u32> = CallbackTable::new();

    // A readiness source whose poller registration did not stick, no
    // events pending, zero timers: nothing can ever wake the loop, so it
    // terminates at once — no poll block, no work.
    let t = core.register_event("source");
    core.undo_register_event(t);
    assert!(core.loop_idle(&table));
    assert_eq!(core.poll_timeout(), None);
}
