//! The reactor core: one mutable, single-owner state machine composing the
//! readiness registry, the timer wheel, and the staging area for
//! cross-thread callback registrations.
//!
//! The OS poller and the cross-thread channel stay outside: callers drive
//! the protocol (allocate a token, ask the poller, then commit or roll
//! back) and the core keeps the bookkeeping consistent at every step.
//! Tokens for I/O events and timers come from one shared counter, so a
//! token names at most one live registration of either kind.

use vstd::prelude::*;

verus! {

use crate::Token;
use crate::callback::{PendingCallback, CallbackTable, cb_unique};
use crate::registry::{Registry, EventHandler, reg_unique, reg_has, reg_find};
use crate::timer::{
    TimerWheel,
    TimerEntry,
    sorted_by_deadline,
    unique_ids,
    has_id,
    find_id,
    insert_sorted,
    insert_pos,
    due_filter,
    rearm_all,
    lemma_insert_sorted_members,
    lemma_insert_pos_bounds,
    lemma_rearm_all_ids,
    lemma_subrange_unique,
    lemma_due_prefix,
};

/// The reserved token under which the cross-thread channel's receiver is
/// registered with the poller, so a request can wake a blocked poll.
pub const CB_RECV_TOKEN: usize = 100;

/// The first token handed out to registrations.
pub const FIRST_TOKEN: usize = 101;

/// The core's state, as contracts speak of it.
pub struct CoreView<H, C, P> {
    pub handlers: Seq<EventHandler<H>>,
    pub timers: Seq<TimerEntry<C>>,
    pub next_token: int,
    pub now: u64,
    pub next_callback_id: int,
    pub staged: Seq<PendingCallback<P>>,
}

/// What a deregistration found: a live I/O registration (whose payload is
/// handed back so the event source can be forgotten at the poller), a
/// pending timer (cancelled), or nothing.
pub enum Dereg<H> {
    Event(H),
    Timer,
    NotFound,
}

/// The reactor core. `H` is the payload of an I/O registration (readiness
/// callback plus owned event source); `C` is a timer's cell; `P` is a
/// cross-thread callback's cell.
pub struct Core<H, C, P> {
    handlers: Registry<H>,
    next_timeouts: TimerWheel<C>,
    next_token: usize,
    now: u64,
    next_callback_id: i32,
    callbacks_this_cycle: Vec<PendingCallback<P>>,
}

impl<H, C, P> View for Core<H, C, P> {
    type V = CoreView<H, C, P>;

    closed spec fn view(&self) -> CoreView<H, C, P> {
        CoreView {
            handlers: self.handlers@,
            timers: self.next_timeouts@,
            next_token: self.next_token as int,
            now: self.now,
            next_callback_id: self.next_callback_id as int,
            staged: self.callbacks_this_cycle@,
        }
    }
}

/// The core's invariant: registrations unique and below the token counter,
/// timers sorted and unique and below the counter, the two token spaces
/// disjoint, and staged callback ids unique and below the id counter.
pub open spec fn core_inv<H, C, P>(v: CoreView<H, C, P>) -> bool {
    &&& reg_unique(v.handlers)
    &&& sorted_by_deadline(v.timers)
    &&& unique_ids(v.timers)
    &&& forall|i: int| 0 <= i < v.handlers.len() ==> (#[trigger] v.handlers[i]).token.0 < v.next_token
    &&& forall|i: int| 0 <= i < v.timers.len() ==> (#[trigger] v.timers[i]).id.0 < v.next_token
    &&& forall|i: int, j: int|
        0 <= i < v.handlers.len() && 0 <= j < v.timers.len() ==> (#[trigger] v.handlers[i]).token
            != (#[trigger] v.timers[j]).id
    &&& cb_unique(v.staged)
    &&& forall|i: int| 0 <= i < v.staged.len() ==> (#[trigger] v.staged[i]).id < v.next_callback_id
}

impl<H, C, P> Core<H, C, P> {
    pub open spec fn wf(&self) -> bool {
        core_inv(self@)
    }

    /// A fresh core at clock reading `now`: nothing registered, token
    /// counter above the reserved channel token, callback ids from zero.
    pub fn new(now: u64) -> (c: Core<H, C, P>)
        ensures
            c.wf(),
            c@.handlers.len() == 0,
            c@.timers.len() == 0,
            c@.staged.len() == 0,
            c@.next_token == FIRST_TOKEN,
            c@.now == now,
            c@.next_callback_id == 0,
    {
        Core {
            handlers: Registry::new(),
            next_timeouts: TimerWheel::new(),
            next_token: FIRST_TOKEN,
            now,
            next_callback_id: 0,
            callbacks_this_cycle: Vec::new(),
        }
    }

    /// The clock reading of the last sweep.
    pub fn now(&self) -> (r: u64)
        ensures
            r == self@.now,
    {
        self.now
    }

    /// The number of live I/O registrations.
    pub fn event_count(&self) -> (n: usize)
        ensures
            n == self@.handlers.len(),
    {
        self.handlers.event_count()
    }

    /// The number of pending timers.
    pub fn timer_count(&self) -> (n: usize)
        ensures
            n == self@.timers.len(),
    {
        self.next_timeouts.len()
    }

    /// Store a new I/O registration and hand out its fresh token; the
    /// caller then registers the source with the poller under that token,
    /// and rolls back with `undo_register_event` if the poller refuses.
    pub fn register_event(&mut self, handler: H) -> (t: Token)
        requires
            old(self).wf(),
            old(self)@.next_token < usize::MAX,
        ensures
            final(self).wf(),
            t.0 == old(self)@.next_token,
            !reg_has(old(self)@.handlers, t),
            final(self)@.handlers == old(self)@.handlers.push(EventHandler { token: t, handler }),
            final(self)@.next_token == old(self)@.next_token + 1,
            final(self)@.timers == old(self)@.timers,
            final(self)@.now == old(self)@.now,
            final(self)@.next_callback_id == old(self)@.next_callback_id,
            final(self)@.staged == old(self)@.staged,
    {
        let t = Token(self.next_token);
        proof {
            assert(!reg_has(self@.handlers, t));
        }
        self.handlers.insert(t, handler);
        self.next_token = self.next_token + 1;
        proof {
            let v = self@;
            assert forall|i: int| 0 <= i < v.handlers.len() implies (v.handlers[i].token.0
                < v.next_token) by {
                if i < v.handlers.len() - 1 {
                    assert(v.handlers[i] == old(self)@.handlers[i]);
                }
            }
            assert forall|i: int, j: int|
                0 <= i < v.handlers.len() && 0 <= j < v.timers.len() implies #[trigger] v.handlers[i].token
                != #[trigger] v.timers[j].id by {
                assert(i < v.handlers.len() - 1 ==> v.handlers[i] == old(self)@.handlers[i]);
                assert(i == v.handlers.len() - 1 ==> v.handlers[i].token.0 == old(
                    self,
                )@.next_token);
            }
        }
        t
    }

    /// Forget the registration stored for `t`: the poller refused it, and
    /// a failed registration leaves no entry behind.
    pub fn undo_register_event(&mut self, t: Token)
        requires
            old(self).wf(),
        ensures
            final(self).wf(),
            reg_has(old(self)@.handlers, t) ==> final(self)@.handlers == old(self)@.handlers.remove(
                reg_find(old(self)@.handlers, t),
            ),
            !reg_has(old(self)@.handlers, t) ==> final(self)@.handlers == old(self)@.handlers,
            !reg_has(final(self)@.handlers, t),
            final(self)@.timers == old(self)@.timers,
            final(self)@.next_token == old(self)@.next_token,
            final(self)@.now == old(self)@.now,
            final(self)@.next_callback_id == old(self)@.next_callback_id,
            final(self)@.staged == old(self)@.staged,
    {
        let r = self.handlers.remove(t);
        proof {
            let v = self@;
            let ov = old(self)@;
            if reg_has(ov.handlers, t) {
                let k = reg_find(ov.handlers, t);
                ov.handlers.remove_ensures(k);
                assert forall|i: int| 0 <= i < v.handlers.len() implies ov.handlers.contains(
                    #[trigger] v.handlers[i],
                ) by {
                    let i0 = if i < k { i } else { i + 1 };
                    assert(v.handlers[i] == ov.handlers[i0]);
                }
                assert forall|i: int| 0 <= i < v.handlers.len() implies (v.handlers[i].token.0
                    < v.next_token) by {
                    let w = choose|w: int| 0 <= w < ov.handlers.len() && ov.handlers[w] == v.handlers[i];
                }
                assert forall|i: int, j: int|
                    0 <= i < v.handlers.len() && 0 <= j < v.timers.len() implies (v.handlers[
                    i].token != v.timers[j].id) by {
                    let w = choose|w: int| 0 <= w < ov.handlers.len() && ov.handlers[w] == v.handlers[i];
                }
            }
        }
    }

    /// Allocate a token for a timer firing `millis` from the current clock
    /// reading, and insert it into the wheel; deadline order, ties by
    /// arrival. A periodic timer re-arms itself each time it fires.
    pub fn set_timeout(&mut self, cb: C, millis: u64, interval: bool) -> (t: Token)
        requires
            old(self).wf(),
            old(self)@.now + millis <= u64::MAX,
            old(self)@.next_token < usize::MAX,
        ensures
            final(self).wf(),
            t.0 == old(self)@.next_token,
            final(self)@.timers == insert_sorted(
                old(self)@.timers,
                (TimerEntry {
                    id: t,
                    deadline: (old(self)@.now + millis) as u64,
                    millis,
                    interval,
                    cb,
                }),
            ),
            has_id(final(self)@.timers, t),
            final(self)@.next_token == old(self)@.next_token + 1,
            final(self)@.handlers == old(self)@.handlers,
            final(self)@.now == old(self)@.now,
            final(self)@.next_callback_id == old(self)@.next_callback_id,
            final(self)@.staged == old(self)@.staged,
    {
        let t = Token(self.next_token);
        self.next_token = self.next_token + 1;
        let e = TimerEntry { id: t, deadline: self.now + millis, millis, interval, cb };
        proof {
            let ov = old(self)@;
            assert forall|i: int| 0 <= i < ov.timers.len() implies ov.timers[i].id != e.id by {
                assert(ov.timers[i].id.0 < ov.next_token);
            }
            lemma_insert_sorted_members(ov.timers, e);
        }
        self.next_timeouts.schedule(e);
        proof {
            let v = self@;
            let ov = old(self)@;
            assert forall|i: int| 0 <= i < v.timers.len() implies (v.timers[i].id.0
                < v.next_token) by {
                if v.timers[i] != e {
                    assert(ov.timers.contains(v.timers[i]));
                    let w = choose|w: int| 0 <= w < ov.timers.len() && ov.timers[w] == v.timers[i];
                }
            }
            assert forall|i: int, j: int|
                0 <= i < v.handlers.len() && 0 <= j < v.timers.len() implies #[trigger] v.handlers[i].token
                != #[trigger] v.timers[j].id by {
                if v.timers[j] != e {
                    assert(ov.timers.contains(v.timers[j]));
                    let w = choose|w: int| 0 <= w < ov.timers.len() && ov.timers[w] == v.timers[j];
                } else {
                    assert(v.handlers[i].token.0 < ov.next_token);
                }
            }
        }
        t
    }

    /// Deregister whatever `token` names. A live I/O registration is
    /// removed and its payload handed back (the caller asks the poller to
    /// forget the source, restoring with `restore_event` on a hard error);
    /// otherwise the token is retried as a timer cancellation; otherwise
    /// nothing is found, and nothing changes.
    pub fn deregister_event(&mut self, token: Token) -> (r: Dereg<H>)
        requires
            old(self).wf(),
        ensures
            final(self).wf(),
            match r {
                Dereg::Event(h) => {
                    &&& reg_has(old(self)@.handlers, token)
                    &&& h == old(self)@.handlers[reg_find(old(self)@.handlers, token)].handler
                    &&& final(self)@.handlers == old(self)@.handlers.remove(
                        reg_find(old(self)@.handlers, token),
                    )
                    &&& final(self)@.timers == old(self)@.timers
                },
                Dereg::Timer => {
                    &&& !reg_has(old(self)@.handlers, token)
                    &&& has_id(old(self)@.timers, token)
                    &&& final(self)@.timers == old(self)@.timers.remove(
                        find_id(old(self)@.timers, token),
                    )
                    &&& final(self)@.handlers == old(self)@.handlers
                },
                Dereg::NotFound => {
                    &&& !reg_has(old(self)@.handlers, token)
                    &&& !has_id(old(self)@.timers, token)
                    &&& final(self)@.handlers == old(self)@.handlers
                    &&& final(self)@.timers == old(self)@.timers
                },
            },
            !reg_has(final(self)@.handlers, token),
            !has_id(final(self)@.timers, token),
            final(self)@ == spec_deregister(old(self)@, token),
            (r is NotFound) == !spec_dereg_found(old(self)@, token),
            final(self)@.next_token == old(self)@.next_token,
            final(self)@.now == old(self)@.now,
            final(self)@.next_callback_id == old(self)@.next_callback_id,
            final(self)@.staged == old(self)@.staged,
    {
        let ghost ov = old(self)@;
        match self.handlers.remove(token) {
            Some(eh) => {
                proof {
                    let v = self@;
                    let k = reg_find(ov.handlers, token);
                    ov.handlers.remove_ensures(k);
                    assert forall|i: int| 0 <= i < v.handlers.len() implies ov.handlers.contains(
                        #[trigger] v.handlers[i],
                    ) by {
                        let i0 = if i < k { i } else { i + 1 };
                        assert(v.handlers[i] == ov.handlers[i0]);
                    }
                    assert forall|i: int| 0 <= i < v.handlers.len() implies (v.handlers[i].token.0
                        < v.next_token) by {
                        let w = choose|w: int|
                            0 <= w < ov.handlers.len() && ov.handlers[w] == v.handlers[i];
                    }
                    assert forall|i: int, j: int|
                        0 <= i < v.handlers.len() && 0 <= j < v.timers.len() implies #[trigger] v.handlers[i].token
                        != #[trigger] v.timers[j].id by {
                        let w = choose|w: int|
                            0 <= w < ov.handlers.len() && ov.handlers[w] == v.handlers[i];
                    }
                    assert(!has_id(self@.timers, token)) by {
                        if has_id(ov.timers, token) {
                            let w = choose|w: int|
                                0 <= w < ov.timers.len() && ov.timers[w].id == token;
                            assert(ov.handlers[reg_find(ov.handlers, token)].token
                                != ov.timers[w].id);
                        }
                    }
                }
                Dereg::Event(eh.handler)
            },
            None => {
                if self.next_timeouts.cancel(token) {
                    Dereg::Timer
                } else {
                    Dereg::NotFound
                }
            },
        }
    }

    /// Put back a registration whose poller deregistration failed hard:
    /// the entry is retained so the state stays recoverable.
    pub fn restore_event(&mut self, token: Token, handler: H)
        requires
            old(self).wf(),
            !reg_has(old(self)@.handlers, token),
            !has_id(old(self)@.timers, token),
            token.0 < old(self)@.next_token,
        ensures
            final(self).wf(),
            final(self)@.handlers == old(self)@.handlers.push(EventHandler { token, handler }),
            final(self)@.timers == old(self)@.timers,
            final(self)@.next_token == old(self)@.next_token,
            final(self)@.now == old(self)@.now,
            final(self)@.next_callback_id == old(self)@.next_callback_id,
            final(self)@.staged == old(self)@.staged,
    {
        self.handlers.insert(token, handler);
        proof {
            let v = self@;
            let ov = old(self)@;
            assert forall|i: int| 0 <= i < v.handlers.len() implies (v.handlers[i].token.0
                < v.next_token) by {
                if i < v.handlers.len() - 1 {
                    assert(v.handlers[i] == ov.handlers[i]);
                }
            }
            assert forall|i: int, j: int|
                0 <= i < v.handlers.len() && 0 <= j < v.timers.len() implies #[trigger] v.handlers[i].token
                != #[trigger] v.timers[j].id by {
                if i < v.handlers.len() - 1 {
                    assert(v.handlers[i] == ov.handlers[i]);
                }
            }
        }
    }

    /// The id the next registered cross-thread callback will get.
    pub fn next_callback_id(&self) -> (r: i32)
        ensures
            r == self@.next_callback_id,
    {
        self.next_callback_id
    }

    /// Stage a cross-thread callback cell under the id just handed out; it
    /// becomes live when the loop driver absorbs the cycle's registrations.
    pub fn register_callback(&mut self, id: i32, cbi: P)
        requires
            old(self).wf(),
            id == old(self)@.next_callback_id,
            old(self)@.next_callback_id < i32::MAX,
        ensures
            final(self).wf(),
            final(self)@.staged == old(self)@.staged.push(PendingCallback { id, cell: cbi }),
            final(self)@.next_callback_id == old(self)@.next_callback_id + 1,
            final(self)@.handlers == old(self)@.handlers,
            final(self)@.timers == old(self)@.timers,
            final(self)@.next_token == old(self)@.next_token,
            final(self)@.now == old(self)@.now,
    {
        self.callbacks_this_cycle.push(PendingCallback { id, cell: cbi });
        self.next_callback_id = self.next_callback_id + 1;
        proof {
            let v = self@;
            let ov = old(self)@;
            assert forall|i: int, j: int| 0 <= i < j < v.staged.len() implies v.staged[i].id
                != v.staged[j].id by {
                assert(v.staged[i] == ov.staged[i]);
                if j < v.staged.len() - 1 {
                    assert(v.staged[j] == ov.staged[j]);
                }
            }
            assert forall|i: int| 0 <= i < v.staged.len() implies (v.staged[i].id
                < v.next_callback_id) by {
                if i < v.staged.len() - 1 {
                    assert(v.staged[i] == ov.staged[i]);
                }
            }
        }
    }

    /// Hand the cycle's staged callback registrations to the loop driver,
    /// leaving the staging area empty.
    pub fn drain_cycle_callbacks(&mut self) -> (r: Vec<PendingCallback<P>>)
        requires
            old(self).wf(),
        ensures
            final(self).wf(),
            r@ == old(self)@.staged,
            final(self)@.staged.len() == 0,
            final(self)@.handlers == old(self)@.handlers,
            final(self)@.timers == old(self)@.timers,
            final(self)@.next_token == old(self)@.next_token,
            final(self)@.now == old(self)@.now,
            final(self)@.next_callback_id == old(self)@.next_callback_id,
    {
        let mut r: Vec<PendingCallback<P>> = Vec::new();
        core::mem::swap(&mut self.callbacks_this_cycle, &mut r);
        r
    }

    /// Borrow the readiness handler registered under `token`, to run it on
    /// a readiness notification; `None` when the token is not live.
    pub fn handler_for(&self, token: Token) -> (r: Option<&H>)
        requires
            self.wf(),
        ensures
            match r {
                Some(h) => reg_has(self@.handlers, token) && *h == self@.handlers[reg_find(
                    self@.handlers,
                    token,
                )].handler,
                None => !reg_has(self@.handlers, token),
            },
    {
        self.handlers.get(token)
    }

    /// How long the poller may block: the gap to the earliest pending
    /// deadline, or `None` (block until woken) with no timer pending.
    pub fn poll_timeout(&self) -> (r: Option<u64>)
        requires
            self.wf(),
        ensures
            match r {
                Some(g) => self@.timers.len() > 0 && g == (if self@.timers[0].deadline
                    >= self@.now {
                    self@.timers[0].deadline - self@.now
                } else {
                    0
                }),
                None => self@.timers.len() == 0,
            },
    {
        match self.next_timeouts.next_deadline() {
            Some(d) => {
                if d >= self.now {
                    Some(d - self.now)
                } else {
                    Some(0)
                }
            },
            None => None,
        }
    }

    /// The loop's termination test: nothing is left that could ever wake
    /// the reactor — no I/O registration, no pending timer, no live or
    /// staged cross-thread callback.
    pub fn loop_idle(&self, pending: &CallbackTable<P>) -> (r: bool)
        ensures
            r == (self@.handlers.len() == 0 && self@.timers.len() == 0 && self@.staged.len() == 0
                && pending@.len() == 0),
    {
        self.handlers.event_count() == 0 && self.next_timeouts.len() == 0
            && self.callbacks_this_cycle.len() == 0 && pending.len() == 0
    }
}

impl<H, C: Copy, P> Core<H, C, P> {
    /// One timer sweep at clock reading `now`: record the time, remove and
    /// return every due entry in firing order, re-arming periodic entries
    /// at `now + period` before returning.
    pub fn do_timeouts(&mut self, now: u64) -> (due: Vec<TimerEntry<C>>)
        requires
            old(self).wf(),
            forall|i: int|
                0 <= i < old(self)@.timers.len() && (#[trigger] old(self)@.timers[i]).interval
                    && old(self)@.timers[i].deadline <= now ==> old(self)@.timers[i].millis + now
                    <= u64::MAX,
        ensures
            final(self).wf(),
            final(self)@.now == now,
            due@ == due_filter(old(self)@.timers, now),
            forall|i: int| 0 <= i < due@.len() ==> (#[trigger] due@[i]).deadline <= now,
            final(self)@.timers == rearm_all(
                old(self)@.timers.subrange(
                    insert_pos(old(self)@.timers, now),
                    old(self)@.timers.len() as int,
                ),
                due@,
                now,
            ),
            final(self)@.handlers == old(self)@.handlers,
            final(self)@.next_token == old(self)@.next_token,
            final(self)@.next_callback_id == old(self)@.next_callback_id,
            final(self)@.staged == old(self)@.staged,
    {
        self.now = now;
        let ghost ov = old(self)@;
        let due = self.next_timeouts.pop_due(now);
        proof {
            let k = insert_pos(ov.timers, now);
            lemma_insert_pos_bounds(ov.timers, now);
            lemma_due_prefix(ov.timers, now);
            lemma_subrange_unique(ov.timers, 0, k);
            lemma_subrange_unique(ov.timers, k, ov.timers.len() as int);
            let rest = ov.timers.subrange(k, ov.timers.len() as int);
            assert forall|i: int, j: int|
                0 <= i < rest.len() && 0 <= j < due@.len() implies #[trigger] rest[i].id
                != #[trigger] due@[j].id by {
                assert(rest[i] == ov.timers[k + i]);
                assert(due@[j] == ov.timers[j]);
            }
            lemma_rearm_all_ids(rest, due@, now);
            let v = self@;
            assert forall|i: int| 0 <= i < v.timers.len() implies (v.timers[i].id.0
                < v.next_token) by {
                if has_id(rest, v.timers[i].id) {
                    let w = choose|w: int| 0 <= w < rest.len() && rest[w].id == v.timers[i].id;
                    assert(rest[w] == ov.timers[k + w]);
                } else {
                    let w = choose|w: int| 0 <= w < due@.len() && due@[w].id == v.timers[i].id;
                    assert(due@[w] == ov.timers[w]);
                }
            }
            assert forall|i: int, j: int|
                0 <= i < v.handlers.len() && 0 <= j < v.timers.len() implies #[trigger] v.handlers[i].token
                != #[trigger] v.timers[j].id by {
                if has_id(rest, v.timers[j].id) {
                    let w = choose|w: int| 0 <= w < rest.len() && rest[w].id == v.timers[j].id;
                    assert(rest[w] == ov.timers[k + w]);
                } else {
                    let w = choose|w: int| 0 <= w < due@.len() && due@[w].id == v.timers[j].id;
                    assert(due@[w] == ov.timers[w]);
                }
            }
        }
        due
    }
}

/// Whether `deregister_event` finds anything for `token` in state `v`.
pub open spec fn spec_dereg_found<H, C, P>(v: CoreView<H, C, P>, token: Token) -> bool {
    reg_has(v.handlers, token) || has_id(v.timers, token)
}

/// The state `deregister_event` leaves behind: the matching I/O
/// registration removed, else the matching timer cancelled, else nothing.
pub open spec fn spec_deregister<H, C, P>(v: CoreView<H, C, P>, token: Token) -> CoreView<H, C, P> {
    if reg_has(v.handlers, token) {
        CoreView {
            handlers: v.handlers.remove(reg_find(v.handlers, token)),
            timers: v.timers,
            next_token: v.next_token,
            now: v.now,
            next_callback_id: v.next_callback_id,
            staged: v.staged,
        }
    } else if has_id(v.timers, token) {
        CoreView {
            handlers: v.handlers,
            timers: v.timers.remove(find_id(v.timers, token)),
            next_token: v.next_token,
            now: v.now,
            next_callback_id: v.next_callback_id,
            staged: v.staged,
        }
    } else {
        v
    }
}

/// Law: deregistering a token twice finds nothing the second time — the
/// second call reports "not found" and leaves the state exactly as the
/// first call left it, whatever the first call removed.
pub proof fn lemma_deregister_twice<H, C, P>(v: CoreView<H, C, P>, token: Token)
    requires
        core_inv(v),
    ensures
        !spec_dereg_found(spec_deregister(v, token), token),
        spec_deregister(spec_deregister(v, token), token) == spec_deregister(v, token),
{
    let v1 = spec_deregister(v, token);
    if reg_has(v.handlers, token) {
        crate::registry::lemma_reg_find_has(v.handlers, token);
        crate::registry::lemma_reg_remove(v.handlers, token, reg_find(v.handlers, token));
        assert(!has_id(v1.timers, token)) by {
            if has_id(v.timers, token) {
                crate::timer::lemma_find_id_has(v.timers, token);
                assert(v.handlers[reg_find(v.handlers, token)].token != v.timers[find_id(
                    v.timers,
                    token,
                )].id);
            }
        }
    } else if has_id(v.timers, token) {
        crate::timer::lemma_find_id_has(v.timers, token);
        crate::timer::lemma_remove_unique(v.timers, token, find_id(v.timers, token));
    }
}

/// Configuration for launching a reactor: on the current thread, a new
/// thread, or attached to an existing loop `L`.
pub struct ModuleCfg<L> {
    pub new_thread: bool,
    pub with_loop: Option<L>,
}

impl<L> ModuleCfg<L> {
    pub fn new_thread(self, it: bool) -> (r: ModuleCfg<L>)
        ensures
            r.new_thread == it,
            r.with_loop == self.with_loop,
    {
        ModuleCfg { new_thread: it, with_loop: self.with_loop }
    }

    pub fn with_loop(self, core: L) -> (r: ModuleCfg<L>)
        ensures
            r.new_thread == self.new_thread,
            r.with_loop == Some(core),
    {
        ModuleCfg { new_thread: self.new_thread, with_loop: Some(core) }
    }
}

/// A fresh launch configuration: current thread, no existing loop.
pub fn module<L>() -> (r: ModuleCfg<L>)
    ensures
        r.new_thread == false,
        r.with_loop is None,
{
    ModuleCfg { new_thread: false, with_loop: None }
}

} // verus!
