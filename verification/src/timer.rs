//! The timer wheel: an ordered deadline structure holding pending timers.
//!
//! Entries are kept sorted by deadline; ties are broken by arrival order
//! (a new entry goes after every entry whose deadline is not later).
//! `pop_due` removes every entry whose deadline has passed and re-arms
//! periodic entries at `now + period` before returning, so catch-up ticks
//! are coalesced rather than queued.

use vstd::prelude::*;

verus! {

use crate::Token;

/// One pending timer: its token, its absolute deadline in milliseconds,
/// the delay it was scheduled with (reused as the period when `interval`
/// is set), and the callback payload to fire.
pub struct TimerEntry<C> {
    pub id: Token,
    pub deadline: u64,
    pub millis: u64,
    pub interval: bool,
    pub cb: C,
}

/// Entries appear in non-decreasing deadline order.
pub open spec fn sorted_by_deadline<C>(s: Seq<TimerEntry<C>>) -> bool {
    forall|i: int, j: int| 0 <= i < j < s.len() ==> s[i].deadline <= s[j].deadline
}

/// No token occurs twice.
pub open spec fn unique_ids<C>(s: Seq<TimerEntry<C>>) -> bool {
    forall|i: int, j: int| 0 <= i < j < s.len() ==> s[i].id != s[j].id
}

/// Index at which an entry with deadline `d` is inserted: after every
/// entry whose deadline is at most `d`, before the rest.
pub open spec fn insert_pos<C>(s: Seq<TimerEntry<C>>, d: u64) -> int
    decreases s.len(),
{
    if s.len() == 0 {
        0
    } else if s[0].deadline > d {
        0
    } else {
        1 + insert_pos(s.drop_first(), d)
    }
}

/// Least index holding `id`, or `s.len()` when no entry does.
pub open spec fn find_id<C>(s: Seq<TimerEntry<C>>, id: Token) -> int
    decreases s.len(),
{
    if s.len() == 0 {
        0
    } else if s[0].id == id {
        0
    } else {
        1 + find_id(s.drop_first(), id)
    }
}

/// Some entry carries `id`.
pub open spec fn has_id<C>(s: Seq<TimerEntry<C>>, id: Token) -> bool {
    exists|i: int| 0 <= i < s.len() && s[i].id == id
}

pub proof fn lemma_insert_pos_bounds<C>(s: Seq<TimerEntry<C>>, d: u64)
    ensures
        0 <= insert_pos(s, d) <= s.len(),
        forall|i: int| 0 <= i < insert_pos(s, d) ==> s[i].deadline <= d,
        insert_pos(s, d) < s.len() ==> s[insert_pos(s, d)].deadline > d,
    decreases s.len(),
{
    if s.len() == 0 {
    } else if s[0].deadline > d {
    } else {
        lemma_insert_pos_bounds(s.drop_first(), d);
        assert forall|i: int| 0 <= i < insert_pos(s, d) implies s[i].deadline <= d by {
            if i > 0 {
                assert(s.drop_first()[i - 1] == s[i]);
            }
        }
        if insert_pos(s, d) < s.len() {
            assert(s.drop_first()[insert_pos(s, d) - 1] == s[insert_pos(s, d)]);
        }
    }
}

/// Any index with the prefix-below / first-above property is `insert_pos`.
pub proof fn lemma_insert_pos_unique<C>(s: Seq<TimerEntry<C>>, d: u64, c: int)
    requires
        0 <= c <= s.len(),
        forall|i: int| 0 <= i < c ==> s[i].deadline <= d,
        c < s.len() ==> s[c].deadline > d,
    ensures
        c == insert_pos(s, d),
    decreases s.len(),
{
    if s.len() == 0 {
    } else if s[0].deadline > d {
        assert(c == 0);
    } else {
        assert(c >= 1);
        assert forall|i: int| 0 <= i < c - 1 implies s.drop_first()[i].deadline <= d by {
            assert(s.drop_first()[i] == s[i + 1]);
        }
        if c - 1 < s.drop_first().len() {
            assert(s.drop_first()[c - 1] == s[c]);
        }
        lemma_insert_pos_unique(s.drop_first(), d, c - 1);
    }
}

/// Inserting at `insert_pos` keeps the sequence sorted.
pub proof fn lemma_insert_sorted<C>(s: Seq<TimerEntry<C>>, e: TimerEntry<C>)
    requires
        sorted_by_deadline(s),
    ensures
        sorted_by_deadline(s.insert(insert_pos(s, e.deadline), e)),
{
    lemma_insert_pos_bounds(s, e.deadline);
    let p = insert_pos(s, e.deadline);
    let t = s.insert(p, e);
    assert forall|i: int, j: int| 0 <= i < j < t.len() implies t[i].deadline <= t[j].deadline by {
        if i < p && j > p {
            assert(t[i] == s[i]);
            assert(t[j] == s[j - 1]);
        } else if i == p && j > p {
            assert(t[j] == s[j - 1]);
            assert(s[j - 1].deadline > e.deadline || s[j - 1].deadline >= s[p].deadline);
        } else if i < p && j == p {
            assert(t[i] == s[i]);
        }
    }
}

/// The entries due at `now`: deadline has passed.
pub open spec fn due_filter<C>(s: Seq<TimerEntry<C>>, now: u64) -> Seq<TimerEntry<C>> {
    s.filter(|e: TimerEntry<C>| e.deadline <= now)
}

/// A periodic entry re-armed at the moment it fired: same token, same
/// period, next deadline `now + period` (coalescing, not drift-compensating).
pub open spec fn rearmed_entry<C>(e: TimerEntry<C>, now: u64) -> TimerEntry<C> {
    TimerEntry { id: e.id, deadline: (now + e.millis) as u64, millis: e.millis, interval: e.interval, cb: e.cb }
}

/// Sorted stable insertion at the spec level; mirrors `TimerWheel::schedule`.
pub open spec fn insert_sorted<C>(s: Seq<TimerEntry<C>>, e: TimerEntry<C>) -> Seq<TimerEntry<C>> {
    s.insert(insert_pos(s, e.deadline), e)
}

/// The wheel left after a sweep at `now`: the not-yet-due suffix `rest`,
/// with every periodic entry of `due` re-armed into it, in firing order.
pub open spec fn rearm_all<C>(rest: Seq<TimerEntry<C>>, due: Seq<TimerEntry<C>>, now: u64) -> Seq<TimerEntry<C>>
    decreases due.len(),
{
    if due.len() == 0 {
        rest
    } else {
        let rest1 = if due[0].interval {
            insert_sorted(rest, rearmed_entry(due[0], now))
        } else {
            rest
        };
        rearm_all(rest1, due.drop_first(), now)
    }
}

pub proof fn lemma_rearm_all_push<C>(rest: Seq<TimerEntry<C>>, q: Seq<TimerEntry<C>>, e: TimerEntry<C>, now: u64)
    ensures
        rearm_all(rest, q.push(e), now) == (if e.interval {
            insert_sorted(rearm_all(rest, q, now), rearmed_entry(e, now))
        } else {
            rearm_all(rest, q, now)
        }),
    decreases q.len(),
{
    if q.len() == 0 {
        assert(q.push(e)[0] == e);
        assert(q.push(e).drop_first() =~= Seq::<TimerEntry<C>>::empty());
        let rest1 = if e.interval {
            insert_sorted(rest, rearmed_entry(e, now))
        } else {
            rest
        };
        assert(rearm_all(rest1, Seq::<TimerEntry<C>>::empty(), now) == rest1);
        assert(rearm_all(rest, q, now) == rest);
    } else {
        assert(q.push(e)[0] == q[0]);
        assert(q.push(e).drop_first() =~= q.drop_first().push(e));
        let rest1 = if q[0].interval {
            insert_sorted(rest, rearmed_entry(q[0], now))
        } else {
            rest
        };
        lemma_rearm_all_push(rest1, q.drop_first(), e, now);
    }
}

/// A contiguous slice of a sorted sequence is sorted.
pub proof fn lemma_subrange_sorted<C>(s: Seq<TimerEntry<C>>, a: int, b: int)
    requires
        sorted_by_deadline(s),
        0 <= a <= b <= s.len(),
    ensures
        sorted_by_deadline(s.subrange(a, b)),
{
    let t = s.subrange(a, b);
    assert forall|i: int, j: int| 0 <= i < j < t.len() implies t[i].deadline <= t[j].deadline by {
        assert(t[i] == s[a + i]);
        assert(t[j] == s[a + j]);
    }
}

/// In a sorted sequence the due entries are exactly the prefix up to
/// `insert_pos`: the subset with deadline at most `now`, in order.
pub proof fn lemma_due_prefix<C>(s: Seq<TimerEntry<C>>, now: u64)
    requires
        sorted_by_deadline(s),
    ensures
        s.subrange(0, insert_pos(s, now)) == due_filter(s, now),
    decreases s.len(),
{
    reveal(Seq::filter);
    lemma_insert_pos_bounds(s, now);
    let k = insert_pos(s, now);
    if s.len() == 0 {
        assert(s.subrange(0, 0) =~= due_filter(s, now));
    } else {
        let s1 = s.drop_last();
        assert(sorted_by_deadline(s1)) by {
            assert forall|i: int, j: int| 0 <= i < j < s1.len() implies s1[i].deadline <= s1[j].deadline by {
                assert(s1[i] == s[i]);
                assert(s1[j] == s[j]);
            }
        }
        lemma_due_prefix(s1, now);
        if s.last().deadline <= now {
            assert(k == s.len()) by {
                if k < s.len() {
                    assert(s[k].deadline > now);
                    assert(s[s.len() - 1].deadline >= s[k].deadline);
                }
            }
            assert forall|i: int| 0 <= i < s1.len() implies s1[i].deadline <= now by {
                assert(s1[i] == s[i]);
                assert(s[i].deadline <= s[s.len() - 1].deadline);
            }
            lemma_insert_pos_unique(s1, now, s1.len() as int);
            assert(s.subrange(0, k) =~= s1.subrange(0, s1.len() as int).push(s.last()));
        } else {
            assert(k <= s.len() - 1) by {
                if k == s.len() {
                    assert(s[s.len() - 1].deadline <= now);
                }
            }
            assert forall|i: int| 0 <= i < k implies s1[i].deadline <= now by {
                assert(s1[i] == s[i]);
            }
            if k < s1.len() {
                assert(s1[k] == s[k]);
            }
            lemma_insert_pos_unique(s1, now, k);
            assert(s.subrange(0, k) =~= s1.subrange(0, k));
        }
    }
}

/// The wheel: pending timers in non-decreasing deadline order.
pub struct TimerWheel<C> {
    entries: Vec<TimerEntry<C>>,
}

impl<C> View for TimerWheel<C> {
    type V = Seq<TimerEntry<C>>;

    closed spec fn view(&self) -> Seq<TimerEntry<C>> {
        self.entries@
    }
}

impl<C> TimerWheel<C> {
    /// Well-formed: sorted by deadline.
    pub open spec fn wf(&self) -> bool {
        sorted_by_deadline(self@)
    }

    pub fn new() -> (w: TimerWheel<C>)
        ensures
            w@ == Seq::<TimerEntry<C>>::empty(),
            w.wf(),
    {
        TimerWheel { entries: Vec::new() }
    }

    pub fn len(&self) -> (n: usize)
        ensures
            n == self@.len(),
    {
        self.entries.len()
    }

    /// The earliest pending deadline, used to bound the poller's blocking
    /// timeout; `None` when no timer is pending.
    pub fn next_deadline(&self) -> (r: Option<u64>)
        requires
            self.wf(),
        ensures
            match r {
                Some(d) => self@.len() > 0 && d == self@[0].deadline && forall|i: int|
                    0 <= i < self@.len() ==> d <= self@[i].deadline,
                None => self@.len() == 0,
            },
    {
        if self.entries.len() == 0 {
            None
        } else {
            Some(self.entries[0].deadline)
        }
    }

    /// Insert `e` after every entry whose deadline is at most `e.deadline`:
    /// deadline order, ties by arrival order.
    pub fn schedule(&mut self, e: TimerEntry<C>)
        requires
            old(self).wf(),
        ensures
            final(self).wf(),
            final(self)@ == old(self)@.insert(insert_pos(old(self)@, e.deadline), e),
    {
        let ghost s = self@;
        let d = e.deadline;
        let mut i: usize = 0;
        while i < self.entries.len() && self.entries[i].deadline <= d
            invariant
                self@ == s,
                0 <= i <= s.len(),
                forall|j: int| 0 <= j < i ==> s[j].deadline <= d,
            decreases s.len() - i,
        {
            i = i + 1;
        }
        proof {
            lemma_insert_pos_unique(s, d, i as int);
            lemma_insert_sorted(s, e);
        }
        self.entries.insert(i, e);
    }

    /// Remove and return every entry whose deadline has passed, in deadline
    /// order with ties in arrival order. Each periodic entry among them is
    /// re-armed at `now + period` before this returns, so it cannot fire
    /// twice in one sweep and missed ticks are coalesced.
    pub fn pop_due(&mut self, now: u64) -> (due: Vec<TimerEntry<C>>) where C: Copy
        requires
            old(self).wf(),
            forall|i: int|
                0 <= i < old(self)@.len() && old(self)@[i].interval && old(self)@[i].deadline <= now
                    ==> old(self)@[i].millis + now <= u64::MAX,
        ensures
            final(self).wf(),
            due@ == old(self)@.subrange(0, insert_pos(old(self)@, now)),
            due@ == due_filter(old(self)@, now),
            forall|i: int| 0 <= i < due@.len() ==> due@[i].deadline <= now,
            final(self)@ == rearm_all(
                old(self)@.subrange(insert_pos(old(self)@, now), old(self)@.len() as int),
                due@,
                now,
            ),
    {
        let ghost s = self@;
        let mut k: usize = 0;
        while k < self.entries.len() && self.entries[k].deadline <= now
            invariant
                self@ == s,
                0 <= k <= s.len(),
                forall|j: int| 0 <= j < k ==> s[j].deadline <= now,
            decreases s.len() - k,
        {
            k = k + 1;
        }
        proof {
            lemma_insert_pos_unique(s, now, k as int);
            lemma_due_prefix(s, now);
            lemma_subrange_sorted(s, k as int, s.len() as int);
        }
        let mut rest = self.entries.split_off(k);
        core::mem::swap(&mut self.entries, &mut rest);
        let due = rest;
        let ghost tail0 = self@;
        let mut idx: usize = 0;
        while idx < due.len()
            invariant
                0 <= idx <= due@.len(),
                due@ == s.subrange(0, insert_pos(s, now)),
                forall|j: int| 0 <= j < due@.len() ==> due@[j].deadline <= now,
                forall|j: int|
                    0 <= j < due@.len() && due@[j].interval ==> due@[j].millis + now <= u64::MAX,
                self.wf(),
                self@ == rearm_all(tail0, due@.subrange(0, idx as int), now),
            decreases due@.len() - idx,
        {
            if due[idx].interval {
                let e2 = TimerEntry {
                    id: due[idx].id,
                    deadline: now + due[idx].millis,
                    millis: due[idx].millis,
                    interval: true,
                    cb: due[idx].cb,
                };
                self.schedule(e2);
                proof {
                    assert(e2 == rearmed_entry(due@[idx as int], now));
                }
            }
            proof {
                lemma_rearm_all_push(tail0, due@.subrange(0, idx as int), due@[idx as int], now);
                assert(due@.subrange(0, idx + 1) =~= due@.subrange(0, idx as int).push(due@[idx as int]));
            }
            idx = idx + 1;
        }
        proof {
            assert(due@.subrange(0, due@.len() as int) =~= due@);
        }
        due
    }

    /// Remove the first entry carrying `id`; report whether one was found.
    pub fn cancel(&mut self, id: Token) -> (r: bool)
        requires
            old(self).wf(),
        ensures
            final(self).wf(),
            r == has_id(old(self)@, id),
            r ==> 0 <= find_id(old(self)@, id) < old(self)@.len() && old(self)@[find_id(
                old(self)@,
                id,
            )].id == id,
            r ==> final(self)@ == old(self)@.remove(find_id(old(self)@, id)),
            !r ==> final(self)@ == old(self)@,
            unique_ids(old(self)@) ==> !has_id(final(self)@, id),
            unique_ids(old(self)@) ==> unique_ids(final(self)@),
    {
        let ghost s = self@;
        let mut i: usize = 0;
        while i < self.entries.len() && self.entries[i].id != id
            invariant
                self@ == s,
                0 <= i <= s.len(),
                forall|j: int| 0 <= j < i ==> s[j].id != id,
            decreases s.len() - i,
        {
            i = i + 1;
        }
        if i < self.entries.len() {
            proof {
                lemma_find_id_unique(s, id, i as int);
                lemma_remove_sorted(s, i as int);
                if unique_ids(s) {
                    lemma_remove_unique(s, id, i as int);
                }
            }
            self.entries.remove(i);
            true
        } else {
            assert(!has_id(s, id));
            false
        }
    }
}

/// Every entry carrying `id` has deadline `d`.
pub open spec fn id_deadline_bound<C>(s: Seq<TimerEntry<C>>, id: Token, d: u64) -> bool {
    forall|i: int| 0 <= i < s.len() && s[i].id == id ==> s[i].deadline == d
}

/// A contiguous slice of a sequence with unique ids has unique ids.
pub proof fn lemma_subrange_unique<C>(s: Seq<TimerEntry<C>>, a: int, b: int)
    requires
        unique_ids(s),
        0 <= a <= b <= s.len(),
    ensures
        unique_ids(s.subrange(a, b)),
{
    let t = s.subrange(a, b);
    assert forall|i: int, j: int| 0 <= i < j < t.len() implies t[i].id != t[j].id by {
        assert(t[i] == s[a + i]);
        assert(t[j] == s[a + j]);
    }
}

/// Where the inserted entry and the old entries sit in `insert_sorted`.
pub proof fn lemma_insert_sorted_frame<C>(s: Seq<TimerEntry<C>>, e: TimerEntry<C>)
    ensures
        ({
            let p = insert_pos(s, e.deadline);
            let t = insert_sorted(s, e);
            &&& 0 <= p <= s.len()
            &&& t.len() == s.len() + 1
            &&& t[p] == e
            &&& forall|i: int| 0 <= i < p ==> t[i] == s[i]
            &&& forall|i: int| p <= i < s.len() ==> t[i + 1] == s[i]
        }),
{
    lemma_insert_pos_bounds(s, e.deadline);
    s.insert_ensures(insert_pos(s, e.deadline), e);
}

/// Inserting an entry with a fresh id keeps ids unique; every entry of the
/// result is the new entry or one of the old ones.
pub proof fn lemma_insert_sorted_members<C>(s: Seq<TimerEntry<C>>, e: TimerEntry<C>)
    requires
        unique_ids(s),
        forall|i: int| 0 <= i < s.len() ==> s[i].id != e.id,
    ensures
        ({
            let t = insert_sorted(s, e);
            &&& t.len() == s.len() + 1
            &&& unique_ids(t)
            &&& has_id(t, e.id)
            &&& forall|i: int| 0 <= i < t.len() ==> t[i] == e || s.contains(#[trigger] t[i])
        }),
{
    lemma_insert_sorted_frame(s, e);
    let p = insert_pos(s, e.deadline);
    let t = insert_sorted(s, e);
    assert forall|i: int| 0 <= i < t.len() implies t[i] == e || s.contains(#[trigger] t[i]) by {
        if i < p {
            assert(t[i] == s[i]);
        } else if i > p {
            assert(t[i] == s[i - 1]);
        }
    }
    assert(t[p] == e);
    assert forall|i: int, j: int| 0 <= i < j < t.len() implies t[i].id != t[j].id by {
        let i0 = if i < p { i } else { i - 1 };
        let j0 = if j < p { j } else { j - 1 };
        if i == p {
            assert(t[j] == s[j0]);
        } else if j == p {
            assert(t[i] == s[i0]);
        } else {
            assert(t[i] == s[i0]);
            assert(t[j] == s[j0]);
        }
    }
}

/// A sweep never invents ids: every id left in the wheel was already there,
/// and ids stay unique.
pub proof fn lemma_rearm_all_ids<C>(acc: Seq<TimerEntry<C>>, due: Seq<TimerEntry<C>>, now: u64)
    requires
        unique_ids(acc),
        unique_ids(due),
        forall|i: int, j: int|
            0 <= i < acc.len() && 0 <= j < due.len() ==> #[trigger] acc[i].id != #[trigger] due[j].id,
    ensures
        ({
            let a = rearm_all(acc, due, now);
            &&& unique_ids(a)
            &&& forall|j: int|
                0 <= j < a.len() ==> has_id(acc, #[trigger] a[j].id) || has_id(due, a[j].id)
        }),
    decreases due.len(),
{
    if due.len() == 0 {
    } else {
        let e = due[0];
        let due1 = due.drop_first();
        assert(forall|j: int| 0 <= j < due1.len() ==> due1[j] == due[j + 1]);
        assert(unique_ids(due1)) by {
            assert forall|a: int, b: int| 0 <= a < b < due1.len() implies due1[a].id != due1[b].id by {
                assert(due1[a] == due[a + 1]);
                assert(due1[b] == due[b + 1]);
            }
        }
        if e.interval {
            let re = rearmed_entry(e, now);
            let acc1 = insert_sorted(acc, re);
            lemma_insert_sorted_members(acc, re);
            assert forall|i: int, j: int|
                0 <= i < acc1.len() && 0 <= j < due1.len() implies #[trigger] acc1[i].id
                != #[trigger] due1[j].id by {
                assert(due1[j] == due[j + 1]);
                if acc1[i] == re {
                } else {
                    assert(acc.contains(acc1[i]));
                    let w = choose|w: int| 0 <= w < acc.len() && acc[w] == acc1[i];
                    assert(acc[w].id != due[j + 1].id);
                }
            }
            lemma_rearm_all_ids(acc1, due1, now);
            let a = rearm_all(acc, due, now);
            assert(a == rearm_all(acc1, due1, now));
            assert forall|j: int|
                0 <= j < a.len() implies has_id(acc, #[trigger] a[j].id) || has_id(due, a[j].id) by {
                if has_id(acc1, a[j].id) {
                    let w = choose|w: int| 0 <= w < acc1.len() && acc1[w].id == a[j].id;
                    if acc1[w] == re {
                        assert(due[0].id == a[j].id);
                    } else {
                        assert(acc.contains(acc1[w]));
                        let v = choose|v: int| 0 <= v < acc.len() && acc[v] == acc1[w];
                        assert(has_id(acc, a[j].id));
                    }
                } else {
                    let w = choose|w: int| 0 <= w < due1.len() && due1[w].id == a[j].id;
                    assert(due1[w] == due[w + 1]);
                }
            }
        } else {
            assert forall|i: int, j: int|
                0 <= i < acc.len() && 0 <= j < due1.len() implies #[trigger] acc[i].id
                != #[trigger] due1[j].id by {
                assert(due1[j] == due[j + 1]);
            }
            lemma_rearm_all_ids(acc, due1, now);
            let a = rearm_all(acc, due, now);
            assert(a == rearm_all(acc, due1, now));
            assert forall|j: int|
                0 <= j < a.len() implies has_id(acc, #[trigger] a[j].id) || has_id(due, a[j].id) by {
                if has_id(due1, a[j].id) {
                    let w = choose|w: int| 0 <= w < due1.len() && due1[w].id == a[j].id;
                    assert(due1[w] == due[w + 1]);
                }
            }
        }
    }
}

/// Law: a sweep at `now` returns exactly the pending entries whose deadline
/// has passed, in non-decreasing deadline order, and nothing else.
pub proof fn lemma_sweep_returns_exactly_due<C>(s: Seq<TimerEntry<C>>, now: u64)
    requires
        sorted_by_deadline(s),
    ensures
        s.subrange(0, insert_pos(s, now)) == due_filter(s, now),
        sorted_by_deadline(due_filter(s, now)),
        forall|i: int| 0 <= i < due_filter(s, now).len() ==> due_filter(s, now)[i].deadline <= now,
        forall|i: int|
            0 <= i < s.len() && s[i].deadline <= now ==> due_filter(s, now).contains(s[i]),
{
    lemma_due_prefix(s, now);
    lemma_insert_pos_bounds(s, now);
    let k = insert_pos(s, now);
    lemma_subrange_sorted(s, 0, k);
    let due = due_filter(s, now);
    assert forall|i: int| 0 <= i < due.len() implies due[i].deadline <= now by {
        assert(due[i] == s[i]);
    }
    assert forall|i: int| 0 <= i < s.len() && s[i].deadline <= now implies due.contains(s[i]) by {
        if i >= k {
            assert(s[k].deadline > now);
            assert(s[k].deadline <= s[i].deadline || i == k);
            assert(false);
        }
        assert(due[i] == s[i]);
    }
}

/// While the fold of a sweep runs, one id is tracked: it is absent from the
/// accumulator and about to be re-armed with deadline `d`, or it is already
/// in the accumulator and every entry carrying it has deadline `d`.
proof fn lemma_rearm_tracks_id<C>(
    acc: Seq<TimerEntry<C>>,
    due: Seq<TimerEntry<C>>,
    now: u64,
    id: Token,
    d: u64,
)
    requires
        unique_ids(due),
        forall|j: int| 0 <= j < due.len() && due[j].interval ==> due[j].millis + now <= u64::MAX,
        (!has_id(acc, id) && exists|j: int|
            0 <= j < due.len() && due[j].id == id && due[j].interval && now + due[j].millis == d)
            || (has_id(acc, id) && id_deadline_bound(acc, id, d) && forall|j: int|
            0 <= j < due.len() ==> due[j].id != id),
    ensures
        has_id(rearm_all(acc, due, now), id),
        id_deadline_bound(rearm_all(acc, due, now), id, d),
    decreases due.len(),
{
    if due.len() == 0 {
    } else {
        let e = due[0];
        let acc1 = if e.interval {
            insert_sorted(acc, rearmed_entry(e, now))
        } else {
            acc
        };
        let due1 = due.drop_first();
        assert(unique_ids(due1)) by {
            assert forall|a: int, b: int| 0 <= a < b < due1.len() implies due1[a].id != due1[b].id by {
                assert(due1[a] == due[a + 1]);
                assert(due1[b] == due[b + 1]);
            }
        }
        assert forall|j: int| 0 <= j < due1.len() && due1[j].interval implies due1[j].millis + now
            <= u64::MAX by {
            assert(due1[j] == due[j + 1]);
        }
        if e.interval {
            let re = rearmed_entry(e, now);
            let p = insert_pos(acc, re.deadline);
            lemma_insert_pos_bounds(acc, re.deadline);
            // every entry of acc1 is re or comes from acc
            assert forall|i: int| 0 <= i < acc1.len() implies acc1[i] == re || (exists|i0: int|
                0 <= i0 < acc.len() && acc[i0] == acc1[i]) by {
                if i < p {
                    assert(acc1[i] == acc[i]);
                } else if i > p {
                    assert(acc1[i] == acc[i - 1]);
                }
            }
            assert(acc1[p] == re);
        }
        if !has_id(acc, id) {
            let j = choose|j: int|
                0 <= j < due.len() && due[j].id == id && due[j].interval && now + due[j].millis
                    == d;
            if j == 0 {
                // e carries the id and is re-armed now
                let re = rearmed_entry(e, now);
                assert(re.id == id && re.deadline == d);
                assert(has_id(acc1, id));
                assert(id_deadline_bound(acc1, id, d));
                assert(forall|jj: int| 0 <= jj < due1.len() ==> due1[jj] == due[jj + 1]);
                assert(forall|jj: int| 0 <= jj < due1.len() ==> due1[jj].id != id);
                lemma_rearm_tracks_id(acc1, due1, now, id, d);
            } else {
                // some later entry carries it; e does not
                assert(e.id != id);
                assert(!has_id(acc1, id)) by {
                    if e.interval {
                        assert(rearmed_entry(e, now).id != id);
                    }
                }
                assert(due1[j - 1] == due[j]);
                lemma_rearm_tracks_id(acc1, due1, now, id, d);
            }
        } else {
            assert(e.id != id);
            assert(has_id(acc1, id) && id_deadline_bound(acc1, id, d)) by {
                if e.interval {
                    assert(rearmed_entry(e, now).id != id);
                    let w = choose|i: int| 0 <= i < acc.len() && acc[i].id == id;
                    let p = insert_pos(acc, rearmed_entry(e, now).deadline);
                    if w < p {
                        assert(acc1[w] == acc[w]);
                    } else {
                        assert(acc1[w + 1] == acc[w]);
                    }
                }
            }
            lemma_rearm_tracks_id(acc1, due1, now, id, d);
        }
    }
}

/// Law: a periodic timer fired at time `now` fires at most once in the sweep,
/// and afterwards is pending again at exactly `now + period`, so it can next
/// be observed due only at a time at least `now + period`.
pub proof fn lemma_periodic_coalesced<C>(s: Seq<TimerEntry<C>>, now: u64, i: int)
    requires
        sorted_by_deadline(s),
        unique_ids(s),
        0 <= i < s.len(),
        s[i].interval,
        s[i].deadline <= now,
        forall|j: int|
            0 <= j < s.len() && s[j].interval && s[j].deadline <= now ==> s[j].millis + now
                <= u64::MAX,
    ensures
        ({
            let due = due_filter(s, now);
            let after = rearm_all(s.subrange(insert_pos(s, now), s.len() as int), due, now);
            &&& unique_ids(due)
            &&& has_id(after, s[i].id)
            &&& id_deadline_bound(after, s[i].id, (now + s[i].millis) as u64)
            &&& forall|j: int|
                0 <= j < after.len() && after[j].id == s[i].id ==> after[j].deadline >= now
                    + s[i].millis
        }),
{
    lemma_due_prefix(s, now);
    lemma_insert_pos_bounds(s, now);
    let k = insert_pos(s, now);
    lemma_subrange_unique(s, 0, k);
    let due = due_filter(s, now);
    let rest = s.subrange(k, s.len() as int);
    let id = s[i].id;
    assert(i < k) by {
        if i >= k {
            assert(s[k].deadline > now);
            assert(i > k ==> s[k].deadline <= s[i].deadline);
        }
    }
    assert(due[i] == s[i]);
    assert(!has_id(rest, id)) by {
        assert forall|j: int| 0 <= j < rest.len() implies rest[j].id != id by {
            assert(rest[j] == s[k + j]);
        }
    }
    assert forall|j: int| 0 <= j < due.len() && due[j].interval implies due[j].millis + now
        <= u64::MAX by {
        assert(due[j] == s[j]);
    }
    assert(due[i].id == id && due[i].interval && now + due[i].millis == now + s[i].millis);
    lemma_rearm_tracks_id(rest, due, now, id, (now + s[i].millis) as u64);
}

/// Where `id` sits when some entry carries it.
pub proof fn lemma_find_id_has<C>(s: Seq<TimerEntry<C>>, id: Token)
    requires
        has_id(s, id),
    ensures
        0 <= find_id(s, id) < s.len(),
        s[find_id(s, id)].id == id,
    decreases s.len(),
{
    if s[0].id == id {
    } else {
        assert(has_id(s.drop_first(), id)) by {
            let w = choose|w: int| 0 <= w < s.len() && s[w].id == id;
            assert(s.drop_first()[w - 1] == s[w]);
        }
        lemma_find_id_has(s.drop_first(), id);
        assert(s.drop_first()[find_id(s.drop_first(), id)] == s[find_id(s, id)]);
    }
}

/// Any index whose prefix misses `id` and which holds `id` is `find_id`.
proof fn lemma_find_id_unique<C>(s: Seq<TimerEntry<C>>, id: Token, c: int)
    requires
        0 <= c < s.len(),
        forall|i: int| 0 <= i < c ==> s[i].id != id,
        s[c].id == id,
    ensures
        c == find_id(s, id),
        has_id(s, id),
    decreases s.len(),
{
    if s[0].id == id {
        assert(c == 0);
    } else {
        assert(c >= 1);
        assert forall|i: int| 0 <= i < c - 1 implies s.drop_first()[i].id != id by {
            assert(s.drop_first()[i] == s[i + 1]);
        }
        assert(s.drop_first()[c - 1] == s[c]);
        lemma_find_id_unique(s.drop_first(), id, c - 1);
    }
}

/// Removing an entry keeps the sequence sorted.
proof fn lemma_remove_sorted<C>(s: Seq<TimerEntry<C>>, c: int)
    requires
        sorted_by_deadline(s),
        0 <= c < s.len(),
    ensures
        sorted_by_deadline(s.remove(c)),
{
    let t = s.remove(c);
    assert forall|i: int, j: int| 0 <= i < j < t.len() implies t[i].deadline <= t[j].deadline by {
        let i0 = if i < c { i } else { i + 1 };
        let j0 = if j < c { j } else { j + 1 };
        assert(t[i] == s[i0]);
        assert(t[j] == s[j0]);
    }
}

/// Removing the only entry with `id` removes `id`, and keeps ids unique.
pub proof fn lemma_remove_unique<C>(s: Seq<TimerEntry<C>>, id: Token, c: int)
    requires
        unique_ids(s),
        0 <= c < s.len(),
        s[c].id == id,
    ensures
        !has_id(s.remove(c), id),
        unique_ids(s.remove(c)),
{
    let t = s.remove(c);
    assert forall|i: int| 0 <= i < t.len() implies t[i].id != id by {
        let i0 = if i < c { i } else { i + 1 };
        assert(t[i] == s[i0]);
    }
    assert forall|i: int, j: int| 0 <= i < j < t.len() implies t[i].id != t[j].id by {
        let i0 = if i < c { i } else { i + 1 };
        let j0 = if j < c { j } else { j + 1 };
        assert(t[i] == s[i0]);
        assert(t[j] == s[j0]);
    }
}

} // verus!
