//! Cross-thread callback cells and their liveness bookkeeping.
//!
//! A callback cell pairs a captured environment with a captured function;
//! `dispatch` is the only code path that reunites them, at exactly the
//! types used at construction. Each cross-thread callback handle owns a
//! canary; the pending-callback table is keyed by canary id, and an entry
//! whose canary no longer resolves is pruned without ever being invoked.

use vstd::prelude::*;

verus! {

/// Liveness marker for one registered cross-thread callback. The handle
/// owns it strongly; the reactor side keeps only a weak reference, and
/// failure to resolve that reference is the sole signal that the callback
/// is no longer wanted.
#[derive(Clone, Copy, Debug, PartialEq, Eq, Structural)]
pub struct Canary {
    pub callback_id: i32,
}

/// A request to invoke a registered callback: the (still typed) input and
/// the canary naming the target cell.
pub struct CallbackReq<X> {
    pub x: X,
    pub canary: Canary,
}

/// What travels over the cross-thread channel.
pub enum CallbackEv<X> {
    Req(CallbackReq<X>),
}

/// A deferred unit of execution: a captured environment, a captured
/// function, and the canary of the handle that owns it. The pairing of
/// environment and function is fixed at construction and never changes.
pub struct CallbackImpl<W, F> {
    pub w: W,
    pub f: F,
    pub canary: Canary,
}

impl<W, F> CallbackImpl<W, F> {
    pub fn new(w: W, f: F, c: &Canary) -> (r: CallbackImpl<W, F>)
        ensures
            r.w == w,
            r.f == f,
            r.canary == *c,
    {
        CallbackImpl { w, f, canary: *c }
    }
}

/// Reunite a cell's environment and function: invoke the captured function
/// on (environment, input) and store the environment it returns. Nothing
/// else may reinterpret the cell's payloads.
pub fn dispatch<W, X, F>(cbi: CallbackImpl<W, F>, x: X) -> (r: CallbackImpl<W, F>) where F: Fn(W, X) -> W
    requires
        call_requires(cbi.f, (cbi.w, x)),
    ensures
        r.f == cbi.f,
        r.canary == cbi.canary,
        call_ensures(cbi.f, (cbi.w, x), r.w),
{
    let CallbackImpl { w, f, canary } = cbi;
    let w2 = f(w, x);
    CallbackImpl { w: w2, f, canary }
}

/// A pending cross-thread callback held by the loop driver: its canary id
/// and its cell.
pub struct PendingCallback<C> {
    pub id: i32,
    pub cell: C,
}

/// No canary id occurs twice.
pub open spec fn cb_unique<C>(s: Seq<PendingCallback<C>>) -> bool {
    forall|i: int, j: int| 0 <= i < j < s.len() ==> s[i].id != s[j].id
}

/// Some entry carries `id`.
pub open spec fn cb_has<C>(s: Seq<PendingCallback<C>>, id: i32) -> bool {
    exists|i: int| 0 <= i < s.len() && s[i].id == id
}

/// Least index holding `id`, or `s.len()` when no entry does.
pub open spec fn cb_find<C>(s: Seq<PendingCallback<C>>, id: i32) -> int
    decreases s.len(),
{
    if s.len() == 0 {
        0
    } else if s[0].id == id {
        0
    } else {
        1 + cb_find(s.drop_first(), id)
    }
}

proof fn lemma_cb_find_unique<C>(s: Seq<PendingCallback<C>>, id: i32, c: int)
    requires
        0 <= c < s.len(),
        forall|i: int| 0 <= i < c ==> s[i].id != id,
        s[c].id == id,
    ensures
        c == cb_find(s, id),
        cb_has(s, id),
    decreases s.len(),
{
    if s[0].id == id {
        assert(c == 0);
    } else {
        assert(c >= 1);
        assert forall|i: int| 0 <= i < c - 1 implies s.drop_first()[i].id != id by {
            assert(s.drop_first()[i] == s[i + 1]);
        }
        assert(s.drop_first()[c - 1] == s[c]);
        lemma_cb_find_unique(s.drop_first(), id, c - 1);
    }
}

proof fn lemma_cb_remove<C>(s: Seq<PendingCallback<C>>, id: i32, c: int)
    requires
        cb_unique(s),
        0 <= c < s.len(),
        s[c].id == id,
    ensures
        !cb_has(s.remove(c), id),
        cb_unique(s.remove(c)),
{
    let r = s.remove(c);
    assert forall|i: int| 0 <= i < r.len() implies r[i].id != id by {
        let i0 = if i < c { i } else { i + 1 };
        assert(r[i] == s[i0]);
    }
    assert forall|i: int, j: int| 0 <= i < j < r.len() implies r[i].id != r[j].id by {
        let i0 = if i < c { i } else { i + 1 };
        let j0 = if j < c { j } else { j + 1 };
        assert(r[i] == s[i0]);
        assert(r[j] == s[j0]);
    }
}

/// The entries of `s` whose mask bit is set, in order.
pub open spec fn mask_filter<C>(s: Seq<PendingCallback<C>>, m: Seq<bool>) -> Seq<PendingCallback<C>>
    recommends
        s.len() == m.len(),
    decreases s.len(),
{
    if s.len() == 0 {
        Seq::empty()
    } else {
        let r = mask_filter(s.drop_last(), m.drop_last());
        if m.len() >= 1 && m.last() {
            r.push(s.last())
        } else {
            r
        }
    }
}

/// The table of pending cross-thread callbacks, keyed by canary id.
pub struct CallbackTable<C> {
    entries: Vec<PendingCallback<C>>,
}

impl<C> View for CallbackTable<C> {
    type V = Seq<PendingCallback<C>>;

    closed spec fn view(&self) -> Seq<PendingCallback<C>> {
        self.entries@
    }
}

impl<C> CallbackTable<C> {
    /// Well-formed: one entry per canary id.
    pub open spec fn wf(&self) -> bool {
        cb_unique(self@)
    }

    pub fn new() -> (r: CallbackTable<C>)
        ensures
            r@ == Seq::<PendingCallback<C>>::empty(),
            r.wf(),
    {
        CallbackTable { entries: Vec::new() }
    }

    pub fn len(&self) -> (n: usize)
        ensures
            n == self@.len(),
    {
        self.entries.len()
    }

    /// Borrow the entry at a position, so the caller can test its canary.
    pub fn at(&self, i: usize) -> (r: &PendingCallback<C>)
        requires
            i < self@.len(),
        ensures
            *r == self@[i as int],
    {
        &self.entries[i]
    }

    /// Make a cell live under `id`; a cell already registered under the
    /// same id is replaced.
    pub fn install(&mut self, id: i32, cell: C)
        requires
            old(self).wf(),
        ensures
            final(self).wf(),
            cb_has(final(self)@, id),
            if cb_has(old(self)@, id) {
                final(self)@ == old(self)@.update(
                    cb_find(old(self)@, id),
                    PendingCallback { id, cell },
                )
            } else {
                final(self)@ == old(self)@.push(PendingCallback { id, cell })
            },
    {
        let ghost s = self@;
        let mut i: usize = 0;
        while i < self.entries.len() && self.entries[i].id != id
            invariant
                self@ == s,
                0 <= i <= s.len(),
                forall|j: int| 0 <= j < i ==> s[j].id != id,
            decreases s.len() - i,
        {
            i = i + 1;
        }
        if i < self.entries.len() {
            proof {
                lemma_cb_find_unique(s, id, i as int);
            }
            self.entries.set(i, PendingCallback { id, cell });
            proof {
                let r = self@;
                assert(r[i as int].id == id);
                assert(cb_has(r, id));
                assert forall|a: int, b: int| 0 <= a < b < r.len() implies r[a].id != r[b].id by {
                    assert(a != i as int ==> r[a] == s[a]);
                    assert(b != i as int ==> r[b] == s[b]);
                }
            }
        } else {
            assert(!cb_has(s, id));
            self.entries.push(PendingCallback { id, cell });
            proof {
                let r = self@;
                assert(r[s.len() as int].id == id);
                assert(cb_has(r, id));
                assert forall|a: int, b: int| 0 <= a < b < r.len() implies r[a].id != r[b].id by {
                    if b < s.len() {
                    } else {
                        assert(r[b].id == id);
                        assert(r[a] == s[a]);
                    }
                }
            }
        }
    }

    /// The dispatch decision for a delivered request: hand the cell out
    /// only when the canary still resolves. A dead canary's entry is
    /// removed without being invoked; an unknown id is ignored.
    pub fn lookup_dispatch(&mut self, id: i32, canary_alive: bool) -> (r: Option<&C>)
        requires
            old(self).wf(),
        ensures
            final(self).wf(),
            match r {
                Some(cell) => {
                    &&& canary_alive
                    &&& cb_has(old(self)@, id)
                    &&& 0 <= cb_find(old(self)@, id) < old(self)@.len()
                    &&& *cell == old(self)@[cb_find(old(self)@, id)].cell
                    &&& final(self)@ == old(self)@
                },
                None => {
                    &&& !(canary_alive && cb_has(old(self)@, id))
                    &&& !cb_has(final(self)@, id)
                    &&& if cb_has(old(self)@, id) {
                        final(self)@ == old(self)@.remove(cb_find(old(self)@, id))
                    } else {
                        final(self)@ == old(self)@
                    }
                },
            },
    {
        let ghost s = self@;
        let mut i: usize = 0;
        while i < self.entries.len() && self.entries[i].id != id
            invariant
                self@ == s,
                0 <= i <= s.len(),
                forall|j: int| 0 <= j < i ==> s[j].id != id,
            decreases s.len() - i,
        {
            i = i + 1;
        }
        if i < self.entries.len() {
            proof {
                lemma_cb_find_unique(s, id, i as int);
                lemma_cb_remove(s, id, i as int);
            }
            if canary_alive {
                Some(&self.entries[i].cell)
            } else {
                self.entries.remove(i);
                None
            }
        } else {
            assert(!cb_has(s, id));
            None
        }
    }

    /// The liveness sweep: keep exactly the entries whose mask bit is set
    /// (the caller sets a bit by resolving the entry's canary).
    pub fn prune(&mut self, alive: &Vec<bool>)
        requires
            old(self).wf(),
            alive@.len() == old(self)@.len(),
        ensures
            final(self).wf(),
            final(self)@ == mask_filter(old(self)@, alive@),
    {
        let ghost s = self@;
        let ghost m = alive@;
        let mut rest: Vec<PendingCallback<C>> = Vec::new();
        core::mem::swap(&mut self.entries, &mut rest);
        let n = rest.len();
        let mut i: usize = 0;
        while i < n
            invariant
                m == alive@,
                m.len() == s.len(),
                n == s.len(),
                0 <= i <= s.len(),
                rest@ == s.subrange(i as int, s.len() as int),
                self@ == mask_filter(s.subrange(0, i as int), m.subrange(0, i as int)),
            decreases rest@.len(),
        {
            proof {
                let s1 = s.subrange(0, i + 1);
                let m1 = m.subrange(0, i + 1);
                assert(s1.drop_last() =~= s.subrange(0, i as int));
                assert(m1.drop_last() =~= m.subrange(0, i as int));
                assert(s1.last() == s[i as int]);
                assert(m1.last() == m[i as int]);
                assert(s.subrange(i as int, s.len() as int).remove(0) =~= s.subrange(
                    i + 1,
                    s.len() as int,
                ));
            }
            let e = rest.remove(0);
            if alive[i] {
                self.entries.push(e);
            }
            i = i + 1;
        }
        proof {
            assert(s.subrange(0, s.len() as int) =~= s);
            assert(m.subrange(0, m.len() as int) =~= m);
            lemma_mask_filter_wf(s, m);
        }
    }
}

/// Every id kept by the liveness sweep was marked alive, every marked entry
/// is kept, and uniqueness of ids survives.
pub proof fn lemma_mask_filter_wf<C>(s: Seq<PendingCallback<C>>, m: Seq<bool>)
    requires
        s.len() == m.len(),
    ensures
        forall|i: int|
            0 <= i < mask_filter(s, m).len() ==> exists|j: int|
                0 <= j < s.len() && m[j] && s[j] == #[trigger] mask_filter(s, m)[i],
        forall|j: int| 0 <= j < s.len() && m[j] ==> mask_filter(s, m).contains(#[trigger] s[j]),
        cb_unique(s) ==> cb_unique(mask_filter(s, m)),
    decreases s.len(),
{
    if s.len() == 0 {
    } else {
        let s1 = s.drop_last();
        let m1 = m.drop_last();
        lemma_mask_filter_wf(s1, m1);
        let r = mask_filter(s, m);
        let r1 = mask_filter(s1, m1);
        assert(forall|j: int| 0 <= j < s1.len() ==> s1[j] == s[j] && m1[j] == m[j]);
        assert forall|i: int| 0 <= i < r.len() implies exists|j: int|
            0 <= j < s.len() && m[j] && s[j] == #[trigger] r[i] by {
            if m.len() >= 1 && m.last() && i == r.len() - 1 {
                assert(r[i] == s.last());
                assert(0 <= s.len() - 1 < s.len() && m[s.len() - 1] && s[s.len() - 1] == r[i]);
            } else {
                assert(r[i] == r1[i]);
                let j = choose|j: int| 0 <= j < s1.len() && m1[j] && s1[j] == r1[i];
                assert(0 <= j < s.len() && m[j] && s[j] == r[i]);
            }
        }
        assert forall|j: int| 0 <= j < s.len() && m[j] implies r.contains(#[trigger] s[j]) by {
            if j < s.len() - 1 {
                assert(r1.contains(s1[j]));
                let w = choose|w: int| 0 <= w < r1.len() && r1[w] == s1[j];
                assert(r[w] == s[j]);
            } else {
                assert(r.last() == s[j]);
            }
        }
        if cb_unique(s) {
            assert(cb_unique(s1));
            if m.len() >= 1 && m.last() {
                assert forall|a: int| 0 <= a < r1.len() implies r1[a].id != s.last().id by {
                    let j = choose|j: int| 0 <= j < s1.len() && m1[j] && s1[j] == r1[a];
                    assert(s1[j] == s[j]);
                }
                assert forall|a: int, b: int| 0 <= a < b < r.len() implies r[a].id != r[b].id by {
                    if b < r1.len() {
                    } else {
                        assert(r[b] == s.last());
                        assert(r[a] == r1[a]);
                    }
                }
            }
        }
    }
}

} // verus!
