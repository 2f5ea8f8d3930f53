//! The readiness registry: live I/O registrations keyed by token.
//!
//! An entry exists here exactly while the underlying event source is meant
//! to be registered with the OS poller. Removing an entry hands the handler
//! payload back so the caller can ask the poller to forget the source, and
//! re-inserting it restores the registration when that request fails.

use vstd::prelude::*;

verus! {

use crate::Token;

/// A live I/O registration: the token it was issued and the handler payload
/// (the readiness callback paired with the owned event-source handle).
pub struct EventHandler<H> {
    pub token: Token,
    pub handler: H,
}

/// No token occurs twice.
pub open spec fn reg_unique<H>(s: Seq<EventHandler<H>>) -> bool {
    forall|i: int, j: int| 0 <= i < j < s.len() ==> s[i].token != s[j].token
}

/// Some entry carries `t`.
pub open spec fn reg_has<H>(s: Seq<EventHandler<H>>, t: Token) -> bool {
    exists|i: int| 0 <= i < s.len() && s[i].token == t
}

/// Least index holding `t`, or `s.len()` when no entry does.
pub open spec fn reg_find<H>(s: Seq<EventHandler<H>>, t: Token) -> int
    decreases s.len(),
{
    if s.len() == 0 {
        0
    } else if s[0].token == t {
        0
    } else {
        1 + reg_find(s.drop_first(), t)
    }
}

/// Where `t` sits when some entry carries it.
pub proof fn lemma_reg_find_has<H>(s: Seq<EventHandler<H>>, t: Token)
    requires
        reg_has(s, t),
    ensures
        0 <= reg_find(s, t) < s.len(),
        s[reg_find(s, t)].token == t,
    decreases s.len(),
{
    if s[0].token == t {
    } else {
        assert(reg_has(s.drop_first(), t)) by {
            let w = choose|w: int| 0 <= w < s.len() && s[w].token == t;
            assert(s.drop_first()[w - 1] == s[w]);
        }
        lemma_reg_find_has(s.drop_first(), t);
        assert(s.drop_first()[reg_find(s.drop_first(), t)] == s[reg_find(s, t)]);
    }
}

proof fn lemma_reg_find_unique<H>(s: Seq<EventHandler<H>>, t: Token, c: int)
    requires
        0 <= c < s.len(),
        forall|i: int| 0 <= i < c ==> s[i].token != t,
        s[c].token == t,
    ensures
        c == reg_find(s, t),
        reg_has(s, t),
    decreases s.len(),
{
    if s[0].token == t {
        assert(c == 0);
    } else {
        assert(c >= 1);
        assert forall|i: int| 0 <= i < c - 1 implies s.drop_first()[i].token != t by {
            assert(s.drop_first()[i] == s[i + 1]);
        }
        assert(s.drop_first()[c - 1] == s[c]);
        lemma_reg_find_unique(s.drop_first(), t, c - 1);
    }
}

/// Removing the only entry with `t` removes `t` and keeps tokens unique.
pub proof fn lemma_reg_remove<H>(s: Seq<EventHandler<H>>, t: Token, c: int)
    requires
        reg_unique(s),
        0 <= c < s.len(),
        s[c].token == t,
    ensures
        !reg_has(s.remove(c), t),
        reg_unique(s.remove(c)),
        forall|i: int| 0 <= i < s.remove(c).len() ==> s.contains(#[trigger] s.remove(c)[i]),
{
    let r = s.remove(c);
    assert forall|i: int| 0 <= i < r.len() implies r[i].token != t && s.contains(r[i]) by {
        let i0 = if i < c { i } else { i + 1 };
        assert(r[i] == s[i0]);
    }
    assert forall|i: int, j: int| 0 <= i < j < r.len() implies r[i].token != r[j].token by {
        let i0 = if i < c { i } else { i + 1 };
        let j0 = if j < c { j } else { j + 1 };
        assert(r[i] == s[i0]);
        assert(r[j] == s[j0]);
    }
}

/// The registry of live I/O registrations, in arrival order.
pub struct Registry<H> {
    entries: Vec<EventHandler<H>>,
}

impl<H> View for Registry<H> {
    type V = Seq<EventHandler<H>>;

    closed spec fn view(&self) -> Seq<EventHandler<H>> {
        self.entries@
    }
}

impl<H> Registry<H> {
    /// Well-formed: one entry per token.
    pub open spec fn wf(&self) -> bool {
        reg_unique(self@)
    }

    pub fn new() -> (r: Registry<H>)
        ensures
            r@ == Seq::<EventHandler<H>>::empty(),
            r.wf(),
    {
        Registry { entries: Vec::new() }
    }

    /// The number of live I/O registrations.
    pub fn event_count(&self) -> (n: usize)
        ensures
            n == self@.len(),
    {
        self.entries.len()
    }

    /// Store a registration under a token not yet present.
    pub fn insert(&mut self, token: Token, handler: H)
        requires
            old(self).wf(),
            !reg_has(old(self)@, token),
        ensures
            final(self).wf(),
            final(self)@ == old(self)@.push(EventHandler { token, handler }),
    {
        let ghost s = self@;
        self.entries.push(EventHandler { token, handler });
        proof {
            let r = self@;
            assert forall|i: int, j: int| 0 <= i < j < r.len() implies r[i].token != r[j].token by {
                if j < s.len() {
                } else {
                    assert(r[j].token == token);
                    assert(r[i] == s[i]);
                }
            }
        }
    }

    /// Remove the registration for `token`, handing its payload back;
    /// `None` (and no change) when the token is not live here.
    pub fn remove(&mut self, token: Token) -> (r: Option<EventHandler<H>>)
        requires
            old(self).wf(),
        ensures
            final(self).wf(),
            match r {
                Some(eh) => {
                    &&& reg_has(old(self)@, token)
                    &&& 0 <= reg_find(old(self)@, token) < old(self)@.len()
                    &&& eh == old(self)@[reg_find(old(self)@, token)]
                    &&& eh.token == token
                    &&& final(self)@ == old(self)@.remove(reg_find(old(self)@, token))
                    &&& !reg_has(final(self)@, token)
                },
                None => {
                    &&& !reg_has(old(self)@, token)
                    &&& final(self)@ == old(self)@
                },
            },
    {
        let ghost s = self@;
        let mut i: usize = 0;
        while i < self.entries.len() && self.entries[i].token != token
            invariant
                self@ == s,
                0 <= i <= s.len(),
                forall|j: int| 0 <= j < i ==> s[j].token != token,
            decreases s.len() - i,
        {
            i = i + 1;
        }
        if i < self.entries.len() {
            proof {
                lemma_reg_find_unique(s, token, i as int);
                lemma_reg_remove(s, token, i as int);
            }
            Some(self.entries.remove(i))
        } else {
            assert(!reg_has(s, token));
            None
        }
    }

    /// Borrow the handler registered under `token`, for dispatching a
    /// readiness notification; `None` when the token is not live here.
    pub fn get(&self, token: Token) -> (r: Option<&H>)
        requires
            self.wf(),
        ensures
            match r {
                Some(h) => reg_has(self@, token) && 0 <= reg_find(self@, token) < self@.len()
                    && *h == self@[reg_find(self@, token)].handler,
                None => !reg_has(self@, token),
            },
    {
        let ghost s = self@;
        let mut i: usize = 0;
        while i < self.entries.len() && self.entries[i].token != token
            invariant
                self@ == s,
                0 <= i <= s.len(),
                forall|j: int| 0 <= j < i ==> s[j].token != token,
            decreases s.len() - i,
        {
            i = i + 1;
        }
        if i < self.entries.len() {
            proof {
                lemma_reg_find_unique(s, token, i as int);
            }
            Some(&self.entries[i].handler)
        } else {
            assert(!reg_has(s, token));
            None
        }
    }
}

} // verus!
