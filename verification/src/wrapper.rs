//! A small convenience for bracketing callbacks: a pair of hooks to run
//! before and after a wrapped function.

use vstd::prelude::*;

verus! {

/// A hook that does nothing.
pub fn nofun() {
}

/// A pair of hooks to run around a callback.
pub struct Wrapper<B, A> {
    pub before: B,
    pub after: A,
}

impl<B, A> Wrapper<B, A> {
    pub fn mk(before: B, after: A) -> (w: Wrapper<B, A>)
        ensures
            w.before == before,
            w.after == after,
    {
        Wrapper { before, after }
    }
}

} // verus!
