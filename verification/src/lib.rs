//! A single-threaded, callback-driven I/O and timer reactor core.
//!
//! The crate verifies the reactor's bookkeeping: the timer wheel, the
//! readiness registry, token allocation, the cross-thread callback table
//! with canary-based liveness, and the loop driver's termination test.
//! The OS polling primitive and the thread/channel plumbing live outside
//! the verified core and drive it through the state-machine API.

use vstd::prelude::*;

pub mod callback;
pub mod dgram;
pub mod node;
pub mod registry;
pub mod timer;
pub mod wrapper;

verus! {

/// Identifier for a registration (I/O event or timer), drawn from one
/// shared, monotonically increasing counter and never reused while live.
#[derive(Copy, Clone, Debug, PartialEq, Eq, Structural, PartialOrd, Ord, Hash)]
pub struct Token(pub usize);

impl From<usize> for Token {
    fn from(val: usize) -> (t: Token) {
        Token(val)
    }
}

impl vstd::std_specs::convert::FromSpecImpl<usize> for Token {
    open spec fn obeys_from_spec() -> bool {
        true
    }

    open spec fn from_spec(val: usize) -> Token {
        Token(val)
    }
}

/// A fresh launch configuration for a reactor module.
pub fn module<L>() -> (r: node::ModuleCfg<L>)
    ensures
        r.new_thread == false,
        r.with_loop is None,
{
    node::module()
}

} // verus!
