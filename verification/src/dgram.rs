//! Decisions of the datagram-socket layer: the address-family choice and
//! the non-blocking send queue.
//!
//! The sockets themselves, the readiness wiring and the actual send and
//! receive calls are collaborators outside the verified core; this module
//! holds the rules they follow. A send that would block re-arms readiness
//! interest and keeps the message queued for retry; a real failure hands
//! the message's entry back so its callback can be told.

use vstd::prelude::*;

verus! {

/// The address family a socket is created with.
#[derive(Clone, Copy, Debug, PartialEq, Eq, Structural)]
pub enum Af {
    Inet,
    Inet6,
}

/// The address family named by a socket-type string: `udp4` or `udp6`,
/// anything else being rejected.
pub open spec fn af_of(s: Seq<u8>) -> Option<Af> {
    if s == seq![117u8, 100u8, 112u8, 52u8] {
        Some(Af::Inet)
    } else if s == seq![117u8, 100u8, 112u8, 54u8] {
        Some(Af::Inet6)
    } else {
        None
    }
}

/// Parse a socket-type string (as bytes): `udp4` and `udp6` name the two
/// address families; any other input is rejected.
pub fn socket_af(afs: &[u8]) -> (r: Option<Af>)
    ensures
        r == af_of(afs@),
{
    if afs.len() == 4 && afs[0] == 117 && afs[1] == 100 && afs[2] == 112 {
        if afs[3] == 52 {
            proof {
                assert(afs@ =~= seq![117u8, 100u8, 112u8, 52u8]);
            }
            Some(Af::Inet)
        } else if afs[3] == 54 {
            proof {
                assert(afs@ =~= seq![117u8, 100u8, 112u8, 54u8]);
            }
            Some(Af::Inet6)
        } else {
            proof {
                assert(afs@ != seq![117u8, 100u8, 112u8, 52u8]);
                assert(afs@ != seq![117u8, 100u8, 112u8, 54u8]);
            }
            None
        }
    } else {
        proof {
            if afs@ == seq![117u8, 100u8, 112u8, 52u8] {
                assert(afs@.len() == 4 && afs@[0] == 117u8 && afs@[1] == 100u8 && afs@[2]
                    == 112u8);
            }
            if afs@ == seq![117u8, 100u8, 112u8, 54u8] {
                assert(afs@.len() == 4 && afs@[0] == 117u8 && afs@[1] == 100u8 && afs@[2]
                    == 112u8);
            }
        }
        None
    }
}

/// Whether the readiness wiring of a socket should run now: both the
/// socket and the reactor handle must be present, and the wiring must not
/// have run before (the receive-readiness token is still unassigned).
pub fn setup_ready(have_socket: bool, have_core: bool, can_recv_event: crate::Token) -> (r: bool)
    ensures
        r == (have_socket && have_core && can_recv_event == crate::Token(0)),
{
    have_socket && have_core && can_recv_event.0 == 0
}

/// One queued send: the message and the callback to tell its outcome.
pub struct SendTo<M, C> {
    pub msg: M,
    pub cb: C,
}

/// The non-blocking send queue: messages wait here until the socket is
/// writable, and are retried after a send would have blocked.
pub struct SendQueue<M, C> {
    queue: Vec<SendTo<M, C>>,
    can_send: bool,
}

impl<M, C> View for SendQueue<M, C> {
    type V = Seq<SendTo<M, C>>;

    closed spec fn view(&self) -> Seq<SendTo<M, C>> {
        self.queue@
    }
}

impl<M, C> SendQueue<M, C> {
    /// Whether the socket was last seen writable.
    pub closed spec fn spec_can_send(&self) -> bool {
        self.can_send
    }

    /// A fresh queue: empty, and not yet known writable.
    pub fn new() -> (q: SendQueue<M, C>)
        ensures
            q@ == Seq::<SendTo<M, C>>::empty(),
            !q.spec_can_send(),
    {
        SendQueue { queue: Vec::new(), can_send: false }
    }

    pub fn len(&self) -> (n: usize)
        ensures
            n == self@.len(),
    {
        self.queue.len()
    }

    pub fn can_send(&self) -> (r: bool)
        ensures
            r == self.spec_can_send(),
    {
        self.can_send
    }

    /// Queue a message behind the ones already waiting.
    pub fn push(&mut self, msg: M, cb: C)
        ensures
            final(self)@ == old(self)@.push(SendTo { msg, cb }),
            final(self).spec_can_send() == old(self).spec_can_send(),
    {
        self.queue.push(SendTo { msg, cb });
    }

    /// Take the message to send next: the oldest one. The caller attempts
    /// the send and reports back with `sent`, `blocked` or a failure of
    /// its own handling.
    pub fn pop_front(&mut self) -> (e: SendTo<M, C>)
        requires
            old(self)@.len() > 0,
        ensures
            e == old(self)@[0],
            final(self)@ == old(self)@.subrange(1, old(self)@.len() as int),
            final(self).spec_can_send() == old(self).spec_can_send(),
    {
        proof {
            assert(self@.remove(0) =~= self@.subrange(1, self@.len() as int));
        }
        self.queue.remove(0)
    }

    /// Put a message back at the front: its send would have blocked, so it
    /// is kept for retry, and the socket is no longer considered writable
    /// until readiness says otherwise.
    pub fn requeue_blocked(&mut self, e: SendTo<M, C>)
        ensures
            final(self)@ == old(self)@.insert(0, e),
            !final(self).spec_can_send(),
    {
        self.can_send = false;
        self.queue.insert(0, e);
    }

    /// A writable-readiness notification arrived: sending may resume.
    pub fn mark_writable(&mut self)
        ensures
            final(self)@ == old(self)@,
            final(self).spec_can_send(),
    {
        self.can_send = true;
    }

    /// Drop everything queued (the socket is closing).
    pub fn clear(&mut self)
        ensures
            final(self)@.len() == 0,
            final(self).spec_can_send() == old(self).spec_can_send(),
    {
        self.queue.clear();
    }
}

} // verus!
