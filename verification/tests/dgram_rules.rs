//! Scenarios for the datagram layer's decisions: address-family parsing
//! and the would-block send queue.

use reactor::dgram::{socket_af, setup_ready, Af, SendQueue};
use reactor::Token;

#[test]
fn socket_type_strings_name_the_address_families() {
    assert_eq!(socket_af("udp4".as_bytes()), Some(Af::Inet));
    assert_eq!(socket_af("udp6".as_bytes()), Some(Af::Inet6));
    assert_eq!(socket_af("udp5".as_bytes()), None);
    assert_eq!(socket_af("tcp4".as_bytes()), None);
    assert_eq!(socket_af("".as_bytes()), None);
    assert_eq!(socket_af("udp44".as_bytes()), None);
}

#[test]
fn setup_runs_once_when_socket_and_core_are_present() {
    assert!(!setup_ready(false, true, Token(0)));
    assert!(!setup_ready(true, false, Token(0)));
    assert!(setup_ready(true, true, Token(0)));
    // Already wired: the receive-readiness token was assigned.
    assert!(!setup_ready(true, true, Token(105)));
}

#[test]
fn send_queue_retries_a_blocked_message() {
    let mut q: SendQueue<&'static str, u32> = SendQueue::new();
    assert!(!q.can_send());
    q.push("hello", 1);
    q.push("world", 2);
    q.mark_writable();
    assert!(q.can_send());

    let first = q.pop_front();
    assert_eq!(first.msg, "hello");
    // The send would have blocked: the message goes back to the front and
    // sending pauses until the socket is writable again.
    q.requeue_blocked(first);
    assert!(!q.can_send());
    assert_eq!(q.len(), 2);

    q.mark_writable();
    let again = q.pop_front();
    assert_eq!(again.msg, "hello");
    assert_eq!(q.pop_front().msg, "world");
    assert_eq!(q.len(), 0);
}

#[test]
fn closing_clears_the_queue() {
    let mut q: SendQueue<&'static str, u32> = SendQueue::new();
    q.push("a", 1);
    q.push("b", 2);
    q.clear();
    assert_eq!(q.len(), 0);
}
