//! Index maps and the timer registry.

use raft_reactor::clientmap::ClientMap;
use raft_reactor::idmap::IdMap;
use raft_reactor::timer::TimerRegistry;

#[test]
fn idmap_insert_get_remove() {
    let mut m = IdMap::new();
    assert_eq!(m.get(1), None);
    assert_eq!(m.insert(1, 10), None);
    assert_eq!(m.insert(2, 20), None);
    assert_eq!(m.get(1), Some(10));
    assert_eq!(m.get(2), Some(20));
    assert_eq!(m.insert(1, 11), Some(10));
    assert_eq!(m.get(1), Some(11));
    assert_eq!(m.remove(1), Some(11));
    assert_eq!(m.get(1), None);
    assert_eq!(m.remove(1), None);
    assert!(m.contains(2));
}

#[test]
fn idmap_drain_returns_everything() {
    let mut m = IdMap::new();
    m.insert(1, 10);
    m.insert(2, 20);
    m.insert(3, 30);
    let mut drained = m.drain();
    drained.sort();
    assert_eq!(drained, vec![(1, 10), (2, 20), (3, 30)]);
    assert_eq!(m.get(1), None);
    assert_eq!(m.get(2), None);
    assert_eq!(m.get(3), None);
}

#[test]
fn clientmap_wide_keys() {
    let big: u128 = u128::MAX - 5;
    let mut m = ClientMap::new();
    assert_eq!(m.insert(big, 3), None);
    assert_eq!(m.get(big), Some(3));
    assert_eq!(m.get(0), None);
    assert_eq!(m.remove(big), Some(3));
    assert!(!m.contains(big));
}

#[test]
fn timer_replace_leaves_one_armed() {
    let mut reg = TimerRegistry::new();
    let (h1, displaced1) = reg.arm_replica(5);
    assert_eq!(displaced1, None);
    let (h2, displaced2) = reg.arm_replica(5);
    // Arming the same identity again displaces exactly the first handle.
    assert_eq!(displaced2, Some(h1));
    assert_ne!(h1, h2);
    // Exactly one timer is armed for the identity: the second one.
    assert_eq!(reg.fire_replica(5), Some(h2));
    assert_eq!(reg.fire_replica(5), None);
}

#[test]
fn timer_handles_never_repeat() {
    let mut reg = TimerRegistry::new();
    let (h1, _) = reg.arm_replica(1);
    let (h2, _) = reg.arm_replica(2);
    let (h3, _) = reg.arm_reconnect(7);
    assert!(h1 != h2 && h2 != h3 && h1 != h3);
    assert_eq!(reg.fire_replica(1), Some(h1));
    let (h4, _) = reg.arm_replica(1);
    assert!(h4 != h1 && h4 != h2 && h4 != h3);
}

#[test]
fn timer_cancel_reconnect_idempotent() {
    let mut reg = TimerRegistry::new();
    let (h, _) = reg.arm_reconnect(3);
    assert!(reg.has_reconnect(3));
    assert_eq!(reg.cancel_reconnect(3), Some(h));
    assert!(!reg.has_reconnect(3));
    assert_eq!(reg.cancel_reconnect(3), None);
}

#[test]
fn timer_cancel_all_replica() {
    let mut reg = TimerRegistry::new();
    let (h1, _) = reg.arm_replica(1);
    let (h2, _) = reg.arm_replica(2);
    let (hr, _) = reg.arm_reconnect(9);
    let mut cancelled = reg.cancel_all_replica();
    cancelled.sort();
    assert_eq!(cancelled, vec![(1, h1), (2, h2)]);
    assert_eq!(reg.fire_replica(1), None);
    assert_eq!(reg.fire_replica(2), None);
    // Reconnect timers are untouched.
    assert_eq!(reg.fire_reconnect(9), Some(hr));
}
