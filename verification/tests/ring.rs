//! The queue of fixed-size elements.

use bowst::ring::{channel, is_alone, Full, Ring, RingError};

#[test]
fn ring_rejects_invalid_capacity() {
    for capacity in [0, 1, 3, 100] {
        assert_eq!(
            channel::<u8>(capacity).err(),
            Some(RingError::InvalidCapacity(capacity))
        );
    }
}

#[test]
fn fills_then_drains_in_order() {
    let (mut tx, mut rx) = channel::<u32>(4).unwrap();
    for i in 0..4 {
        tx.push(i).unwrap();
    }
    assert_eq!(tx.push(99), Err(Full(99)));
    assert!(!rx.is_empty());
    for i in 0..4 {
        assert_eq!(rx.pop(), Some(i));
    }
    assert_eq!(rx.pop(), None);
    assert!(rx.is_empty());
}

#[test]
fn wraps_around_many_times() {
    let (mut tx, mut rx) = channel::<u64>(2).unwrap();
    for i in 0..1_000 {
        tx.push(i).unwrap();
        assert_eq!(rx.pop(), Some(i));
    }
}

#[test]
fn reports_abandonment() {
    let (tx, rx) = channel::<u8>(2).unwrap();
    assert!(!tx.is_abandoned());
    drop(rx);
    assert!(tx.is_abandoned());
}

#[test]
fn a_half_is_alone_when_nothing_else_shares_its_ring() {
    assert!(is_alone(1));
    assert!(!is_alone(2));
    let (tx, rx) = channel::<u8>(2).unwrap();
    assert!(!rx.is_abandoned());
    drop(tx);
    assert!(rx.is_abandoned());
}

#[test]
fn a_ring_hands_back_what_does_not_fit() {
    let mut ring = Ring::new(2).unwrap();
    assert_eq!(ring.push('a'), Ok(()));
    assert_eq!(ring.push('b'), Ok(()));
    assert_eq!(ring.push('c'), Err(Full('c')));
    assert_eq!((ring.pop(), ring.capacity()), (Some('a'), 2));
    assert_eq!(ring.push('c'), Ok(()));
    assert_eq!((ring.pop(), ring.pop(), ring.pop()), (Some('b'), Some('c'), None));
    assert!(ring.is_empty());
}
