use ring::Ring;

#[test]
fn wrap_at_end() {
    let mut ring: Ring<usize> = Ring::with_counters(4, usize::MAX).unwrap();
    assert_eq!(0, ring.len());
    ring.push(usize::MAX);
    println!("{:?}", ring);
    assert_eq!(1, ring.len());
    ring.push(0);
    println!("{:?}", ring);
    assert_eq!(2, ring.len());
    ring.push(1);
    println!("{:?}", ring);
    assert_eq!(3, ring.len());
    assert_eq!(Some(usize::MAX), ring.read());
    assert_eq!(Some(0), ring.read());
    assert_eq!(Some(1), ring.read());
}

#[test]
fn round_trip() {
    let len = 16;
    let mut ring: Ring<usize> = Ring::with_size(len).unwrap();

    for i in 0..len {
        // Returns None if the push is successful.
        assert_eq!(None, ring.push(i));
    }

    // Returns the item you tried to push if the buffer is full.
    assert_eq!(Some(16), ring.push(16));

    // Empty the buffer.
    for i in 0..len {
        assert_eq!(Some(i), ring.read());
    }
    assert_eq!(None, ring.read());
    assert_eq!(None, ring.push(len));
    assert_eq!(Some(len), ring.read());
}

#[test]
fn capacity_policy() {
    // Zero is always rejected.
    assert!(Ring::<u32>::with_size(0).is_none());
    // Capacities that do not divide the counter range are rejected.
    assert!(Ring::<u32>::with_size(3).is_none());
    assert!(Ring::<u32>::with_size(5).is_none());
    assert!(Ring::<u32>::with_size(6).is_none());
    assert!(Ring::<u32>::with_size(100).is_none());
    // Powers of two are accepted.
    assert!(Ring::<u32>::with_size(1).is_some());
    assert!(Ring::<u32>::with_size(2).is_some());
    assert!(Ring::<u32>::with_size(16).is_some());
    assert!(Ring::<u32>::with_size(1024).is_some());
    // The same policy governs construction with preset counters.
    assert!(Ring::<u32>::with_counters(0, 7).is_none());
    assert!(Ring::<u32>::with_counters(12, 7).is_none());
    assert!(Ring::<u32>::with_counters(8, 7).is_some());
}

#[test]
fn capacity_bound() {
    let mut ring: Ring<u32> = Ring::with_size(2).unwrap();
    for i in 0..10 {
        ring.push(i);
        assert!(ring.len() <= 2);
    }
    assert_eq!(2, ring.len());
}

#[test]
fn full_rejection() {
    let mut ring: Ring<u32> = Ring::with_size(4).unwrap();
    for i in 0..4 {
        assert_eq!(None, ring.push(i));
    }
    assert_eq!(4, ring.len());
    // The rejected item comes back unchanged and the length is unaffected.
    assert_eq!(Some(99), ring.push(99));
    assert_eq!(4, ring.len());
    assert_eq!(Some(99), ring.push(99));
    assert_eq!(4, ring.len());
    // The stored items are untouched by the rejections.
    assert_eq!(Some(0), ring.read());
}

#[test]
fn empty_underflow() {
    let mut ring: Ring<u32> = Ring::with_size(8).unwrap();
    // A fresh buffer reads as absent, repeatedly, without side effects.
    for _ in 0..5 {
        assert_eq!(None, ring.read());
        assert_eq!(0, ring.len());
        assert!(ring.is_empty());
    }
    // A fully drained buffer behaves the same way.
    ring.push(1);
    ring.push(2);
    assert_eq!(Some(1), ring.read());
    assert_eq!(Some(2), ring.read());
    for _ in 0..5 {
        assert_eq!(None, ring.read());
        assert_eq!(0, ring.len());
        assert!(ring.is_empty());
    }
}

#[test]
fn wraparound_crossing() {
    // Both counters start just below the largest counter value, so the pushes
    // and reads below cross the wraparound boundary.
    let mut ring: Ring<u64> = Ring::with_counters(8, usize::MAX - 2).unwrap();
    for i in 0..8 {
        assert_eq!(None, ring.push(i));
        assert_eq!((i + 1) as usize, ring.len());
    }
    assert_eq!(Some(8), ring.push(8));
    assert_eq!(8, ring.len());
    for i in 0..8 {
        assert_eq!(Some(i), ring.read());
    }
    assert!(ring.is_empty());
    assert_eq!(None, ring.read());
}

#[test]
fn drain_idempotent() {
    let mut ring: Ring<u32> = Ring::with_size(4).unwrap();
    for i in 0..4 {
        assert_eq!(None, ring.push(i));
    }
    for i in 0..4 {
        assert_eq!(Some(i), ring.read());
    }
    assert!(ring.is_empty());
    assert_eq!(0, ring.len());
    // A subsequent push followed by a read returns exactly the pushed value.
    assert_eq!(None, ring.push(77));
    assert_eq!(Some(77), ring.read());
    assert!(ring.is_empty());
}

#[test]
fn capacity_one() {
    let mut ring: Ring<u8> = Ring::with_size(1).unwrap();
    for round in 0..5 {
        assert_eq!(None, ring.push(round));
        assert_eq!(Some(round + 1), ring.push(round + 1));
        assert_eq!(Some(round), ring.read());
        assert_eq!(None, ring.read());
    }
}

#[test]
fn generic_elements() {
    let mut ring: Ring<String> = Ring::with_size(2).unwrap();
    assert_eq!(None, ring.push(String::from("first")));
    assert_eq!(None, ring.push(String::from("second")));
    assert_eq!(Some(String::from("third")), ring.push(String::from("third")));
    assert_eq!(Some(String::from("first")), ring.read());
    assert_eq!(Some(String::from("second")), ring.read());
    assert_eq!(None, ring.read());
}
