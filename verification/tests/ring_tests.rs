use udp_forwarder::ring::{sender_step, BroadcastRing, ForwardCounter, ProgressReport, SenderAction, RING_CAPACITY, SLOT_BYTES};

#[test]
fn new_ring_is_empty() {
    let ring = BroadcastRing::new(4);
    assert_eq!(ring.capacity(), 4);
    assert_eq!(ring.next_slot(), 0);
    assert_eq!(ring.read_slot(0), &[] as &[u8]);
    assert_eq!(ring.read_slot(3), &[] as &[u8]);
}

#[test]
fn publish_returns_consecutive_slots() {
    let mut ring = BroadcastRing::new(3);
    assert_eq!(ring.publish(b"a"), 0);
    assert_eq!(ring.publish(b"bb"), 1);
    assert_eq!(ring.publish(b"ccc"), 2);
    assert_eq!(ring.publish(b"dddd"), 3);
    assert_eq!(ring.next_slot(), 4);
}

#[test]
fn read_gives_back_published_packet() {
    let mut ring = BroadcastRing::new(4);
    let s0 = ring.publish(&[1, 2, 3]);
    let s1 = ring.publish(&[4, 5]);
    assert_eq!(ring.read_slot(s0), &[1, 2, 3]);
    assert_eq!(ring.read_slot(s1), &[4, 5]);
}

#[test]
fn slot_is_overwritten_after_a_full_lap() {
    let mut ring = BroadcastRing::new(2);
    ring.publish(b"first");
    ring.publish(b"second");
    ring.publish(b"third");
    // sequence number 0 shares its slot with 2
    assert_eq!(ring.read_slot(0), b"third");
    assert_eq!(ring.read_slot(1), b"second");
    assert_eq!(ring.read_slot(2), b"third");
}

#[test]
fn shorter_packet_replaces_longer_one() {
    let mut ring = BroadcastRing::new(1);
    ring.publish(b"a long packet");
    ring.publish(b"xy");
    assert_eq!(ring.read_slot(1), b"xy");
}

#[test]
fn largest_packet_fits() {
    let mut ring = BroadcastRing::new(1);
    let data = vec![7u8; SLOT_BYTES];
    let s = ring.publish(&data);
    assert_eq!(ring.read_slot(s).len(), 65535);
    assert!(ring.read_slot(s).iter().all(|&b| b == 7));
}

#[test]
fn ring_capacity_constant() {
    assert_eq!(RING_CAPACITY, 4096);
}

#[test]
fn sender_stops_when_asked() {
    assert_eq!(sender_step(true, 3, 10), (SenderAction::Stop, 3));
}

#[test]
fn sender_sends_next_published_packet() {
    assert_eq!(sender_step(false, 3, 10), (SenderAction::Send(3), 4));
    assert_eq!(sender_step(false, 9, 10), (SenderAction::Send(9), 10));
}

#[test]
fn sender_waits_when_caught_up() {
    assert_eq!(sender_step(false, 10, 10), (SenderAction::Wait, 10));
}

#[test]
fn sender_follows_writer_in_order() {
    let mut ring = BroadcastRing::new(8);
    for p in [b"p0", b"p1", b"p2"] {
        ring.publish(p);
    }
    let mut cursor = 0u64;
    let mut seen: Vec<Vec<u8>> = Vec::new();
    loop {
        let (action, next) = sender_step(false, cursor, ring.next_slot() as u64);
        cursor = next;
        match action {
            SenderAction::Send(k) => seen.push(ring.read_slot(k as usize).to_vec()),
            SenderAction::Wait => break,
            SenderAction::Stop => unreachable!(),
        }
    }
    assert_eq!(seen, vec![b"p0".to_vec(), b"p1".to_vec(), b"p2".to_vec()]);
}

#[test]
fn counter_reports_after_a_second() {
    let mut c = ForwardCounter::new();
    assert_eq!(c.record_packet(10), None);
    assert_eq!(c.record_packet(500), None);
    assert_eq!(c.record_packet(1000), Some(ProgressReport { total: 3, since_last: 3 }));
    assert_eq!(c.record_packet(3), None);
    assert_eq!(c.record_packet(1200), Some(ProgressReport { total: 5, since_last: 2 }));
    assert_eq!(c.total, 5);
    assert_eq!(c.last_report_total, 5);
}

#[test]
fn counter_wraps_around() {
    let mut c = ForwardCounter { total: u64::MAX, last_report_total: u64::MAX - 1 };
    assert_eq!(c.record_packet(2000), Some(ProgressReport { total: 0, since_last: 2 }));
}
