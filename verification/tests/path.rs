use vl1::endpoint::Endpoint;
use vl1::hasher::{hash_packet_id, PacketIdHasher};
use vl1::path::{
    Path, PathServiceResult, FRAGMENT_EXPIRATION, FRAGMENT_MAX_INBOUND_PACKETS_PER_PATH,
    NEVER_HAPPENED_TICKS, PATH_EXPIRATION_TIME, PATH_KEEPALIVE_INTERVAL,
};

fn new_path(time_ticks: i64) -> Path<u64, u64> {
    Path::new(Endpoint::new(1, 10), 7, 8, time_ticks, 1, 0x1234_5678_9abc_def0)
}

#[test]
fn hasher_is_seeded_and_deterministic() {
    assert_eq!(hash_packet_id(1, 5), hash_packet_id(1, 5));
    // The mixing cascade is a bijection, so distinct seeded inputs give
    // distinct outputs.
    assert_ne!(hash_packet_id(1, 5), hash_packet_id(2, 5));
    assert_ne!(hash_packet_id(1, 5), hash_packet_id(1, 6));
    let mut h = PacketIdHasher::new(9);
    h.write_u64(5);
    assert_eq!(h.finish(), hash_packet_id(9, 5));
}

#[test]
fn new_path_starts_idle_and_empty(){
    let p = new_path(1000);
    assert_eq!(p.fragment_backlog(), 0);
    assert_eq!(p.last_send_time_ticks, NEVER_HAPPENED_TICKS);
    assert_eq!(p.last_receive_time_ticks, NEVER_HAPPENED_TICKS);
    assert_eq!(p.create_time_ticks, 1000);
}

#[test]
fn reassembly_completes_exactly_once() {
    let mut p = new_path(0);
    let n: u8 = 3;
    let id: u64 = 0xdead_beef;
    for no in 0..n - 1 {
        let r = p.receive_fragment(id, no, n, vec![no, no], 10);
        assert!(r.is_none());
        assert!(p.has_assembly(id));
    }
    let done = p.receive_fragment(id, n - 1, n, vec![2, 2], 11).unwrap();
    assert_eq!(done.expecting, 3);
    assert_eq!(done.have, 3);
    assert_eq!(done.frags[0], Some(vec![0, 0]));
    assert_eq!(done.frags[1], Some(vec![1, 1]));
    assert_eq!(done.frags[2], Some(vec![2, 2]));
    // The identifier is gone; a late duplicate starts a fresh assembly.
    assert!(!p.has_assembly(id));
    assert_eq!(p.fragment_backlog(), 0);
    assert!(p.receive_fragment(id, 0, n, vec![9], 12).is_none());
    assert!(p.has_assembly(id));
}

#[test]
fn duplicate_fragments_do_not_complete() {
    let mut p = new_path(0);
    assert!(p.receive_fragment(5, 0, 2, vec![1], 1).is_none());
    assert!(p.receive_fragment(5, 0, 2, vec![1], 2).is_none());
    assert!(p.receive_fragment(5, 0, 2, vec![1], 3).is_none());
    assert!(p.receive_fragment(5, 1, 2, vec![2], 4).is_some());
}

#[test]
fn single_fragment_packet_completes_immediately() {
    let mut p = new_path(0);
    let r = p.receive_fragment(77, 0, 1, vec![42], 5);
    assert!(r.is_some());
    assert_eq!(p.fragment_backlog(), 0);
}

#[test]
fn flood_evicts_oldest_first_and_stays_bounded() {
    let mut p = new_path(0);
    let total: u64 = (FRAGMENT_MAX_INBOUND_PACKETS_PER_PATH as u64) + 2;
    for i in 0..total {
        // Distinct identifiers, never completed, created at increasing times.
        assert!(p.receive_fragment(i, 0, 2, vec![0], i as i64).is_none());
        assert!(p.fragment_backlog() <= FRAGMENT_MAX_INBOUND_PACKETS_PER_PATH + 1);
    }
    // Processing the entry that pushed the table over the bound evicted the
    // oldest third, so the earliest identifiers are gone and the newest stay.
    let evicted = (FRAGMENT_MAX_INBOUND_PACKETS_PER_PATH + 1) / 3;
    for i in 0..evicted as u64 {
        assert!(!p.has_assembly(i));
    }
    for i in evicted as u64..total {
        assert!(p.has_assembly(i));
    }
    assert_eq!(
        p.fragment_backlog(),
        (total as usize) - evicted
    );
}

#[test]
fn service_prunes_expired_assemblies() {
    let mut p = new_path(0);
    assert!(p.receive_fragment(1, 0, 2, vec![0], 0).is_none());
    assert!(p.receive_fragment(2, 0, 2, vec![0], 900).is_none());
    let verdict = p.service(FRAGMENT_EXPIRATION + 100);
    assert_eq!(verdict, PathServiceResult::Alive);
    assert!(!p.has_assembly(1));
    assert!(p.has_assembly(2));
}

#[test]
fn fresh_path_alive_until_expiration_then_dead() {
    let mut p = new_path(1000);
    assert_eq!(p.service(1000), PathServiceResult::Alive);
    assert_eq!(
        p.service(1000 + PATH_EXPIRATION_TIME - 1),
        PathServiceResult::Alive
    );
    assert_eq!(
        p.service(1000 + PATH_EXPIRATION_TIME),
        PathServiceResult::Dead
    );
}

#[test]
fn keepalive_fires_once_per_interval() {
    let mut p = new_path(0);
    p.log_receive_anything(100);
    // Receiving but never sent: a keepalive is due.
    assert_eq!(p.service(100), PathServiceResult::NeedsKeepalive);
    // Within the same interval, no re-trigger.
    assert_eq!(p.service(101), PathServiceResult::Alive);
    assert_eq!(
        p.service(100 + PATH_KEEPALIVE_INTERVAL - 1),
        PathServiceResult::Alive
    );
    // The next interval boundary triggers again.
    assert_eq!(
        p.service(100 + PATH_KEEPALIVE_INTERVAL),
        PathServiceResult::NeedsKeepalive
    );
}

#[test]
fn recent_send_suppresses_keepalive() {
    let mut p = new_path(0);
    p.log_receive_anything(50);
    p.log_send_anything(60);
    assert_eq!(p.service(70), PathServiceResult::Alive);
    assert_eq!(p.last_send_time_ticks, 60);
}

#[test]
fn activity_logging_updates_timestamps() {
    let mut p = new_path(0);
    p.log_send_anything(5);
    p.log_receive_anything(6);
    assert_eq!(p.last_send_time_ticks, 5);
    assert_eq!(p.last_receive_time_ticks, 6);
}
