//! Tests of the neighbour directory: expiry, deduplication, sweep order,
//! and renewal.

use peernet::addr::PeerAddr;
use peernet::directory::{NeighbourDirectory, NeighbourEntry, NeighbourMap};

fn addr(last: u8, port: u16) -> PeerAddr {
    PeerAddr::new(127, 0, 0, last, port)
}

#[test]
fn neighbour_entry() {
    let ttl = 500;
    let entry = NeighbourEntry::new("peer-a".to_string(), addr(1, 2000), ttl);
    assert_eq!(entry.ttl_expired(0), false);

    // 600 ms later the 500 ms deadline has passed.
    assert_eq!(entry.ttl_expired(600), true);
}

#[test]
fn neighbour_map() {
    let ttl = 500;
    let entry1 = NeighbourEntry::new("peer-a".to_string(), addr(1, 2000), ttl);
    let entry2 = NeighbourEntry::new("peer-b".to_string(), addr(1, 2001), ttl);
    let entry3 = NeighbourEntry::new("peer-c".to_string(), addr(1, 2002), ttl);

    let mut map = NeighbourMap::new();
    map.insert(entry1);
    map.insert(entry2);
    map.insert(entry3);

    assert_eq!(map.contains_peer("peer-a"), true);
    assert_eq!(map.contains_peer("peer-123"), false);
    let peer = map.find_peer("peer-c").unwrap();

    assert_eq!(*peer.addr(), addr(1, 2002));

    let ids = vec!["peer-a", "peer-b", "peer-c"];
    let mut i = 0;
    while i < map.count() {
        assert_eq!(*map.get(i).id(), ids[i]);
        i += 1;
    }
    assert_eq!(i, 3);
}

#[test]
fn map_expiry() {
    let ttl = 500;
    let entry1 = NeighbourEntry::new("peer-a".to_string(), addr(1, 2000), ttl);
    let entry2 = NeighbourEntry::new("peer-b".to_string(), addr(1, 2001), ttl);
    let entry3 = NeighbourEntry::new("peer-c".to_string(), addr(1, 2002), ttl);

    let mut map = NeighbourMap::new();
    map.insert(entry1);
    map.insert(entry2);
    map.insert(entry3);

    // 600 ms later every entry's deadline has passed.
    map.remove_expired(600);
    assert_eq!(map.count(), 0);
}

#[test]
fn sweep_removes_exactly_expired_and_keeps_order() {
    let mut map = NeighbourMap::new();
    map.insert(NeighbourEntry::new("a".to_string(), addr(1, 1), 100));
    map.insert(NeighbourEntry::new("b".to_string(), addr(1, 2), 300));
    map.insert(NeighbourEntry::new("c".to_string(), addr(1, 3), 250));
    map.insert(NeighbourEntry::new("d".to_string(), addr(1, 4), 400));

    // An expiry at exactly "now" counts as expired; survivors keep their
    // insertion order.
    map.remove_expired(250);
    assert_eq!(map.count(), 2);
    assert_eq!(*map.get(0).id(), "b");
    assert_eq!(*map.get(1).id(), "d");
}

#[test]
fn insert_is_first_writer_wins() {
    let mut map = NeighbourMap::new();
    map.insert(NeighbourEntry::new("a".to_string(), addr(1, 1), 100));
    map.insert(NeighbourEntry::new("a".to_string(), addr(9, 9), 999));

    assert_eq!(map.count(), 1);
    let entry = map.find_peer("a").unwrap();
    assert_eq!(*entry.addr(), addr(1, 1));
    assert_eq!(entry.ttl_expired(100), true);
}

#[test]
fn renew_extends_only_existing_entries() {
    let mut map = NeighbourMap::new();
    map.insert(NeighbourEntry::new("a".to_string(), addr(1, 1), 500));

    // Renewing an unknown peer is silently ignored.
    assert_eq!(map.renew("stranger", 300), false);
    assert_eq!(map.count(), 1);

    // Immediately after a renewal the entry reports "not expired" up to
    // its new deadline, and "expired" from the deadline on.
    assert_eq!(map.renew("a", 300), true);
    let entry = map.find_peer("a").unwrap();
    assert_eq!(entry.ttl_expired(600), false);
    assert_eq!(entry.ttl_expired(799), false);
    assert_eq!(entry.ttl_expired(800), true);
}

#[test]
fn directory_tracks_groups_independently() {
    let mut dir = NeighbourDirectory::new();
    dir.insert("red", NeighbourEntry::new("a".to_string(), addr(1, 1), 100));
    dir.insert("blue", NeighbourEntry::new("a".to_string(), addr(2, 2), 200));
    dir.insert("red", NeighbourEntry::new("b".to_string(), addr(3, 3), 300));

    assert_eq!(dir.group_count(), 2);
    assert!(dir.contains("red", "a"));
    assert!(dir.contains("red", "b"));
    assert!(dir.contains("blue", "a"));
    assert!(!dir.contains("blue", "b"));

    // The same id in two groups is two entries; renewing across all
    // groups touches both.
    assert_eq!(dir.renew_all("a", 1000), true);
    dir.sweep(500);
    assert!(dir.contains("red", "a"));
    assert!(dir.contains("blue", "a"));
    assert!(!dir.contains("red", "b"));
}

#[test]
fn directory_renew_touches_one_group_only() {
    let mut dir = NeighbourDirectory::new();
    dir.insert("red", NeighbourEntry::new("a".to_string(), addr(1, 1), 100));
    dir.insert("blue", NeighbourEntry::new("a".to_string(), addr(2, 2), 100));

    assert_eq!(dir.group_at(0).name, "red");
    assert_eq!(dir.group_at(1).name, "blue");

    // Renewal under one group name leaves the same id elsewhere alone;
    // renewing an absent (group, id) is silently ignored.
    assert_eq!(dir.renew("red", "a", 1000), true);
    assert_eq!(dir.renew("red", "stranger", 1000), false);
    assert_eq!(dir.renew("green", "a", 1000), false);

    dir.sweep(100);
    assert!(dir.contains("red", "a"));
    assert!(!dir.contains("blue", "a"));
}

#[test]
fn directory_members_excludes_one_peer() {
    let mut dir = NeighbourDirectory::new();
    dir.insert("g", NeighbourEntry::new("a".to_string(), addr(1, 1), 100));
    dir.insert("g", NeighbourEntry::new("b".to_string(), addr(2, 2), 100));
    dir.insert("g", NeighbourEntry::new("c".to_string(), addr(3, 3), 100));

    let members = dir.members("g", "b");
    assert_eq!(members.len(), 2);
    assert_eq!(members[0], ("a".to_string(), addr(1, 1)));
    assert_eq!(members[1], ("c".to_string(), addr(3, 3)));

    assert_eq!(dir.members("nowhere", "b").len(), 0);
}

#[test]
fn directory_snapshot_is_equal_copy() {
    let mut dir = NeighbourDirectory::new();
    dir.insert("g", NeighbourEntry::new("a".to_string(), addr(1, 1), 100));
    dir.insert("h", NeighbourEntry::new("b".to_string(), addr(2, 2), 200));

    let snap = dir.snapshot();
    assert_eq!(snap, dir);

    // Mutating the original leaves the snapshot behind.
    dir.insert("g", NeighbourEntry::new("c".to_string(), addr(3, 3), 300));
    assert!(dir.contains("g", "c"));
    assert!(!snap.contains("g", "c"));
}

#[test]
fn directory_all_addresses_in_order() {
    let mut dir = NeighbourDirectory::new();
    dir.insert("g", NeighbourEntry::new("a".to_string(), addr(1, 1), 100));
    dir.insert("h", NeighbourEntry::new("b".to_string(), addr(2, 2), 100));
    dir.insert("g", NeighbourEntry::new("c".to_string(), addr(3, 3), 100));

    let addrs = dir.all_addresses();
    assert_eq!(addrs, vec![addr(1, 1), addr(3, 3), addr(2, 2)]);
}

#[test]
fn renewal_saturates_at_clock_end() {
    let mut map = NeighbourMap::new();
    map.insert(NeighbourEntry::new("a".to_string(), addr(1, 1), u64::MAX - 10));
    map.renew("a", 100);
    let entry = map.find_peer("a").unwrap();
    assert_eq!(entry.ttl_expired(u64::MAX - 1), false);
    assert_eq!(entry.ttl_expired(u64::MAX), true);
}
