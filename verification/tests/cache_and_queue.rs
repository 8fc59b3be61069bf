use std::collections::HashSet;

use authority_discovery::addr_cache::{cache_entry, contains_address, contains_peer, extend_unique};
use authority_discovery::lookup::contains_id;
use authority_discovery::{
    hash_authority_id, AddrCache, AuthorityId, LookupQueue, MultiAddress, PeerId, RecordKey,
    MAX_ADDRESSES_PER_AUTHORITY, MAX_IN_FLIGHT_LOOKUPS,
};
use libp2p::multiaddr::Protocol;
use libp2p::Multiaddr;

fn peer_bytes(n: u8) -> Vec<u8> {
    let mut bytes = vec![0x00, 0x20];
    bytes.extend_from_slice(&[n; 32]);
    bytes
}

fn peer(n: u8) -> PeerId {
    PeerId::from_bytes(peer_bytes(n)).unwrap()
}

/// An address on port `port` that ends in the peer `n`.
fn with_peer(port: u16, n: u8) -> MultiAddress {
    let multiaddr: Multiaddr = format!("/ip4/10.0.0.1/tcp/{}", port).parse().unwrap();
    let multiaddr =
        multiaddr.with(Protocol::P2p(libp2p::PeerId::from_bytes(&peer_bytes(n)).unwrap()));
    MultiAddress::from_bytes(multiaddr.to_vec()).unwrap()
}

/// An address on port `port` that ends in no peer.
fn without_peer(port: u16) -> MultiAddress {
    let multiaddr: Multiaddr = format!("/ip4/10.0.0.1/tcp/{}", port).parse().unwrap();
    MultiAddress::from_bytes(multiaddr.to_vec()).unwrap()
}

fn id(n: u8) -> AuthorityId {
    AuthorityId(vec![n; 32])
}

fn key(n: u8) -> RecordKey {
    hash_authority_id(&[n; 32])
}

fn ids(range: std::ops::Range<u8>) -> Vec<AuthorityId> {
    range.map(id).collect()
}

fn keys(range: std::ops::Range<u8>) -> Vec<RecordKey> {
    range.map(key).collect()
}

#[test]
fn new_cache_is_empty() {
    let cache = AddrCache::new();
    assert_eq!(cache.num_ids(), 0);
    assert_eq!(cache.get_addresses_by_authority_id(&id(1)), None);
    assert!(cache.addresses().is_empty());
    assert!(cache.get_peer_ids().is_empty());
}

#[test]
fn inserted_addresses_are_found() {
    let mut cache = AddrCache::new();
    cache.insert(id(1), vec![with_peer(1, 1), with_peer(2, 2)]);
    assert_eq!(
        cache.get_addresses_by_authority_id(&id(1)),
        Some(&vec![with_peer(1, 1), with_peer(2, 2)])
    );
    assert_eq!(cache.get_addresses_by_authority_id(&id(2)), None);
    assert_eq!(cache.num_ids(), 1);
}

#[test]
fn insert_replaces_and_does_not_merge() {
    let mut cache = AddrCache::new();
    cache.insert(id(1), vec![with_peer(1, 1), with_peer(2, 2)]);
    cache.insert(id(2), vec![with_peer(9, 9)]);
    cache.insert(id(1), vec![with_peer(3, 3)]);
    assert_eq!(cache.get_addresses_by_authority_id(&id(1)), Some(&vec![with_peer(3, 3)]));
    assert_eq!(cache.get_addresses_by_authority_id(&id(2)), Some(&vec![with_peer(9, 9)]));
    assert_eq!(cache.num_ids(), 2);
}

#[test]
fn insert_of_no_address_leaves_an_empty_entry() {
    let mut cache = AddrCache::new();
    cache.insert(id(1), vec![with_peer(1, 1)]);
    cache.insert(id(1), vec![]);
    assert_eq!(cache.get_addresses_by_authority_id(&id(1)), Some(&vec![]));
    assert_eq!(cache.num_ids(), 1);
}

#[test]
fn entry_keeps_the_first_addresses_up_to_the_cap() {
    let all: Vec<MultiAddress> = (0..25).map(|n| with_peer(1000 + n as u16, n)).collect();
    let mut cache = AddrCache::new();
    cache.insert(id(1), all.clone());
    let entry = cache.get_addresses_by_authority_id(&id(1)).unwrap();
    assert_eq!(entry.len(), MAX_ADDRESSES_PER_AUTHORITY);
    assert_eq!(entry.as_slice(), &all[..MAX_ADDRESSES_PER_AUTHORITY]);
}

#[test]
fn entry_of_exactly_the_cap_is_kept_whole() {
    let all: Vec<MultiAddress> =
        (0..MAX_ADDRESSES_PER_AUTHORITY).map(|n| with_peer(n as u16, n as u8)).collect();
    assert_eq!(cache_entry(&all), all);
}

#[test]
fn entry_holds_each_address_once() {
    let list = vec![with_peer(1, 1), with_peer(2, 2), with_peer(1, 1), with_peer(3, 3)];
    assert_eq!(cache_entry(&list), vec![with_peer(1, 1), with_peer(2, 2), with_peer(3, 3)]);
}

#[test]
fn duplicates_do_not_count_towards_the_cap() {
    let mut list = vec![with_peer(1, 1); 30];
    list.extend((2..12).map(|n| with_peer(n as u16, n)));
    let kept = cache_entry(&list);
    assert_eq!(kept.len(), MAX_ADDRESSES_PER_AUTHORITY);
    assert_eq!(kept[0], with_peer(1, 1));
    assert_eq!(kept[9], with_peer(10, 10));
}

#[test]
fn entry_holds_no_address_without_a_peer() {
    let list = vec![without_peer(1), with_peer(2, 2), without_peer(3)];
    assert_eq!(cache_entry(&list), vec![with_peer(2, 2)]);
    let mut cache = AddrCache::new();
    cache.insert(id(1), vec![without_peer(1)]);
    assert_eq!(cache.get_addresses_by_authority_id(&id(1)), Some(&vec![]));
}

#[test]
fn retain_drops_the_authorities_that_left() {
    let mut cache = AddrCache::new();
    for n in 0..6 {
        cache.insert(id(n), vec![with_peer(n as u16, n)]);
    }
    cache.retain_ids(&vec![id(1), id(4), id(5), id(77)]);
    assert_eq!(cache.num_ids(), 3);
    for n in [0, 2, 3] {
        assert_eq!(cache.get_addresses_by_authority_id(&id(n)), None);
    }
    for n in [1, 4, 5] {
        assert_eq!(
            cache.get_addresses_by_authority_id(&id(n)),
            Some(&vec![with_peer(n as u16, n)])
        );
    }
    cache.retain_ids(&vec![]);
    assert_eq!(cache.num_ids(), 0);
}

#[test]
fn addresses_of_the_cache_are_the_union_of_its_entries() {
    let mut cache = AddrCache::new();
    cache.insert(id(1), vec![with_peer(1, 1), with_peer(2, 2)]);
    cache.insert(id(2), vec![with_peer(2, 2), with_peer(3, 3)]);
    let all = cache.addresses();
    assert_eq!(all.len(), 3);
    let set: HashSet<MultiAddress> = all.into_iter().collect();
    assert_eq!(set, HashSet::from_iter(vec![with_peer(1, 1), with_peer(2, 2), with_peer(3, 3)]));
}

#[test]
fn peers_of_the_cache_are_given_once_each() {
    let mut cache = AddrCache::new();
    cache.insert(id(1), vec![with_peer(1, 1), with_peer(2, 1)]);
    cache.insert(id(2), vec![with_peer(3, 2)]);
    let peers = cache.get_peer_ids();
    assert_eq!(peers.len(), 2);
    let set: HashSet<PeerId> = peers.into_iter().collect();
    assert_eq!(set, HashSet::from_iter(vec![peer(1), peer(2)]));
}

#[test]
fn lists_are_searched_by_bytes() {
    let list = vec![with_peer(1, 1), with_peer(2, 2)];
    assert!(contains_address(&list, &with_peer(2, 2)));
    assert!(!contains_address(&list, &with_peer(2, 3)));
    assert!(contains_peer(&vec![peer(1), peer(2)], &peer(2)));
    assert!(!contains_peer(&vec![peer(1), peer(2)], &peer(3)));
    assert!(contains_id(&ids(0..3), &id(2)));
    assert!(!contains_id(&ids(0..3), &id(3)));
}

#[test]
fn list_is_extended_by_what_it_lacks() {
    let mut list = vec![with_peer(1, 1), with_peer(2, 2)];
    extend_unique(&mut list, &vec![with_peer(2, 2), with_peer(3, 3), with_peer(3, 3)]);
    assert_eq!(list, vec![with_peer(1, 1), with_peer(2, 2), with_peer(3, 3)]);
}

#[test]
fn new_queue_is_empty() {
    let mut queue = LookupQueue::new();
    assert_eq!(queue.pending_len(), 0);
    assert_eq!(queue.in_flight_len(), 0);
    assert!(queue.start_new_lookups().is_empty());
}

#[test]
fn refill_keeps_the_order_and_drops_duplicates() {
    let mut queue = LookupQueue::new();
    queue.refill(&vec![id(3), id(1), id(3), id(2), id(1)]);
    assert_eq!(queue.pending_len(), 3);
    // Lookups go out first in, first out.
    assert_eq!(queue.start_new_lookups(), vec![key(3), key(1), key(2)]);
    assert_eq!(queue.pending_len(), 0);
    assert_eq!(queue.in_flight_len(), 3);
}

#[test]
fn refill_replaces_what_waited() {
    let mut queue = LookupQueue::new();
    queue.refill(&ids(0..5));
    queue.refill(&ids(10..12));
    assert_eq!(queue.pending_len(), 2);
    assert_eq!(queue.start_new_lookups(), keys(10..12));
}

#[test]
fn refill_leaves_out_what_is_in_flight() {
    let mut queue = LookupQueue::new();
    queue.refill(&ids(0..3));
    assert_eq!(queue.start_new_lookups(), keys(0..3));
    queue.refill(&ids(1..6));
    // 1 and 2 are out already, and stay out.
    assert_eq!(queue.pending_len(), 3);
    assert_eq!(queue.in_flight_len(), 3);
    assert_eq!(queue.start_new_lookups(), keys(3..6));
    assert_eq!(queue.in_flight_len(), 6);
}

#[test]
fn at_most_eight_lookups_are_out() {
    let mut queue = LookupQueue::new();
    queue.refill(&ids(0..20));
    assert_eq!(queue.start_new_lookups(), keys(0..8));
    assert_eq!(queue.in_flight_len(), MAX_IN_FLIGHT_LOOKUPS);
    assert_eq!(queue.pending_len(), 12);
    assert!(queue.start_new_lookups().is_empty());
    assert_eq!(queue.in_flight_len(), MAX_IN_FLIGHT_LOOKUPS);
}

#[test]
fn response_frees_a_slot_for_the_next_lookup() {
    let mut queue = LookupQueue::new();
    queue.refill(&ids(0..10));
    queue.start_new_lookups();
    assert_eq!(queue.on_response(&key(3)), vec![key(8)]);
    assert_eq!(queue.in_flight_len(), MAX_IN_FLIGHT_LOOKUPS);
    assert_eq!(queue.on_response(&key(0)), vec![key(9)]);
    assert_eq!(queue.on_response(&key(1)), Vec::<RecordKey>::new());
    assert_eq!(queue.in_flight_len(), MAX_IN_FLIGHT_LOOKUPS - 1);
    assert_eq!(queue.pending_len(), 0);
}

#[test]
fn response_under_an_unknown_key_frees_nothing() {
    let mut queue = LookupQueue::new();
    queue.refill(&ids(0..10));
    queue.start_new_lookups();
    assert_eq!(queue.remove(&key(9)), None);
    assert_eq!(queue.on_response(&key(99)), Vec::<RecordKey>::new());
    assert_eq!(queue.in_flight_len(), MAX_IN_FLIGHT_LOOKUPS);
    assert_eq!(queue.pending_len(), 2);
}

#[test]
fn lookup_knows_its_authority() {
    let mut queue = LookupQueue::new();
    queue.refill(&ids(0..3));
    assert_eq!(queue.authority_of(&key(1)), None);
    queue.start_new_lookups();
    assert_eq!(queue.authority_of(&key(1)), Some(id(1)));
    assert_eq!(queue.authority_of(&key(7)), None);
    assert_eq!(queue.remove(&key(1)), Some(id(1)));
    assert_eq!(queue.authority_of(&key(1)), None);
    assert_eq!(queue.remove(&key(1)), None);
}

#[test]
fn lookups_in_flight_stay_bounded_over_a_long_run() {
    let mut queue = LookupQueue::new();
    for round in 0..50u8 {
        queue.refill(&ids(round..round.wrapping_add(30)));
        assert!(queue.in_flight_len() <= MAX_IN_FLIGHT_LOOKUPS);
        let issued = queue.start_new_lookups();
        assert!(issued.len() <= MAX_IN_FLIGHT_LOOKUPS);
        assert!(queue.in_flight_len() <= MAX_IN_FLIGHT_LOOKUPS);
        for k in issued.iter().take((round % 5) as usize) {
            queue.on_response(k);
            assert!(queue.in_flight_len() <= MAX_IN_FLIGHT_LOOKUPS);
        }
    }
}
