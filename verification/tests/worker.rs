use std::collections::{HashMap, HashSet};

use authority_discovery::{
    build_dht_event, serialize_addresses, AuthorityId, DhtEvent, MultiAddress, PeerId, RecordKey,
    Role, TestNetwork, TestNetworkEvent, Worker, MAX_ADDRESSES_PER_AUTHORITY,
    MAX_IN_FLIGHT_LOOKUPS,
};
use libp2p::multiaddr::Protocol;
use libp2p::Multiaddr;
use sp_core::sr25519;
use sp_core::Pair;

/// A peer identity as `PeerId::random` makes it: 32 random bytes behind the
/// identity hash code.
fn random_peer_id() -> libp2p::PeerId {
    let (pair, _) = sr25519::Pair::generate();
    let mut bytes = vec![0x00, 0x20];
    bytes.extend_from_slice(&pair.public().0);
    libp2p::PeerId::from_bytes(&bytes).unwrap()
}

fn peer(peer_id: &libp2p::PeerId) -> PeerId {
    PeerId::from_bytes(peer_id.to_bytes()).unwrap()
}

fn address(multiaddr: &Multiaddr) -> MultiAddress {
    MultiAddress::from_bytes(multiaddr.to_vec()).unwrap()
}

fn multiaddr(address: &MultiAddress) -> Multiaddr {
    Multiaddr::try_from(address.to_vec()).unwrap()
}

fn authority(pair: &sr25519::Pair) -> AuthorityId {
    AuthorityId(pair.public().0.to_vec())
}

fn generate() -> sr25519::Pair {
    sr25519::Pair::generate().0
}

/// The network of a node with a random identity and one external address.
fn default_network() -> (TestNetwork, libp2p::PeerId) {
    let peer_id = random_peer_id();
    let external: Multiaddr = "/ip6/2001:db8::/tcp/30333".parse().unwrap();
    (TestNetwork::new(peer(&peer_id), vec![address(&external)]), peer_id)
}

fn signed_event(addresses: Vec<Multiaddr>, pair: &sr25519::Pair) -> (RecordKey, Vec<u8>) {
    let addresses: Vec<MultiAddress> = addresses.iter().map(address).collect();
    let serialized_addresses = serialize_addresses(&addresses);
    let signature = pair.sign(serialized_addresses.as_slice()).0.to_vec();
    build_dht_event(&serialized_addresses, &signature, &authority(pair))
}

fn get_values(network: &mut TestNetwork, keys: Vec<RecordKey>) {
    for key in keys {
        network.get_value(&key);
    }
}

fn multiaddr_set(addresses: &[MultiAddress]) -> HashSet<Multiaddr> {
    addresses.iter().map(multiaddr).collect()
}

#[test]
fn triggers_dht_get_query() {
    // Generate authority keys
    let authority_1_key_pair = sr25519::Pair::from_seed_slice(&[1; 32]).unwrap();
    let authority_2_key_pair = sr25519::Pair::from_seed_slice(&[2; 32]).unwrap();
    let authorities = vec![authority(&authority_1_key_pair), authority(&authority_2_key_pair)];

    let (mut network, _) = default_network();
    let mut worker = Worker::new(Role::Authority, network.local_peer_id());

    worker.refill_pending_lookups_queue(&authorities);
    get_values(&mut network, worker.start_new_lookups());
    assert_eq!(network.get_value_call.len(), authorities.len());
}

#[test]
fn publish_discover_cycle() {
    // Node A publishing its address.
    let (mut network, peer_id) = default_network();
    let node_a_multiaddr = {
        let address = multiaddr(&network.external_addresses().pop().unwrap());
        address.with(Protocol::P2p(peer_id))
    };

    let key_store = generate();
    let node_a_public = authority(&key_store);
    let authorities = vec![node_a_public.clone()];

    let mut worker = Worker::new(Role::Authority, network.local_peer_id());

    let publication = worker
        .publish_ext_addresses(&network.external_addresses(), &vec![node_a_public], &authorities)
        .unwrap();
    for key in publication.keys.iter() {
        let signature = key_store.sign(publication.serialized_addresses.as_slice()).0.to_vec();
        let (record_key, value) = worker
            .handle_signature(&publication.serialized_addresses, key, Some(signature))
            .unwrap();
        network.put_value(record_key, value);
    }

    // Expect authority discovery to put a new record onto the dht.
    assert_eq!(network.put_value_call.len(), 1);

    let dht_event = {
        let (key, value) = network.put_value_call.pop().unwrap();
        DhtEvent::ValueFound(vec![(key, value)])
    };

    // Node B discovering node A's address.
    let (mut network, _) = default_network();
    let mut worker = Worker::new(Role::Authority, network.local_peer_id());

    worker.refill_pending_lookups_queue(&authorities);
    get_values(&mut network, worker.start_new_lookups());

    // Make authority discovery handle the event.
    get_values(&mut network, worker.handle_dht_event(dht_event));

    let (group_id, peers) = worker.set_priority_group();
    network.set_priority_group(group_id, peers).unwrap();

    // Expect authority discovery to set the priority set.
    assert_eq!(network.set_priority_group_call.len(), 1);

    let (group_id, peers) = &network.set_priority_group_call[0];
    assert_eq!(
        (group_id.clone(), multiaddr_set(peers)),
        ("authorities".to_string(), HashSet::from_iter(vec![node_a_multiaddr.clone()].into_iter()))
    );
}

#[test]
fn dont_stop_polling_dht_event_stream_after_bogus_event() {
    let remote_multiaddr = {
        let peer_id = random_peer_id();
        let address: Multiaddr = "/ip6/2001:db8:0:0:0:0:0:1/tcp/30333".parse().unwrap();

        address.with(Protocol::P2p(peer_id))
    };
    let remote_key_store = generate();
    let remote_public_key = authority(&remote_key_store);

    let (mut network, _) = default_network();
    let mut worker = Worker::new(Role::Authority, network.local_peer_id());

    // Refilling `pending_lookups` only happens every X minutes. Fast
    // forward by calling `refill_pending_lookups_queue` directly.
    worker.refill_pending_lookups_queue(&vec![remote_public_key.clone()]);
    get_values(&mut network, worker.start_new_lookups());

    // Assert worker to trigger a lookup for the one and only authority.
    let mut network_events = network.take_events().into_iter();
    assert!(matches!(network_events.next(), Some(TestNetworkEvent::GetCalled(_))));

    // Send an event that should generate an error
    get_values(&mut network, worker.handle_dht_event(DhtEvent::ValueFound(Default::default())));

    // Make previously triggered lookup succeed.
    let dht_event = {
        let (key, value) = signed_event(vec![remote_multiaddr.clone()], &remote_key_store);
        DhtEvent::ValueFound(vec![(key, value)])
    };
    get_values(&mut network, worker.handle_dht_event(dht_event));

    // Expect authority discovery to function normally, now knowing the
    // address for the remote node.
    let addresses = worker.get_addresses_by_authority_id(&remote_public_key);
    assert_eq!(Some(vec![address(&remote_multiaddr)]), addresses);
}

/// In the scenario of a validator publishing the address of its sentry node to
/// the DHT, said sentry node should not add its own Multiaddr to the
/// peerset "authority" priority group.
#[test]
fn never_add_own_address_to_priority_group() {
    let validator_key_store = generate();
    let validator_public = authority(&validator_key_store);

    let (mut sentry_network, sentry_peer_id) = default_network();

    let sentry_multiaddr = {
        let address: Multiaddr = "/ip6/2001:db8:0:0:0:0:0:2/tcp/30333".parse().unwrap();

        address.with(Protocol::P2p(sentry_peer_id))
    };

    // Address of some other sentry node of `validator`.
    let random_multiaddr = {
        let peer_id = random_peer_id();
        let address: Multiaddr = "/ip6/2001:db8:0:0:0:0:0:1/tcp/30333".parse().unwrap();

        address.with(Protocol::P2p(peer_id))
    };

    let dht_event =
        signed_event(vec![sentry_multiaddr, random_multiaddr.clone()], &validator_key_store);

    let mut sentry_worker = Worker::new(Role::Sentry, sentry_network.local_peer_id());

    // Make sure the sentry node identifies its validator as an authority.
    sentry_worker.refill_pending_lookups_queue(&vec![validator_public]);
    get_values(&mut sentry_network, sentry_worker.start_new_lookups());

    get_values(&mut sentry_network, sentry_worker.handle_dht_value_found_event(vec![dht_event]));
    let (group_id, peers) = sentry_worker.set_priority_group();
    sentry_network.set_priority_group(group_id, peers).unwrap();

    assert_eq!(
        sentry_network.set_priority_group_call.len(),
        1,
        "Expect authority discovery to set the priority set.",
    );

    let (group_id, peers) = &sentry_network.set_priority_group_call[0];
    assert_eq!(
        (group_id.clone(), multiaddr_set(peers)),
        (
            "authorities".to_string(),
            HashSet::from_iter(vec![random_multiaddr.clone()].into_iter(),)
        ),
        "Expect authority discovery to only add `random_multiaddr`."
    );
}

#[test]
fn limit_number_of_addresses_added_to_cache_per_authority() {
    let remote_key_store = generate();
    let remote_public = authority(&remote_key_store);

    let addresses = (0..100)
        .map(|_| {
            let peer_id = random_peer_id();
            let address: Multiaddr = "/ip6/2001:db8:0:0:0:0:0:1/tcp/30333".parse().unwrap();
            address.with(Protocol::P2p(peer_id))
        })
        .collect();

    let dht_event = signed_event(addresses, &remote_key_store);

    let (mut network, _) = default_network();
    let mut worker = Worker::new(Role::Sentry, network.local_peer_id());

    worker.refill_pending_lookups_queue(&vec![remote_public.clone()]);
    get_values(&mut network, worker.start_new_lookups());

    get_values(&mut network, worker.handle_dht_value_found_event(vec![dht_event]));
    assert_eq!(
        MAX_ADDRESSES_PER_AUTHORITY,
        worker.addr_cache().get_addresses_by_authority_id(&remote_public).unwrap().len(),
    );
}

#[test]
fn do_not_cache_addresses_without_peer_id() {
    let remote_key_store = generate();
    let remote_public = authority(&remote_key_store);

    let multiaddr_with_peer_id = {
        let peer_id = random_peer_id();
        let address: Multiaddr = "/ip6/2001:db8:0:0:0:0:0:2/tcp/30333".parse().unwrap();

        address.with(Protocol::P2p(peer_id))
    };

    let multiaddr_without_peer_id: Multiaddr =
        "/ip6/2001:db8:0:0:0:0:0:1/tcp/30333".parse().unwrap();

    let dht_event = signed_event(
        vec![multiaddr_with_peer_id.clone(), multiaddr_without_peer_id],
        &remote_key_store,
    );

    let (mut local_network, _) = default_network();
    let mut local_worker = Worker::new(Role::Authority, local_network.local_peer_id());

    // Make sure the node identifies the remote as an authority.
    local_worker.refill_pending_lookups_queue(&vec![remote_public.clone()]);
    get_values(&mut local_network, local_worker.start_new_lookups());

    get_values(&mut local_network, local_worker.handle_dht_value_found_event(vec![dht_event]));

    assert_eq!(
        Some(&vec![address(&multiaddr_with_peer_id)]),
        local_worker.addr_cache().get_addresses_by_authority_id(&remote_public),
        "Expect worker to only cache `Multiaddr`s with `PeerId`s.",
    );
}

#[test]
fn addresses_to_publish_adds_p2p() {
    let (network, _) = default_network();

    assert!(!matches!(
        multiaddr(&network.external_addresses().pop().unwrap()).pop().unwrap(),
        Protocol::P2p(_)
    ));

    let worker = Worker::new(Role::Authority, network.local_peer_id());

    let published = worker.addresses_to_publish(&network.external_addresses());
    assert!(
        matches!(
            multiaddr(&published.into_iter().next().unwrap()).pop().unwrap(),
            Protocol::P2p(_)
        ),
        "Expect `addresses_to_publish` to append `p2p` protocol component.",
    );
}

/// Ensure [`Worker::addresses_to_publish`] does not add an additional `p2p` protocol component in
/// case one already exists.
#[test]
fn addresses_to_publish_respects_existing_p2p_protocol() {
    let external: Multiaddr =
        "/ip6/2001:db8::/tcp/30333/p2p/QmcgpsyWgH8Y8ajJz1Cu72KnS5uo2Aa2LpzU7kinSupNKC"
            .parse()
            .unwrap();
    let network = TestNetwork::new(peer(&random_peer_id()), vec![address(&external)]);

    let worker = Worker::new(Role::Authority, network.local_peer_id());

    assert_eq!(
        network.external_addresses(),
        worker.addresses_to_publish(&network.external_addresses()),
        "Expected Multiaddr from `TestNetwork` to not be altered.",
    );
}

#[test]
fn lookup_throttling() {
    let remote_multiaddr = {
        let peer_id = random_peer_id();
        let address: Multiaddr = "/ip6/2001:db8:0:0:0:0:0:1/tcp/30333".parse().unwrap();

        address.with(Protocol::P2p(peer_id))
    };
    let remote_key_store: Vec<sr25519::Pair> = (0..20).map(|_| generate()).collect();
    let remote_public_keys: Vec<AuthorityId> = remote_key_store.iter().map(authority).collect();
    let remote_hash_to_key = remote_key_store
        .iter()
        .map(|k| (authority_discovery::hash_authority_id(k.public().0.as_ref()), k.clone()))
        .collect::<HashMap<_, _>>();

    let (mut network, _) = default_network();
    let mut worker = Worker::new(Role::Sentry, network.local_peer_id());

    // Refilling `pending_lookups` only happens every X minutes. Fast
    // forward by calling `refill_pending_lookups_queue` directly.
    worker.refill_pending_lookups_queue(&remote_public_keys);
    get_values(&mut network, worker.start_new_lookups());

    // Assert worker to trigger MAX_IN_FLIGHT_LOOKUPS lookups.
    let mut receiver = network.take_events().into_iter();
    for _ in 0..MAX_IN_FLIGHT_LOOKUPS {
        assert!(matches!(receiver.next(), Some(TestNetworkEvent::GetCalled(_))));
    }
    assert_eq!(
        worker.metrics().requests_pending,
        (remote_public_keys.len() - MAX_IN_FLIGHT_LOOKUPS) as u64
    );
    assert_eq!(network.get_value_call.len(), MAX_IN_FLIGHT_LOOKUPS);

    // Make first lookup succeed.
    let remote_hash = network.get_value_call.pop().unwrap();
    let remote_key = remote_hash_to_key.get(&remote_hash).unwrap().clone();
    let dht_event = {
        let (key, value) = signed_event(vec![remote_multiaddr.clone()], &remote_key);
        DhtEvent::ValueFound(vec![(key, value)])
    };
    get_values(&mut network, worker.handle_dht_event(dht_event));

    // Assert worker to trigger another lookup.
    let mut receiver = network.take_events().into_iter();
    assert!(matches!(receiver.next(), Some(TestNetworkEvent::GetCalled(_))));
    assert!(receiver.next().is_none());
    assert_eq!(
        worker.metrics().requests_pending,
        (remote_public_keys.len() - MAX_IN_FLIGHT_LOOKUPS - 1) as u64
    );
    assert_eq!(network.get_value_call.len(), MAX_IN_FLIGHT_LOOKUPS);

    // Make second one fail.
    let remote_hash = network.get_value_call.pop().unwrap();
    let dht_event = DhtEvent::ValueNotFound(remote_hash);
    get_values(&mut network, worker.handle_dht_event(dht_event));

    // Assert worker to trigger another lookup.
    let mut receiver = network.take_events().into_iter();
    assert!(matches!(receiver.next(), Some(TestNetworkEvent::GetCalled(_))));
    assert!(receiver.next().is_none());
    assert_eq!(
        worker.metrics().requests_pending,
        (remote_public_keys.len() - MAX_IN_FLIGHT_LOOKUPS - 2) as u64
    );
    assert_eq!(network.get_value_call.len(), MAX_IN_FLIGHT_LOOKUPS);
}
