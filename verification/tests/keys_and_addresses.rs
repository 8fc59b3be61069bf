use authority_discovery::keys::bytes_equal;
use authority_discovery::{hash_authority_id, verify_signature, AuthorityId, MultiAddress, PeerId};
use libp2p::multiaddr::Protocol;
use libp2p::Multiaddr;
use sha2::Digest;
use sp_core::sr25519;
use sp_core::Pair;

fn hex(bytes: &[u8]) -> String {
    bytes.iter().map(|b| format!("{:02x}", b)).collect()
}

/// The bytes of a peer identity of 32 bytes under the identity hash code.
fn identity_peer(fill: u8) -> Vec<u8> {
    let mut bytes = vec![0x00, 0x20];
    bytes.extend_from_slice(&[fill; 32]);
    bytes
}

fn parsed(text: &str) -> Multiaddr {
    text.parse().unwrap()
}

fn address(text: &str) -> MultiAddress {
    MultiAddress::from_bytes(parsed(text).to_vec()).unwrap()
}

const KNOWN_PEER: &str = "QmcgpsyWgH8Y8ajJz1Cu72KnS5uo2Aa2LpzU7kinSupNKC";

#[test]
fn record_key_is_the_sha_256_digest() {
    assert_eq!(
        hex(&hash_authority_id(b"").0),
        "e3b0c44298fc1c149afbf4c8996fb92427ae41e4649b934ca495991b7852b855"
    );
    assert_eq!(
        hex(&hash_authority_id(b"abc").0),
        "ba7816bf8f01cfea414140de5dae2223b00361a396177a9cb410ff61f20015ad"
    );
}

#[test]
fn record_key_has_32_bytes_and_differs_from_the_key() {
    let public = sr25519::Pair::from_seed_slice(&[7; 32]).unwrap().public();
    let key = hash_authority_id(&public.0);
    assert_eq!(key.0.len(), 32);
    assert_ne!(key.0, public.0.to_vec());
    assert_eq!(key.0, sha2::Sha256::digest(public.0).to_vec());
}

#[test]
fn record_key_is_the_same_for_the_same_authority() {
    let public = sr25519::Pair::from_seed_slice(&[9; 32]).unwrap().public();
    assert_eq!(hash_authority_id(&public.0), hash_authority_id(&public.0.to_vec()));
    let other = sr25519::Pair::from_seed_slice(&[10; 32]).unwrap().public();
    assert_ne!(hash_authority_id(&public.0), hash_authority_id(&other.0));
}

#[test]
fn signature_of_the_authority_verifies() {
    let pair = sr25519::Pair::from_seed_slice(&[1; 32]).unwrap();
    let authority = AuthorityId(pair.public().0.to_vec());
    let message = b"addresses".to_vec();
    let signature = pair.sign(&message).0.to_vec();
    assert!(verify_signature(&signature, &message, &authority));
}

#[test]
fn signature_over_other_bytes_does_not_verify() {
    let pair = sr25519::Pair::from_seed_slice(&[1; 32]).unwrap();
    let authority = AuthorityId(pair.public().0.to_vec());
    let signature = pair.sign(b"addresses").0.to_vec();
    assert!(!verify_signature(&signature, b"addresset", &authority));
    assert!(!verify_signature(&signature, b"", &authority));
}

#[test]
fn signature_of_another_key_does_not_verify() {
    let pair = sr25519::Pair::from_seed_slice(&[1; 32]).unwrap();
    let other = sr25519::Pair::from_seed_slice(&[2; 32]).unwrap();
    let signature = other.sign(b"addresses").0.to_vec();
    assert!(!verify_signature(&signature, b"addresses", &AuthorityId(pair.public().0.to_vec())));
    assert!(verify_signature(&signature, b"addresses", &AuthorityId(other.public().0.to_vec())));
}

#[test]
fn signature_or_key_of_another_length_does_not_verify() {
    let pair = sr25519::Pair::from_seed_slice(&[1; 32]).unwrap();
    let authority = AuthorityId(pair.public().0.to_vec());
    let signature = pair.sign(b"addresses").0.to_vec();
    assert!(!verify_signature(&signature[..63], b"addresses", &authority));
    let mut longer = signature.clone();
    longer.push(0);
    assert!(!verify_signature(&longer, b"addresses", &authority));
    assert!(!verify_signature(&[], b"addresses", &authority));
    let short_key = AuthorityId(pair.public().0[..31].to_vec());
    assert!(!verify_signature(&signature, b"addresses", &short_key));
    assert!(!verify_signature(&signature, b"addresses", &AuthorityId(vec![])));
}

#[test]
fn byte_strings_are_compared_byte_for_byte() {
    assert!(bytes_equal(&[], &[]));
    assert!(bytes_equal(&[1, 2, 3], &[1, 2, 3]));
    assert!(!bytes_equal(&[1, 2, 3], &[1, 2, 4]));
    assert!(!bytes_equal(&[1, 2, 3], &[1, 2]));
    assert!(!bytes_equal(&[], &[0]));
}

#[test]
fn keys_are_the_same_by_their_bytes() {
    let a = AuthorityId(vec![1, 2, 3]);
    assert!(a.same(&AuthorityId(vec![1, 2, 3])));
    assert!(!a.same(&AuthorityId(vec![1, 2])));
    assert!(a.clone().same(&a));
    let k = hash_authority_id(&[1]);
    assert!(k.same(&k.clone()));
    assert!(!k.same(&hash_authority_id(&[2])));
}

#[test]
fn peer_identity_is_read_from_its_bytes() {
    let bytes = identity_peer(5);
    let peer = PeerId::from_bytes(bytes.clone()).unwrap();
    assert_eq!(peer.to_bytes(), bytes);
    assert_eq!(libp2p::PeerId::from_bytes(&bytes).unwrap().to_bytes(), peer.to_bytes());

    let known: libp2p::PeerId = KNOWN_PEER.parse().unwrap();
    assert_eq!(PeerId::from_bytes(known.to_bytes()).unwrap().to_bytes(), known.to_bytes());
}

#[test]
fn bytes_that_are_no_peer_identity_are_refused() {
    assert_eq!(PeerId::from_bytes(vec![]), None);
    assert_eq!(PeerId::from_bytes(vec![0x00]), None);
    // The length says 32, and 31 bytes follow.
    assert_eq!(PeerId::from_bytes(identity_peer(1)[..33].to_vec()), None);
    // One byte too many.
    let mut longer = identity_peer(1);
    longer.push(0);
    assert_eq!(PeerId::from_bytes(longer), None);
    // A hash code that no peer identity uses (SHA-1).
    let mut sha1 = vec![0x11, 0x14];
    sha1.extend_from_slice(&[3; 20]);
    assert_eq!(PeerId::from_bytes(sha1), None);
}

#[test]
fn peer_identities_are_the_same_by_their_bytes() {
    let a = PeerId::from_bytes(identity_peer(1)).unwrap();
    let b = PeerId::from_bytes(identity_peer(2)).unwrap();
    assert!(a.same(&a.clone()));
    assert!(!a.same(&b));
}

#[test]
fn multiaddress_keeps_its_bytes() {
    let text = "/ip6/2001:db8::/tcp/30333";
    let bytes = parsed(text).to_vec();
    let address = MultiAddress::from_bytes(bytes.clone()).unwrap();
    assert_eq!(address.to_vec(), bytes);
    // ip6 is protocol 41 with 16 bytes, tcp is protocol 6 with a port of 2 bytes.
    let mut expected = vec![41, 0x20, 0x01, 0x0d, 0xb8];
    expected.extend_from_slice(&[0; 12]);
    expected.extend_from_slice(&[6, 0x76, 0x7d]);
    assert_eq!(address.to_vec(), expected);
}

#[test]
fn bytes_that_are_no_multiaddress_are_refused() {
    assert_eq!(MultiAddress::from_bytes(vec![0xff]), None);
    // tcp with one byte of its port.
    assert_eq!(MultiAddress::from_bytes(vec![6, 0x76]), None);
    // ip4 with three bytes.
    assert_eq!(MultiAddress::from_bytes(vec![4, 127, 0, 0]), None);
    // p2p with bytes that are no peer identity.
    assert_eq!(MultiAddress::from_bytes(vec![0xa5, 0x03, 2, 0x11, 0x00]), None);
}

#[test]
fn empty_multiaddress_ends_in_no_peer() {
    let address = MultiAddress::from_bytes(vec![]).unwrap();
    assert!(!address.has_peer_id());
    assert_eq!(address.peer_id(), None);
}

#[test]
fn peer_at_the_end_is_found() {
    let with_peer = address(&format!("/ip6/2001:db8::/tcp/30333/p2p/{}", KNOWN_PEER));
    let known: libp2p::PeerId = KNOWN_PEER.parse().unwrap();
    assert!(with_peer.has_peer_id());
    assert_eq!(with_peer.peer_id().unwrap().to_bytes(), known.to_bytes());
    assert!(with_peer.ends_in(&PeerId::from_bytes(known.to_bytes()).unwrap()));
    assert!(!with_peer.ends_in(&PeerId::from_bytes(identity_peer(1)).unwrap()));

    let without = address("/ip6/2001:db8::/tcp/30333");
    assert!(!without.has_peer_id());
    assert_eq!(without.peer_id(), None);
    assert!(!without.ends_in(&PeerId::from_bytes(known.to_bytes()).unwrap()));
}

#[test]
fn peer_that_is_not_at_the_end_does_not_count() {
    let relayed = address(&format!("/ip4/10.0.0.1/tcp/4001/p2p/{}/p2p-circuit", KNOWN_PEER));
    assert!(!relayed.has_peer_id());
    assert_eq!(relayed.peer_id(), None);
}

#[test]
fn last_of_two_peers_counts() {
    let first: libp2p::PeerId = KNOWN_PEER.parse().unwrap();
    let second = libp2p::PeerId::from_bytes(&identity_peer(4)).unwrap();
    let multiaddr = parsed("/ip4/10.0.0.1/tcp/4001")
        .with(Protocol::P2p(first))
        .with(Protocol::P2pCircuit)
        .with(Protocol::P2p(second));
    let address = MultiAddress::from_bytes(multiaddr.to_vec()).unwrap();
    assert_eq!(address.peer_id().unwrap().to_bytes(), second.to_bytes());
}

#[test]
fn peer_is_appended_as_the_last_component() {
    let base = address("/ip6/2001:db8::/tcp/30333");
    let peer_bytes = identity_peer(8);
    let peer = PeerId::from_bytes(peer_bytes.clone()).unwrap();
    let appended = base.with_p2p(&peer);

    // Protocol 421 as a varint, the length of the identity, the identity.
    let mut expected = base.to_vec();
    expected.extend_from_slice(&[0xa5, 0x03, 34]);
    expected.extend_from_slice(&peer_bytes);
    assert_eq!(appended.to_vec(), expected);
    assert_ne!(appended.to_vec(), base.to_vec());

    let theirs = parsed("/ip6/2001:db8::/tcp/30333")
        .with(Protocol::P2p(libp2p::PeerId::from_bytes(&peer_bytes).unwrap()));
    assert_eq!(appended.to_vec(), theirs.to_vec());

    assert!(appended.has_peer_id());
    assert!(appended.ends_in(&peer));
    assert_eq!(appended.peer_id(), Some(peer));
    assert_eq!(MultiAddress::from_bytes(appended.to_vec()), Some(appended));
}

#[test]
fn addresses_are_the_same_by_their_bytes() {
    let a = address("/ip4/127.0.0.1/tcp/1");
    let b = address("/ip4/127.0.0.1/tcp/2");
    assert!(a.same(&a.clone()));
    assert!(!a.same(&b));
    assert_eq!(a, a.clone());
    assert_ne!(a, b);
}

/// The identity with the hash code 0x12 and the digest `fill`, with the hash
/// code written in ten bytes where one would do.
fn long_form_peer(fill: u8) -> Vec<u8> {
    let mut bytes = vec![0x92];
    bytes.extend_from_slice(&[0x80; 8]);
    bytes.extend_from_slice(&[0x02, 0x20]);
    bytes.extend_from_slice(&[fill; 32]);
    bytes
}

fn short_form_peer(fill: u8) -> Vec<u8> {
    let mut bytes = vec![0x12, 0x20];
    bytes.extend_from_slice(&[fill; 32]);
    bytes
}

#[test]
fn peer_identity_is_kept_in_the_bytes_in_which_it_is_written() {
    let long = long_form_peer(7);
    let short = short_form_peer(7);
    assert_eq!(long.len(), 43);
    assert_eq!(libp2p::PeerId::from_bytes(&long).unwrap().to_bytes(), short);

    let peer = PeerId::from_bytes(long).unwrap();
    assert_eq!(peer.to_bytes(), short);
    assert_eq!(peer, PeerId::from_bytes(short.clone()).unwrap());
    assert!(peer.same(&PeerId::from_bytes(short.clone()).unwrap()));
    assert_eq!(PeerId::from_bytes(peer.to_bytes()).unwrap().to_bytes(), short);
    assert!(!peer.same(&PeerId::from_bytes(short_form_peer(8)).unwrap()));
}

#[test]
fn peer_read_from_long_bytes_is_appended_as_it_is_written() {
    let base = address("/ip6/2001:db8::/tcp/30333");
    let peer = PeerId::from_bytes(long_form_peer(7)).unwrap();
    let appended = base.with_p2p(&peer);

    let mut expected = base.to_vec();
    expected.extend_from_slice(&[0xa5, 0x03, 34]);
    expected.extend_from_slice(&short_form_peer(7));
    assert_eq!(appended.to_vec(), expected);

    let theirs = parsed("/ip6/2001:db8::/tcp/30333")
        .with(Protocol::P2p(libp2p::PeerId::from_bytes(&long_form_peer(7)).unwrap()));
    assert_eq!(appended.to_vec(), theirs.to_vec());
    assert!(appended.ends_in(&peer));
    assert_eq!(appended.peer_id(), Some(peer));
    assert_eq!(MultiAddress::from_bytes(appended.to_vec()), Some(appended));
}

#[test]
fn peer_in_long_bytes_at_the_end_of_an_address_is_the_same_peer() {
    let mut bytes = parsed("/ip4/10.0.0.1/tcp/4001").to_vec();
    bytes.extend_from_slice(&[0xa5, 0x03, 43]);
    bytes.extend_from_slice(&long_form_peer(7));
    assert!(Multiaddr::try_from(bytes.clone()).is_ok());

    let address = MultiAddress::from_bytes(bytes.clone()).unwrap();
    // The address keeps its bytes; the peer is kept as it is written.
    assert_eq!(address.to_vec(), bytes);
    assert!(address.has_peer_id());
    assert_eq!(address.peer_id().unwrap().to_bytes(), short_form_peer(7));
    assert!(address.ends_in(&PeerId::from_bytes(short_form_peer(7)).unwrap()));
    assert!(address.ends_in(&PeerId::from_bytes(long_form_peer(7)).unwrap()));
    assert!(!address.ends_in(&PeerId::from_bytes(short_form_peer(8)).unwrap()));
}
