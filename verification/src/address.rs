//! Network addresses and the identities of peers, as the bytes that travel in
//! records.
//!
//! A multiaddress is a run of self-describing components; its last one may
//! name the peer that listens there. What the bytes of an address mean is
//! decided by `libp2p`; this module keeps, with the bytes, the one thing the
//! worker reads in them: the peer at the end.

use crate::codec::varint;
use crate::keys::bytes_equal;
use libp2p::multiaddr::Protocol;
use vstd::prelude::*;

verus! {

/// The bytes that `libp2p` writes for the peer identity that it reads from
/// `bytes`, or `None` where it reads none. One identity can be read from
/// several runs of bytes; it is written in one way only.
pub uninterp spec fn canonical_peer_id(bytes: Seq<u8>) -> Option<Seq<u8>>;

/// Whether `bytes` are the bytes of a multiaddress.
pub uninterp spec fn multiaddr_valid(bytes: Seq<u8>) -> bool;

/// For each component of the multiaddress `bytes`, in order: the bytes of the
/// peer identity that it names, or `None` where it names none.
pub uninterp spec fn component_peers(bytes: Seq<u8>) -> Seq<Option<Seq<u8>>>;

/// Whether `peer` are the bytes of a peer identity as `libp2p` writes them.
pub open spec fn is_canonical(peer: Seq<u8>) -> bool {
    canonical_peer_id(peer) == Some(peer)
}

/// The bytes of the peer identity that the multiaddress `bytes` ends in, if
/// its last component names one.
pub open spec fn terminal_peer_id(bytes: Seq<u8>) -> Option<Seq<u8>> {
    let peers = component_peers(bytes);
    if peers.len() == 0 {
        None
    } else {
        peers.last()
    }
}

/// The component that names the peer `peer` at the end of a multiaddress: the
/// protocol code 421, the length of the identity and the identity.
pub open spec fn p2p_component(peer: Seq<u8>) -> Seq<u8> {
    seq![0xa5u8, 0x03u8] + varint(peer.len()) + peer
}

/// The views of a list of identities that may be missing.
pub open spec fn peer_options(list: Seq<Option<Vec<u8>>>) -> Seq<Option<Seq<u8>>> {
    Seq::new(
        list.len(),
        |i: int|
            match list[i] {
                Some(peer) => Some(peer@),
                None => None,
            },
    )
}

/// `libp2p::PeerId::from_bytes`, and `PeerId::to_bytes` on what it read: the
/// bytes of the identity as `libp2p` writes them. Those bytes read as the same
/// identity again, so they are their own canonical form.
#[verifier::external_body]
fn read_peer_id(bytes: &[u8]) -> (peer: Option<Vec<u8>>)
    ensures
        peer is Some <==> canonical_peer_id(bytes@) is Some,
        peer matches Some(p) ==> canonical_peer_id(bytes@) == Some(p@) && is_canonical(p@),
{
    match libp2p::PeerId::from_bytes(bytes) {
        Ok(peer) => Some(peer.to_bytes()),
        Err(_) => None,
    }
}

/// `libp2p::Multiaddr::try_from` on a byte vector: whether the bytes parse as
/// a multiaddress.
#[verifier::external_body]
fn check_multiaddr(bytes: &Vec<u8>) -> (ok: bool)
    ensures
        ok == multiaddr_valid(bytes@),
{
    libp2p::Multiaddr::try_from(bytes.clone()).is_ok()
}

/// `libp2p::Multiaddr::iter`: the components of the address, each handed out
/// as the bytes of the peer identity where it is a `P2p` component, and as
/// `None` where it is another one. The identities come as `PeerId::to_bytes`
/// writes them. Bytes that are no multiaddress give no component.
#[verifier::external_body]
fn read_component_peers(bytes: &Vec<u8>) -> (peers: Vec<Option<Vec<u8>>>)
    ensures
        peer_options(peers@) == component_peers(bytes@),
        forall|i: int|
            0 <= i < peers.len() ==> (#[trigger] peers[i] matches Some(p) ==> is_canonical(p@)),
{
    match libp2p::Multiaddr::try_from(bytes.clone()) {
        Ok(address) => address.iter().map(|component| match component {
            Protocol::P2p(peer) => Some(peer.to_bytes()),
            _ => None,
        }).collect(),
        Err(_) => Vec::new(),
    }
}

/// `libp2p::Multiaddr::with`, given a `P2p` component of an identity in its
/// canonical bytes: the address with that component written behind it. The
/// result is a multiaddress again; its components are those of the address,
/// followed by the one that was added.
#[verifier::external_body]
fn append_p2p(bytes: &Vec<u8>, peer: &Vec<u8>) -> (out: Vec<u8>)
    requires
        multiaddr_valid(bytes@),
        is_canonical(peer@),
    ensures
        out@ == bytes@ + p2p_component(peer@),
        multiaddr_valid(out@),
        component_peers(out@) == component_peers(bytes@).push(Some(peer@)),
{
    let address = libp2p::Multiaddr::try_from(bytes.clone()).expect("a multiaddress");
    let peer = libp2p::PeerId::from_bytes(peer).expect("a peer identity");
    address.with(Protocol::P2p(peer)).to_vec()
}

/// Identity of a node of the network.
#[derive(Debug, PartialEq, Eq, Hash)]
pub struct PeerId {
    bytes: Vec<u8>,
}

impl View for PeerId {
    type V = Seq<u8>;

    closed spec fn view(&self) -> Seq<u8> {
        self.bytes@
    }
}

impl Clone for PeerId {
    fn clone(&self) -> (r: Self)
        ensures
            r@ == self@,
    {
        proof {
            use_type_invariant(self);
        }
        PeerId { bytes: self.bytes.clone() }
    }
}

impl PeerId {
    /// The invariant of the type: the bytes are those of a peer identity, in
    /// the one form in which an identity is written.
    #[verifier::type_invariant]
    pub closed spec fn wf(&self) -> bool {
        is_canonical(self.bytes@)
    }

    /// The identity that is read from the given bytes, if they hold one. It
    /// is kept in its canonical bytes, so that two identities are the same
    /// exactly where their bytes are.
    pub fn from_bytes(bytes: Vec<u8>) -> (r: Option<PeerId>)
        ensures
            r is Some <==> canonical_peer_id(bytes@) is Some,
            r matches Some(p) ==> canonical_peer_id(bytes@) == Some(p@) && is_canonical(p@),
    {
        match read_peer_id(bytes.as_slice()) {
            Some(canonical) => Some(PeerId { bytes: canonical }),
            None => None,
        }
    }

    /// The bytes of this identity, which are canonical.
    pub fn to_bytes(&self) -> (r: Vec<u8>)
        ensures
            r@ == self@,
            is_canonical(r@),
    {
        proof {
            use_type_invariant(self);
        }
        self.bytes.clone()
    }

    /// Whether this is the identity `other`.
    pub fn same(&self, other: &PeerId) -> (r: bool)
        ensures
            r == (self@ == other@),
    {
        bytes_equal(self.bytes.as_slice(), other.bytes.as_slice())
    }
}

/// The view of a peer identity that may be missing.
pub open spec fn peer_view(peer: Option<PeerId>) -> Option<Seq<u8>> {
    match peer {
        Some(p) => Some(p@),
        None => None,
    }
}

/// A network address, with the peer it ends in.
#[derive(Debug, PartialEq, Eq, Hash)]
pub struct MultiAddress {
    bytes: Vec<u8>,
    peer: Option<PeerId>,
}

impl View for MultiAddress {
    type V = Seq<u8>;

    closed spec fn view(&self) -> Seq<u8> {
        self.bytes@
    }
}

impl Clone for MultiAddress {
    fn clone(&self) -> (r: Self)
        ensures
            r@ == self@,
            r.peer() == self.peer(),
    {
        proof {
            use_type_invariant(self);
        }
        let peer = match &self.peer {
            Some(p) => Some(p.clone()),
            None => None,
        };
        MultiAddress { bytes: self.bytes.clone(), peer }
    }
}

impl MultiAddress {
    /// The peer that is kept with the bytes.
    pub closed spec fn peer(&self) -> Option<Seq<u8>> {
        peer_view(self.peer)
    }

    /// The invariant of the type: the bytes are those of a multiaddress, and
    /// the peer kept with them is the one they end in.
    #[verifier::type_invariant]
    pub closed spec fn wf(&self) -> bool {
        &&& multiaddr_valid(self.bytes@)
        &&& peer_view(self.peer) == terminal_peer_id(self.bytes@)
    }

    /// The address with the given bytes, if they are those of one.
    pub fn from_bytes(bytes: Vec<u8>) -> (r: Option<MultiAddress>)
        ensures
            r is Some <==> multiaddr_valid(bytes@),
            r matches Some(a) ==> a@ == bytes@,
    {
        if !check_multiaddr(&bytes) {
            return None;
        }
        let peers = read_component_peers(&bytes);
        let peer = if peers.len() == 0 {
            None
        } else {
            assert(peer_options(peers@).last() == peer_options(peers@)[peers.len() - 1]);
            match &peers[peers.len() - 1] {
                Some(last) => Some(PeerId { bytes: last.clone() }),
                None => None,
            }
        };
        Some(MultiAddress { bytes, peer })
    }

    /// The bytes of this address.
    pub fn to_vec(&self) -> (r: Vec<u8>)
        ensures
            r@ == self@,
    {
        self.bytes.clone()
    }

    /// The peer that this address ends in, if its last component names one.
    pub fn peer_id(&self) -> (r: Option<PeerId>)
        ensures
            multiaddr_valid(self@),
            peer_view(r) == terminal_peer_id(self@),
            r matches Some(p) ==> is_canonical(p@),
    {
        proof {
            use_type_invariant(self);
        }
        match &self.peer {
            Some(p) => {
                proof {
                    use_type_invariant(p);
                }
                Some(p.clone())
            },
            None => None,
        }
    }

    /// Whether this address ends in a peer.
    pub fn has_peer_id(&self) -> (r: bool)
        ensures
            r == terminal_peer_id(self@) is Some,
    {
        proof {
            use_type_invariant(self);
        }
        self.peer.is_some()
    }

    /// Whether this address ends in the peer `peer`.
    pub fn ends_in(&self, peer: &PeerId) -> (r: bool)
        ensures
            r == (terminal_peer_id(self@) == Some(peer@)),
    {
        proof {
            use_type_invariant(self);
        }
        match &self.peer {
            Some(p) => p.same(peer),
            None => false,
        }
    }

    /// This address with the peer `peer` as a further, last component.
    pub fn with_p2p(&self, peer: &PeerId) -> (r: MultiAddress)
        ensures
            r@ == self@ + p2p_component(peer@),
            component_peers(r@) == component_peers(self@).push(Some(peer@)),
            terminal_peer_id(r@) == Some(peer@),
    {
        proof {
            use_type_invariant(self);
            use_type_invariant(peer);
        }
        let bytes = append_p2p(&self.bytes, &peer.bytes);
        MultiAddress { bytes, peer: Some(peer.clone()) }
    }

    /// Whether this is the address `other`, byte for byte.
    pub fn same(&self, other: &MultiAddress) -> (r: bool)
        ensures
            r == (self@ == other@),
    {
        bytes_equal(self.bytes.as_slice(), other.bytes.as_slice())
    }
}

} // verus!
