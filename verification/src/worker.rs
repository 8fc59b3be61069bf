//! The worker: publishes the addresses of the local node, looks the records
//! of the other authorities up, and keeps what it finds.
//!
//! The worker does no I/O. Each of its functions takes what came in (a tick
//! with the current authorities, an event of the DHT, a signature of the key
//! store) and gives back what is to go out (record keys to look up, a record
//! to put, the priority group for the network). The caller performs those
//! requests and hands the answers back.

use crate::addr_cache::{address_views, AddrCache, MAX_ADDRESSES_PER_AUTHORITY};
use crate::address::{terminal_peer_id, MultiAddress, PeerId};
use crate::assoc::lemma_push_no_duplicates;
use crate::codec::{addresses_encoding, views, AuthorityAddresses, SignedAuthorityAddresses};
use crate::error::Error;
use crate::keys::{hash_authority_id, record_key, verify_signature, AuthorityId, RecordKey};
use crate::lookup::{contains_id, id_views, key_views, LookupQueue, MAX_IN_FLIGHT_LOOKUPS};
use crate::metrics::{count, Metrics};
use crate::state::{
    addresses_to_publish, lemma_ingest_wf, lemma_refill_wf, lemma_start_wf, own_keys,
    record_addresses, remote_addresses, signed_record, Role, WorkerState,
};
use vstd::prelude::*;
use vstd::seq_lib::lemma_seq_contains_after_push;

verus! {

/// Name of the priority group of the network that holds the authorities.
pub const AUTHORITIES_PRIORITY_GROUP_NAME: &'static str = "authorities";

/// An event of the DHT.
#[derive(Debug)]
pub enum DhtEvent {
    /// Values were found: pairs of record key and value.
    ValueFound(Vec<(RecordKey, Vec<u8>)>),
    /// No value was found under the record key.
    ValueNotFound(RecordKey),
    /// The value under the record key was put.
    ValuePut(RecordKey),
    /// The value under the record key could not be put.
    ValuePutFailed(RecordKey),
}

/// What is to be signed for a publication, and with which keys.
#[derive(Debug)]
pub struct Publication {
    /// The encoded addresses, over which each signature is made.
    pub serialized_addresses: Vec<u8>,
    /// The keys of the key store to sign with: one record goes out for each.
    pub keys: Vec<AuthorityId>,
}

/// The views of the values of a notification.
pub open spec fn record_views(values: Seq<(RecordKey, Vec<u8>)>) -> Seq<(Seq<u8>, Seq<u8>)> {
    Seq::new(values.len(), |i: int| (values[i].0@, values[i].1@))
}

/// The state after an event of the DHT. Events other than those about
/// lookups change nothing.
pub open spec fn event_state(state: WorkerState, event: DhtEvent) -> WorkerState {
    match event {
        DhtEvent::ValueFound(values) => state.value_found(record_views(values@)),
        DhtEvent::ValueNotFound(key) => state.value_not_found(key@),
        DhtEvent::ValuePut(_) => state,
        DhtEvent::ValuePutFailed(_) => state,
    }
}

/// The record keys of the lookups that are sent out on an event of the DHT.
pub open spec fn event_issued(state: WorkerState, event: DhtEvent) -> Seq<Seq<u8>> {
    match event {
        DhtEvent::ValueFound(values) => state.value_found_issued(record_views(values@)),
        DhtEvent::ValueNotFound(key) => state.value_not_found_issued(key@),
        DhtEvent::ValuePut(_) => Seq::empty(),
        DhtEvent::ValuePutFailed(_) => Seq::empty(),
    }
}

/// Whether an event of the DHT takes a record into the cache.
pub open spec fn event_taken(state: WorkerState, event: DhtEvent) -> bool {
    match event {
        DhtEvent::ValueFound(values) => state.value_found_taken(record_views(values@)),
        DhtEvent::ValueNotFound(_) => false,
        DhtEvent::ValuePut(_) => false,
        DhtEvent::ValuePutFailed(_) => false,
    }
}

/// Whether `group` is the priority group of a worker in the state `state`:
/// the name of the group with all cached addresses, each once, none of which
/// ends in the local peer. There are no more than
/// `MAX_ADDRESSES_PER_AUTHORITY` of them for each authority with an entry.
pub open spec fn is_priority_group(state: WorkerState, group: (String, Vec<MultiAddress>)) -> bool {
    &&& group.0@ == AUTHORITIES_PRIORITY_GROUP_NAME@
    &&& address_views(group.1@).no_duplicates()
    &&& address_views(group.1@).to_set() == state.priority_group()
    &&& group.1@.len() <= state.cache.len() * MAX_ADDRESSES_PER_AUTHORITY
    &&& forall|i: int|
        0 <= i < group.1@.len() ==> terminal_peer_id(#[trigger] group.1@[i]@) != Some(
            state.local_peer_id,
        )
}

/// What the worker asks of the network after an event of the DHT.
#[derive(Debug)]
pub struct EventRequests {
    /// The record keys to ask the DHT for.
    pub lookups: Vec<RecordKey>,
    /// The priority group to set, where the event changed the cache.
    pub priority_group: Option<(String, Vec<MultiAddress>)>,
}

/// The addresses among `list` that are taken into the cache: those that
/// parse as a multiaddress, end in a peer, and whose peer is not `local`.
/// What does not parse is dropped without a word.
pub fn parse_remote_addresses(list: &Vec<Vec<u8>>, local: &PeerId) -> (r: Vec<MultiAddress>)
    ensures
        address_views(r@) == remote_addresses(views(list@), local@),
{
    let ghost all = views(list@);
    let mut r: Vec<MultiAddress> = Vec::new();
    let mut i: usize = 0;
    assert(all.take(0) =~= Seq::empty());
    assert(address_views(r@) =~= Seq::empty());
    while i < list.len()
        invariant
            i <= list.len(),
            all == views(list@),
            address_views(r@) == remote_addresses(all.take(i as int), local@),
        decreases list.len() - i,
    {
        let ghost before = address_views(r@);
        proof {
            assert(all.take(i + 1).drop_last() =~= all.take(i as int));
            assert(all.take(i + 1).last() == list@[i as int]@);
        }
        match MultiAddress::from_bytes(list[i].clone()) {
            None => {},
            Some(address) => {
                if address.has_peer_id() && !address.ends_in(local) {
                    r.push(address);
                    assert(address_views(r@) =~= before.push(list@[i as int]@));
                }
            },
        }
        i += 1;
    }
    assert(all.take(i as int) =~= all);
    r
}

/// Reads the record `value` that the DHT gave for `authority`: the outer
/// record, the addresses inside it, and the signature of `authority` over
/// the bytes of the addresses. Gives the addresses that are taken, or the
/// reason for which the record is discarded.
pub fn verified_addresses(value: &[u8], authority: &AuthorityId, local: &PeerId) -> (r: Result<
    Vec<MultiAddress>,
    Error,
>)
    ensures
        match record_addresses(value@, authority@, local@) {
            Ok(list) => r matches Ok(v) && address_views(v@) == list,
            Err(e) => r matches Err(x) && x == e,
        },
{
    let signed = match SignedAuthorityAddresses::decode(value) {
        Err(e) => { return Err(e); },
        Ok(signed) => signed,
    };
    let inner = match AuthorityAddresses::decode(signed.addresses.as_slice()) {
        Err(e) => { return Err(e); },
        Ok(inner) => inner,
    };
    if !verify_signature(signed.signature.as_slice(), signed.addresses.as_slice(), authority) {
        return Err(Error::SignatureCheck);
    }
    Ok(parse_remote_addresses(&inner.addresses, local))
}

/// The keys of the key store that are in the current set of authorities, in
/// the order of the key store and each once.
pub fn get_own_public_keys_within_authority_set(
    local_keys: &Vec<AuthorityId>,
    authorities: &Vec<AuthorityId>,
) -> (r: Vec<AuthorityId>)
    ensures
        id_views(r@) == own_keys(id_views(local_keys@), id_views(authorities@)),
{
    let ghost all = id_views(local_keys@);
    let mut r: Vec<AuthorityId> = Vec::new();
    let mut i: usize = 0;
    assert(all.take(0) =~= Seq::empty());
    assert(id_views(r@) =~= Seq::empty());
    while i < local_keys.len()
        invariant
            i <= local_keys.len(),
            all == id_views(local_keys@),
            id_views(r@) == own_keys(all.take(i as int), id_views(authorities@)),
        decreases local_keys.len() - i,
    {
        let ghost before = id_views(r@);
        proof {
            assert(all.take(i + 1).drop_last() =~= all.take(i as int));
            assert(all.take(i + 1).last() == local_keys@[i as int]@);
        }
        if contains_id(authorities, &local_keys[i]) && !contains_id(&r, &local_keys[i]) {
            r.push(local_keys[i].clone());
            assert(id_views(r@) =~= before.push(local_keys@[i as int]@));
        }
        i += 1;
    }
    assert(all.take(i as int) =~= all);
    r
}

/// The bytes over which a publication is signed: the record of `addresses`.
pub fn serialize_addresses(addresses: &Vec<MultiAddress>) -> (r: Vec<u8>)
    ensures
        r@ == addresses_encoding(address_views(addresses@)),
{
    let mut raw: Vec<Vec<u8>> = Vec::new();
    let mut i: usize = 0;
    while i < addresses.len()
        invariant
            i <= addresses.len(),
            views(raw@) == address_views(addresses@).take(i as int),
        decreases addresses.len() - i,
    {
        let ghost before = views(raw@);
        raw.push(addresses[i].to_vec());
        assert(views(raw@) =~= before.push(addresses@[i as int]@));
        assert(address_views(addresses@).take(i + 1) =~= before.push(addresses@[i as int]@));
        i += 1;
    }
    assert(address_views(addresses@).take(i as int) =~= address_views(addresses@));
    let record = AuthorityAddresses { addresses: raw };
    let mut r: Vec<u8> = Vec::new();
    record.encode(&mut r);
    assert(r@ =~= addresses_encoding(address_views(addresses@)));
    r
}

/// What goes onto the DHT for the authority `public_key`: the record key of
/// the authority, and the record of the encoded addresses with the
/// signature over them.
pub fn build_dht_event(
    serialized_addresses: &[u8],
    signature: &[u8],
    public_key: &AuthorityId,
) -> (r: (RecordKey, Vec<u8>))
    ensures
        r.0@ == record_key(public_key@),
        r.1@ == signed_record(serialized_addresses@, signature@),
{
    let record = SignedAuthorityAddresses {
        addresses: vstd::slice::slice_to_vec(serialized_addresses),
        signature: vstd::slice::slice_to_vec(signature),
    };
    let mut value: Vec<u8> = Vec::new();
    record.encode(&mut value);
    assert(value@ =~= signed_record(serialized_addresses@, signature@));
    (hash_authority_id(public_key.0.as_slice()), value)
}

/// A copy of a list of addresses.
pub fn clone_addresses(list: &Vec<MultiAddress>) -> (r: Vec<MultiAddress>)
    ensures
        address_views(r@) == address_views(list@),
{
    let mut r: Vec<MultiAddress> = Vec::new();
    let mut i: usize = 0;
    while i < list.len()
        invariant
            i <= list.len(),
            address_views(r@) == address_views(list@).take(i as int),
        decreases list.len() - i,
    {
        let ghost before = address_views(r@);
        r.push(list[i].clone());
        assert(address_views(r@) =~= before.push(list@[i as int]@));
        assert(address_views(list@).take(i + 1) =~= before.push(list@[i as int]@));
        i += 1;
    }
    assert(address_views(list@).take(i as int) =~= address_views(list@));
    r
}

/// The worker.
pub struct Worker {
    role: Role,
    local_peer_id: PeerId,
    lookups: LookupQueue,
    addr_cache: AddrCache,
    metrics: Metrics,
}

impl View for Worker {
    type V = WorkerState;

    closed spec fn view(&self) -> WorkerState {
        WorkerState {
            role: self.role,
            local_peer_id: self.local_peer_id@,
            lookups: self.lookups@,
            cache: self.addr_cache@,
            metrics: self.metrics,
        }
    }
}

impl Worker {
    /// In neither table of the worker does a key stand twice.
    pub closed spec fn distinct(&self) -> bool {
        self.lookups.distinct() && self.addr_cache.distinct()
    }

    /// The invariant of the type.
    pub open spec fn wf(&self) -> bool {
        self.distinct() && self@.wf()
    }

    /// A worker of the given role on the node with the peer identity
    /// `local_peer_id`. Nothing waits, nothing is out, nothing is cached.
    pub fn new(role: Role, local_peer_id: PeerId) -> (r: Worker)
        ensures
            r.wf(),
            r@ == WorkerState::new(role, local_peer_id@),
    {
        Worker {
            role,
            local_peer_id,
            lookups: LookupQueue::new(),
            addr_cache: AddrCache::new(),
            metrics: Metrics::new(),
        }
    }

    /// The role of the node.
    pub fn role(&self) -> (r: Role)
        ensures
            r == self@.role,
    {
        self.role
    }

    /// The identity of the local peer.
    pub fn local_peer_id(&self) -> (r: &PeerId)
        ensures
            r@ == self@.local_peer_id,
    {
        &self.local_peer_id
    }

    /// The counters as they stand.
    pub fn metrics(&self) -> (r: Metrics)
        ensures
            r == self@.metrics,
    {
        self.metrics
    }

    /// The cache of addresses.
    pub fn addr_cache(&self) -> (r: &AddrCache)
        requires
            self.wf(),
        ensures
            r.wf(),
            r@ == self@.cache,
    {
        &self.addr_cache
    }

    /// The number of lookups that are out: never more than
    /// `MAX_IN_FLIGHT_LOOKUPS`.
    pub fn in_flight_lookups(&self) -> (n: usize)
        requires
            self.wf(),
        ensures
            n == self@.lookups.in_flight.len(),
            n <= MAX_IN_FLIGHT_LOOKUPS,
    {
        self.lookups.in_flight_len()
    }

    /// The number of authorities that wait for a lookup.
    pub fn pending_lookups(&self) -> (n: usize)
        ensures
            n == self@.lookups.pending.len(),
    {
        self.lookups.pending_len()
    }

    /// Answers the request of a consumer for the addresses of `id`: the
    /// addresses in the cache, or `None` where the cache has no entry. There
    /// are `MAX_ADDRESSES_PER_AUTHORITY` of them at most, and each ends in a peer.
    pub fn get_addresses_by_authority_id(&self, id: &AuthorityId) -> (r: Option<Vec<MultiAddress>>)
        requires
            self.wf(),
        ensures
            r is Some <==> self@.cache.dom().contains(id@),
            r matches Some(list) ==> address_views(list@) == self@.cache[id@] && list.len()
                <= MAX_ADDRESSES_PER_AUTHORITY && (forall|i: int|
                0 <= i < list.len() ==> terminal_peer_id(#[trigger] list[i]@) is Some),
    {
        match self.addr_cache.get_addresses_by_authority_id(id) {
            None => None,
            Some(list) => {
                let copy = clone_addresses(list);
                assert forall|i: int| 0 <= i < copy.len() implies terminal_peer_id(
                    #[trigger] copy[i]@,
                ) is Some by {
                    assert(address_views(copy@)[i] == copy[i]@);
                }
                Some(copy)
            },
        }
    }

    /// The tick that refills the queue. `authorities` is the current set of
    /// authorities, as the runtime gave it. The entries of other authorities
    /// leave the cache. What waited is replaced by the current authorities,
    /// in their order and each once, but for those whose lookup is out.
    pub fn refill_pending_lookups_queue(&mut self, authorities: &Vec<AuthorityId>)
        requires
            old(self).wf(),
        ensures
            final(self).wf(),
            final(self)@ == old(self)@.refill(id_views(authorities@)),
    {
        proof {
            lemma_refill_wf(self@, id_views(authorities@));
        }
        self.addr_cache.retain_ids(authorities);
        self.lookups.refill(authorities);
        self.metrics.requests_pending = self.lookups.pending_len() as u64;
    }

    /// Sends lookups out while an authority waits and fewer than
    /// `MAX_IN_FLIGHT_LOOKUPS` lookups are out. Gives the record keys to ask
    /// the DHT for.
    pub fn start_new_lookups(&mut self) -> (issued: Vec<RecordKey>)
        requires
            old(self).wf(),
        ensures
            final(self).wf(),
            final(self)@ == old(self)@.start(),
            key_views(issued@) == old(self)@.issued(),
    {
        proof {
            lemma_start_wf(self@);
        }
        let issued = self.lookups.start_new_lookups();
        self.metrics.dht_gets_issued = count(self.metrics.dht_gets_issued, issued.len());
        self.metrics.requests_pending = self.lookups.pending_len() as u64;
        issued
    }

    /// Takes in one value that the DHT found under `key`. A value that no
    /// lookup asked for is bogus. Else the lookup is over, whatever the
    /// value holds; the record is read and checked, and the addresses that
    /// it gives replace those of the authority in the cache. Says for which
    /// reason the value was discarded, if it was.
    pub fn ingest(&mut self, key: &RecordKey, value: &[u8]) -> (r: Result<(), Error>)
        requires
            old(self).wf(),
        ensures
            final(self).wf(),
            final(self)@ == old(self)@.ingest(key@, value@),
            r == old(self)@.ingest_result(key@, value@),
    {
        proof {
            lemma_ingest_wf(self@, key@, value@);
        }
        let authority = match self.lookups.remove(key) {
            None => {
                self.metrics.discard(Error::BogusEvent);
                return Err(Error::BogusEvent);
            },
            Some(authority) => authority,
        };
        self.metrics.requests_pending = self.lookups.pending_len() as u64;
        match verified_addresses(value, &authority, &self.local_peer_id) {
            Err(e) => {
                self.metrics.discard(e);
                Err(e)
            },
            Ok(addresses) => {
                self.addr_cache.insert(authority, addresses);
                self.metrics.dht_gets_succeeded = count(self.metrics.dht_gets_succeeded, 1);
                Ok(())
            },
        }
    }

    /// Handles the values of one notification of the DHT, one after the
    /// other: each is taken in, and where a lookup had asked for it, new
    /// lookups are sent out. Gives the record keys to ask the DHT for.
    pub fn handle_dht_value_found_event(&mut self, values: Vec<(RecordKey, Vec<u8>)>) -> (issued:
        Vec<RecordKey>)
        requires
            old(self).wf(),
        ensures
            final(self).wf(),
            final(self)@ == old(self)@.handle_records(record_views(values@)),
            key_views(issued@) == old(self)@.records_issued(record_views(values@)),
    {
        let (issued, _) = self.take_records(values);
        issued
    }

    /// Handles the values of one notification of the DHT as
    /// `handle_dht_value_found_event` does, and says with the record keys
    /// whether a record was taken into the cache.
    fn take_records(&mut self, values: Vec<(RecordKey, Vec<u8>)>) -> (r: (Vec<RecordKey>, bool))
        requires
            old(self).wf(),
        ensures
            final(self).wf(),
            final(self)@ == old(self)@.handle_records(record_views(values@)),
            key_views(r.0@) == old(self)@.records_issued(record_views(values@)),
            r.1 == old(self)@.records_taken(record_views(values@)),
    {
        let ghost all = record_views(values@);
        let mut issued: Vec<RecordKey> = Vec::new();
        let mut taken = false;
        let mut i: usize = 0;
        proof {
            assert(all.skip(0) =~= all);
            assert(key_views(issued@) + self@.records_issued(all) =~= self@.records_issued(all));
        }
        while i < values.len()
            invariant
                i <= values.len(),
                all == record_views(values@),
                self.wf(),
                self@.handle_records(all.skip(i as int)) == old(self)@.handle_records(all),
                key_views(issued@) + self@.records_issued(all.skip(i as int)) == old(
                    self,
                )@.records_issued(all),
                (taken || self@.records_taken(all.skip(i as int))) == old(self)@.records_taken(
                    all,
                ),
            decreases values.len() - i,
        {
            let ghost before = self@;
            let ghost sent = key_views(issued@);
            let ghost rest = all.skip(i as int);
            let key = &values[i].0;
            let value = &values[i].1;
            proof {
                assert(rest[0] == (key@, value@));
                assert(rest.skip(1) =~= all.skip(i + 1));
            }
            let asked = self.lookups.authority_of(key).is_some();
            match self.ingest(key, value.as_slice()) {
                Ok(_) => {
                    taken = true;
                },
                Err(_) => {},
            }
            if asked {
                let mut more = self.start_new_lookups();
                let ghost added = key_views(more@);
                issued.append(&mut more);
                assert(key_views(issued@) =~= sent + added);
            }
            proof {
                assert(self@ == before.handle_record(key@, value@));
                assert(key_views(issued@) =~= sent + before.record_issued(key@, value@));
                assert(key_views(issued@) + self@.records_issued(all.skip(i + 1)) =~= sent
                    + before.records_issued(rest));
            }
            i += 1;
        }
        proof {
            assert(key_views(issued@) + self@.records_issued(all.skip(i as int)) =~= key_views(
                issued@,
            ));
        }
        (issued, taken)
    }

    /// Handles an event of the DHT. Found values are counted and taken in; a
    /// value that was not found ends its lookup as failed, if there was one.
    /// Other events change nothing. Gives the record keys to ask the DHT for.
    pub fn handle_dht_event(&mut self, event: DhtEvent) -> (issued: Vec<RecordKey>)
        requires
            old(self).wf(),
        ensures
            final(self).wf(),
            final(self)@ == event_state(old(self)@, event),
            key_views(issued@) == event_issued(old(self)@, event),
    {
        let (issued, _) = self.take_event(event);
        issued
    }

    /// Handles an event of the DHT as `handle_dht_event` does, and says with
    /// the record keys whether a record was taken into the cache.
    fn take_event(&mut self, event: DhtEvent) -> (r: (Vec<RecordKey>, bool))
        requires
            old(self).wf(),
        ensures
            final(self).wf(),
            final(self)@ == event_state(old(self)@, event),
            key_views(r.0@) == event_issued(old(self)@, event),
            r.1 == event_taken(old(self)@, event),
    {
        match event {
            DhtEvent::ValueFound(values) => {
                self.metrics.handled_value_found_events = count(
                    self.metrics.handled_value_found_events,
                    1,
                );
                assert(self@ == old(self)@.notified());
                self.take_records(values)
            },
            DhtEvent::ValueNotFound(key) => {
                match self.lookups.remove(&key) {
                    None => {
                        assert(self@ == old(self)@);
                        let issued: Vec<RecordKey> = Vec::new();
                        assert(key_views(issued@) =~= Seq::empty());
                        (issued, false)
                    },
                    Some(_) => {
                        self.metrics.dht_gets_failed = count(self.metrics.dht_gets_failed, 1);
                        self.metrics.requests_pending = self.lookups.pending_len() as u64;
                        assert(self@ == old(self)@.failed(key@));
                        (self.start_new_lookups(), false)
                    },
                }
            },
            DhtEvent::ValuePut(_) => {
                let issued: Vec<RecordKey> = Vec::new();
                assert(key_views(issued@) =~= Seq::empty());
                (issued, false)
            },
            DhtEvent::ValuePutFailed(_) => {
                let issued: Vec<RecordKey> = Vec::new();
                assert(key_views(issued@) =~= Seq::empty());
                (issued, false)
            },
        }
    }

    /// What the loop of the worker does with an event of the DHT: the event
    /// is handled as `handle_dht_event` handles it, and where it took a
    /// record into the cache, the priority group is to be set anew.
    pub fn process_dht_event(&mut self, event: DhtEvent) -> (r: EventRequests)
        requires
            old(self).wf(),
        ensures
            final(self).wf(),
            final(self)@ == event_state(old(self)@, event),
            key_views(r.lookups@) == event_issued(old(self)@, event),
            r.priority_group is Some <==> event_taken(old(self)@, event),
            r.priority_group matches Some(group) ==> is_priority_group(final(self)@, group),
    {
        let (lookups, taken) = self.take_event(event);
        let priority_group = if taken {
            Some(self.set_priority_group())
        } else {
            None
        };
        EventRequests { lookups, priority_group }
    }

    /// The addresses to publish for the external addresses `external` of the
    /// network: an address that ends in a peer goes out as it is; one that
    /// does not gets the local peer as its last component.
    pub fn addresses_to_publish(&self, external: &Vec<MultiAddress>) -> (r: Vec<MultiAddress>)
        ensures
            address_views(r@) == addresses_to_publish(
                address_views(external@),
                self@.local_peer_id,
            ),
            forall|i: int| 0 <= i < r@.len() ==> terminal_peer_id(#[trigger] r@[i]@) is Some,
            forall|i: int|
                0 <= i < r@.len() && terminal_peer_id(external@[i]@) is None ==> terminal_peer_id(
                    #[trigger] r@[i]@,
                ) == Some(self@.local_peer_id),
    {
        let mut r: Vec<MultiAddress> = Vec::new();
        let mut i: usize = 0;
        while i < external.len()
            invariant
                i <= external.len(),
                r@.len() == i,
                address_views(r@) == addresses_to_publish(
                    address_views(external@),
                    self@.local_peer_id,
                ).take(i as int),
                forall|j: int| 0 <= j < i ==> terminal_peer_id(#[trigger] r@[j]@) is Some,
                forall|j: int|
                    0 <= j < i && terminal_peer_id(external@[j]@) is None ==> terminal_peer_id(
                        #[trigger] r@[j]@,
                    ) == Some(self@.local_peer_id),
            decreases external.len() - i,
        {
            let ghost before = address_views(r@);
            let address = if external[i].has_peer_id() {
                external[i].clone()
            } else {
                external[i].with_p2p(&self.local_peer_id)
            };
            r.push(address);
            proof {
                let goal = addresses_to_publish(address_views(external@), self@.local_peer_id);
                assert(address_views(r@) =~= before.push(goal[i as int]));
                assert(goal.take(i + 1) =~= before.push(goal[i as int]));
            }
            i += 1;
        }
        proof {
            let goal = addresses_to_publish(address_views(external@), self@.local_peer_id);
            assert(goal.take(i as int) =~= goal);
        }
        r
    }

    /// The tick that publishes. `external` are the external addresses of the
    /// network, `local_keys` the public keys of the key store, `authorities`
    /// the current set of authorities. A sentry publishes nothing. An
    /// authority gets the bytes to sign, and the keys to sign them with: the
    /// keys of the key store that are in the current set.
    pub fn publish_ext_addresses(
        &self,
        external: &Vec<MultiAddress>,
        local_keys: &Vec<AuthorityId>,
        authorities: &Vec<AuthorityId>,
    ) -> (r: Option<Publication>)
        ensures
            self@.role == Role::Sentry ==> r is None,
            self@.role == Role::Authority ==> (r matches Some(p) && p.serialized_addresses@
                == addresses_encoding(
                addresses_to_publish(address_views(external@), self@.local_peer_id),
            ) && id_views(p.keys@) == own_keys(id_views(local_keys@), id_views(authorities@))),
    {
        match self.role {
            Role::Sentry => None,
            Role::Authority => {
                let addresses = self.addresses_to_publish(external);
                let serialized_addresses = serialize_addresses(&addresses);
                let keys = get_own_public_keys_within_authority_set(local_keys, authorities);
                Some(Publication { serialized_addresses, keys })
            },
        }
    }

    /// Takes the answer of the key store to the request to sign
    /// `serialized_addresses` with the key `key`. Without a signature the
    /// publication for this key is skipped, and counted. With one, the
    /// record and its record key are given, to be put on the DHT.
    pub fn handle_signature(
        &mut self,
        serialized_addresses: &[u8],
        key: &AuthorityId,
        signature: Option<Vec<u8>>,
    ) -> (r: Result<(RecordKey, Vec<u8>), Error>)
        requires
            old(self).wf(),
        ensures
            final(self).wf(),
            final(self)@ == old(self)@.signature_handled(signature is Some),
            match signature {
                None => r matches Err(e) && e == Error::KeystoreSigning,
                Some(s) => r matches Ok(put) && put.0@ == record_key(key@) && put.1@
                    == signed_record(serialized_addresses@, s@),
            },
    {
        match signature {
            None => {
                self.metrics.discard(Error::KeystoreSigning);
                Err(Error::KeystoreSigning)
            },
            Some(signature) => {
                self.metrics.dht_puts = count(self.metrics.dht_puts, 1);
                Ok(build_dht_event(serialized_addresses, signature.as_slice(), key))
            },
        }
    }

    /// Takes the answer of the network to a priority group. A refusal is an
    /// error to report, and changes nothing in the worker.
    pub fn handle_priority_group_answer(&self, answer: &Result<(), String>) -> (r: Result<
        (),
        Error,
    >)
        ensures
            answer is Ok ==> r is Ok,
            answer is Err ==> r == Err::<(), Error>(Error::NetworkAcceptRefusal),
    {
        match answer {
            Ok(_) => Ok(()),
            Err(_) => Err(Error::NetworkAcceptRefusal),
        }
    }

    /// The priority group to hand to the network: its name, and all cached
    /// addresses, each once. No address of the group ends in the local peer.
    /// See `is_priority_group`.
    pub fn set_priority_group(&self) -> (r: (String, Vec<MultiAddress>))
        requires
            self.wf(),
        ensures
            is_priority_group(self@, r),
    {
        let all = self.addr_cache.addresses();
        let ghost views = address_views(all@);
        let mut peers: Vec<MultiAddress> = Vec::new();
        let mut i: usize = 0;
        assert(views.take(0) =~= Seq::empty());
        while i < all.len()
            invariant
                i <= all.len(),
                peers@.len() <= i,
                views == address_views(all@),
                views.no_duplicates(),
                address_views(peers@).no_duplicates(),
                forall|a: Seq<u8>|
                    address_views(peers@).contains(a) <==> views.take(i as int).contains(a)
                        && terminal_peer_id(a) != Some(self@.local_peer_id),
            decreases all.len() - i,
        {
            let ghost before = address_views(peers@);
            let ghost x = all@[i as int]@;
            proof {
                assert(views.take(i + 1) =~= views.take(i as int).push(x));
                assert(views[i as int] == x);
                if views.take(i as int).contains(x) {
                    let j = choose|j: int|
                        0 <= j < views.take(i as int).len() && views.take(i as int)[j] == x;
                    assert(views[j] == views[i as int]);
                }
            }
            if !all[i].ends_in(&self.local_peer_id) {
                proof {
                    lemma_push_no_duplicates(before, x);
                }
                peers.push(all[i].clone());
                assert(address_views(peers@) =~= before.push(x));
            }
            proof {
                assert forall|a: Seq<u8>|
                    address_views(peers@).contains(a) <==> views.take(i + 1).contains(a)
                        && terminal_peer_id(a) != Some(self@.local_peer_id) by {
                    lemma_seq_contains_after_push(views.take(i as int), x, a);
                    lemma_seq_contains_after_push(before, x, a);
                }
            }
            i += 1;
        }
        proof {
            assert(views.take(i as int) =~= views);
            assert(address_views(peers@).to_set() =~= self@.priority_group());
            assert forall|i: int| 0 <= i < peers.len() implies terminal_peer_id(
                #[trigger] peers[i]@,
            ) != Some(self@.local_peer_id) by {
                assert(address_views(peers@)[i] == peers[i]@);
                assert(address_views(peers@).contains(peers[i]@));
            }
        }
        (AUTHORITIES_PRIORITY_GROUP_NAME.to_owned(), peers)
    }
}

} // verus!
