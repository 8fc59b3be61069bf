//! The worker as a state machine over plain values: what it holds, and what
//! each event makes of it.
//!
//! The executable worker of `crate::worker` is specified by the functions of
//! this module; the laws that hold of every run are proved here.

use crate::addr_cache::{
    cache_addresses, cache_wf, cached, lemma_cached, lemma_cached_keeps,
    MAX_ADDRESSES_PER_AUTHORITY,
};
use crate::address::{multiaddr_valid, p2p_component, terminal_peer_id};
use crate::codec::{
    addresses_decoding, addresses_encoding, lemma_addresses_roundtrip, lemma_signed_roundtrip,
    signed_decoding, signed_encoding,
};
use crate::error::Error;
use crate::keys::{record_key, sr25519_verifies};
use crate::lookup::{lemma_refill_remove, lemma_start, LookupState, MAX_IN_FLIGHT_LOOKUPS};
use crate::metrics::{counted, gauge, Metrics};
use vstd::prelude::*;

verus! {

/// The role a node runs the worker in.
#[derive(Clone, Copy, Debug, PartialEq, Eq, Structural)]
pub enum Role {
    /// An authority: publishes its own addresses and resolves those of others.
    /// The key store that signs for it stays with the caller.
    Authority,
    /// A sentry node that fronts an authority: resolves only.
    Sentry,
}

/// Whether an address of a record is taken: it is a multiaddress that ends in
/// a peer, and that peer is not the local one.
pub open spec fn accepted(address: Seq<u8>, local: Seq<u8>) -> bool {
    &&& multiaddr_valid(address)
    &&& terminal_peer_id(address) is Some
    &&& terminal_peer_id(address) != Some(local)
}

/// The addresses of `list` that are taken, in their order.
pub open spec fn remote_addresses(list: Seq<Seq<u8>>, local: Seq<u8>) -> Seq<Seq<u8>>
    decreases list.len(),
{
    if list.len() == 0 {
        Seq::empty()
    } else {
        let before = remote_addresses(list.drop_last(), local);
        if accepted(list.last(), local) {
            before.push(list.last())
        } else {
            before
        }
    }
}

/// What a value of the DHT gives for the authority `authority`: the addresses
/// that are taken from it, or the reason for which it is discarded. The outer
/// record is read first, then the addresses inside it, then the signature is
/// checked over the bytes of the addresses as they came.
pub open spec fn record_addresses(value: Seq<u8>, authority: Seq<u8>, local: Seq<u8>) -> Result<
    Seq<Seq<u8>>,
    Error,
> {
    match signed_decoding(value) {
        Err(e) => Err(e),
        Ok((addresses, signature)) => match addresses_decoding(addresses) {
            Err(e) => Err(e),
            Ok(list) => if sr25519_verifies(signature, addresses, authority) {
                Ok(remote_addresses(list, local))
            } else {
                Err(Error::SignatureCheck)
            },
        },
    }
}

/// The address that is published for the external address `address`: the
/// address itself where it ends in a peer, else the address with the local
/// peer behind it.
pub open spec fn published(address: Seq<u8>, local: Seq<u8>) -> Seq<u8> {
    if terminal_peer_id(address) is Some {
        address
    } else {
        address + p2p_component(local)
    }
}

/// The addresses that are published for the external addresses `external`.
pub open spec fn addresses_to_publish(external: Seq<Seq<u8>>, local: Seq<u8>) -> Seq<Seq<u8>> {
    Seq::new(external.len(), |i: int| published(external[i], local))
}

/// The keys of the key store that are in the current set of authorities, in
/// the order of the key store and each once.
pub open spec fn own_keys(local_keys: Seq<Seq<u8>>, authorities: Seq<Seq<u8>>) -> Seq<Seq<u8>>
    decreases local_keys.len(),
{
    if local_keys.len() == 0 {
        Seq::empty()
    } else {
        let before = own_keys(local_keys.drop_last(), authorities);
        let key = local_keys.last();
        if authorities.contains(key) && !before.contains(key) {
            before.push(key)
        } else {
            before
        }
    }
}

/// The record that is put on the DHT for the encoded addresses `addresses`
/// signed with `signature`.
pub open spec fn signed_record(addresses: Seq<u8>, signature: Seq<u8>) -> Seq<u8> {
    signed_encoding(addresses, signature)
}

/// What the worker holds.
pub struct WorkerState {
    /// The role of the node.
    pub role: Role,
    /// The identity of the local peer.
    pub local_peer_id: Seq<u8>,
    /// The queue of lookups.
    pub lookups: LookupState,
    /// The cache: from the authority to its addresses.
    pub cache: Map<Seq<u8>, Seq<Seq<u8>>>,
    /// The counters.
    pub metrics: Metrics,
}

impl WorkerState {
    /// No cached address ends in the local peer.
    pub open spec fn no_local(self) -> bool {
        forall|k: Seq<u8>, i: int|
            self.cache.dom().contains(k) && 0 <= i < self.cache[k].len() ==> terminal_peer_id(
                #[trigger] self.cache[k][i],
            ) != Some(self.local_peer_id)
    }

    /// The invariant of the worker: that of the queue and that of the cache,
    /// no address of the local peer in the cache, and the gauge at the
    /// number of authorities that wait.
    pub open spec fn wf(self) -> bool {
        &&& self.lookups.wf()
        &&& cache_wf(self.cache)
        &&& self.no_local()
        &&& self.metrics.requests_pending == gauge(self.lookups.pending.len())
    }

    /// The worker at its start.
    pub open spec fn new(role: Role, local_peer_id: Seq<u8>) -> WorkerState {
        WorkerState {
            role,
            local_peer_id,
            lookups: LookupState::empty(),
            cache: Map::empty(),
            metrics: Metrics::zero(),
        }
    }

    /// This state with another queue, and the gauge set by it.
    pub open spec fn with_lookups(self, lookups: LookupState) -> WorkerState {
        WorkerState {
            lookups,
            metrics: Metrics { requests_pending: gauge(lookups.pending.len()), ..self.metrics },
            ..self
        }
    }

    /// This state with other counters, the gauge left as it is.
    pub open spec fn with_metrics(self, metrics: Metrics) -> WorkerState {
        WorkerState {
            metrics: Metrics { requests_pending: self.metrics.requests_pending, ..metrics },
            ..self
        }
    }

    /// After `authorities` became the current set: the entries of other
    /// authorities leave the cache, and the queue is refilled.
    pub open spec fn refill(self, authorities: Seq<Seq<u8>>) -> WorkerState {
        WorkerState {
            cache: self.cache.restrict(authorities.to_set()),
            ..self.with_lookups(self.lookups.refill(authorities))
        }
    }

    /// The record keys of the lookups that `start` sends out.
    pub open spec fn issued(self) -> Seq<Seq<u8>> {
        self.lookups.issued()
    }

    /// After lookups were sent out for as long as one could be.
    pub open spec fn start(self) -> WorkerState {
        self.with_metrics(
            Metrics {
                dht_gets_issued: counted(self.metrics.dht_gets_issued, self.issued().len()),
                ..self.metrics
            },
        ).with_lookups(self.lookups.start())
    }

    /// Whether a lookup under `key` is out.
    pub open spec fn in_flight(self, key: Seq<u8>) -> bool {
        self.lookups.in_flight.dom().contains(key)
    }

    /// How the ingest of `value` under `key` ends: a value under a key that
    /// no lookup asked for is bogus; else see `record_addresses`.
    pub open spec fn ingest_result(self, key: Seq<u8>, value: Seq<u8>) -> Result<(), Error> {
        if !self.in_flight(key) {
            Err(Error::BogusEvent)
        } else {
            match record_addresses(value, self.lookups.in_flight[key], self.local_peer_id) {
                Err(e) => Err(e),
                Ok(_) => Ok(()),
            }
        }
    }

    /// After the ingest of `value` under `key`. A bogus value is counted and
    /// nothing else changes. Else the lookup leaves the set of those in
    /// flight; a record that is discarded is counted by its reason; a record
    /// that is taken is counted as a success, and what the cache keeps of its
    /// addresses replaces the entry of the authority.
    pub open spec fn ingest(self, key: Seq<u8>, value: Seq<u8>) -> WorkerState {
        if !self.in_flight(key) {
            self.with_metrics(self.metrics.discarded(Error::BogusEvent))
        } else {
            let authority = self.lookups.in_flight[key];
            let removed = self.with_lookups(self.lookups.remove(key));
            match record_addresses(value, authority, self.local_peer_id) {
                Err(e) => removed.with_metrics(self.metrics.discarded(e)),
                Ok(list) => WorkerState {
                    cache: self.cache.insert(authority, cached(list)),
                    ..removed.with_metrics(
                        Metrics {
                            dht_gets_succeeded: counted(self.metrics.dht_gets_succeeded, 1),
                            ..self.metrics
                        },
                    )
                },
            }
        }
    }

    /// After one value of a notification was handled: the ingest, and, where
    /// a lookup had asked for the value, new lookups in the slot that it left.
    pub open spec fn handle_record(self, key: Seq<u8>, value: Seq<u8>) -> WorkerState {
        if self.in_flight(key) {
            self.ingest(key, value).start()
        } else {
            self.ingest(key, value)
        }
    }

    /// The record keys of the lookups that `handle_record` sends out.
    pub open spec fn record_issued(self, key: Seq<u8>, value: Seq<u8>) -> Seq<Seq<u8>> {
        if self.in_flight(key) {
            self.ingest(key, value).issued()
        } else {
            Seq::empty()
        }
    }

    /// After the values of a notification were handled, one after the other.
    pub open spec fn handle_records(self, values: Seq<(Seq<u8>, Seq<u8>)>) -> WorkerState
        decreases values.len(),
    {
        if values.len() == 0 {
            self
        } else {
            self.handle_record(values[0].0, values[0].1).handle_records(values.skip(1))
        }
    }

    /// The record keys of the lookups that `handle_records` sends out, in order.
    pub open spec fn records_issued(self, values: Seq<(Seq<u8>, Seq<u8>)>) -> Seq<Seq<u8>>
        decreases values.len(),
    {
        if values.len() == 0 {
            Seq::empty()
        } else {
            self.record_issued(values[0].0, values[0].1) + self.handle_record(
                values[0].0,
                values[0].1,
            ).records_issued(values.skip(1))
        }
    }

    /// Whether handling the values of a notification takes a record into
    /// the cache: the ingest of one of them succeeds.
    pub open spec fn records_taken(self, values: Seq<(Seq<u8>, Seq<u8>)>) -> bool
        decreases values.len(),
    {
        if values.len() == 0 {
            false
        } else {
            self.ingest_result(values[0].0, values[0].1) is Ok || self.handle_record(
                values[0].0,
                values[0].1,
            ).records_taken(values.skip(1))
        }
    }

    /// After a notification of found values was counted.
    pub open spec fn notified(self) -> WorkerState {
        self.with_metrics(
            Metrics {
                handled_value_found_events: counted(self.metrics.handled_value_found_events, 1),
                ..self.metrics
            },
        )
    }

    /// After a notification of found values: it is counted, and its values
    /// are handled.
    pub open spec fn value_found(self, values: Seq<(Seq<u8>, Seq<u8>)>) -> WorkerState {
        self.notified().handle_records(values)
    }

    /// The record keys of the lookups that `value_found` sends out, in order.
    pub open spec fn value_found_issued(self, values: Seq<(Seq<u8>, Seq<u8>)>) -> Seq<Seq<u8>> {
        self.notified().records_issued(values)
    }

    /// Whether `value_found` takes a record into the cache.
    pub open spec fn value_found_taken(self, values: Seq<(Seq<u8>, Seq<u8>)>) -> bool {
        self.notified().records_taken(values)
    }

    /// The state between the return of a lookup without a value and the new
    /// lookups: the lookup has left, and the failure is counted.
    pub open spec fn failed(self, key: Seq<u8>) -> WorkerState {
        self.with_metrics(
            Metrics {
                dht_gets_failed: counted(self.metrics.dht_gets_failed, 1),
                ..self.metrics
            },
        ).with_lookups(self.lookups.remove(key))
    }

    /// After a notification that no value was found under `key`: where a
    /// lookup had asked for it, the lookup has failed and new ones are sent
    /// out; else nothing changes.
    pub open spec fn value_not_found(self, key: Seq<u8>) -> WorkerState {
        if self.in_flight(key) {
            self.failed(key).start()
        } else {
            self
        }
    }

    /// The record keys of the lookups that `value_not_found` sends out.
    pub open spec fn value_not_found_issued(self, key: Seq<u8>) -> Seq<Seq<u8>> {
        if self.in_flight(key) {
            self.failed(key).issued()
        } else {
            Seq::empty()
        }
    }

    /// After the key store answered a request for a signature: a signature
    /// leads to a put, which is counted; a failure to sign is counted too.
    pub open spec fn signature_handled(self, signed: bool) -> WorkerState {
        if signed {
            self.with_metrics(
                Metrics { dht_puts: counted(self.metrics.dht_puts, 1), ..self.metrics },
            )
        } else {
            self.with_metrics(self.metrics.discarded(Error::KeystoreSigning))
        }
    }

    /// The addresses of the priority group: all addresses of the cache but
    /// those that end in the local peer.
    pub open spec fn priority_group(self) -> Set<Seq<u8>> {
        Set::new(
            |a: Seq<u8>|
                cache_addresses(self.cache).contains(a) && terminal_peer_id(a) != Some(
                    self.local_peer_id,
                ),
        )
    }
}

/// The addresses that are taken from a list are addresses of the list, and
/// each of them is a multiaddress that ends in a peer other than the local one.
pub proof fn lemma_remote_addresses(list: Seq<Seq<u8>>, local: Seq<u8>)
    ensures
        forall|i: int|
            0 <= i < remote_addresses(list, local).len() ==> accepted(
                #[trigger] remote_addresses(list, local)[i],
                local,
            ) && list.contains(remote_addresses(list, local)[i]),
    decreases list.len(),
{
    if list.len() > 0 {
        let before = remote_addresses(list.drop_last(), local);
        lemma_remote_addresses(list.drop_last(), local);
        assert forall|i: int| 0 <= i < remote_addresses(list, local).len() implies accepted(
            #[trigger] remote_addresses(list, local)[i],
            local,
        ) && list.contains(remote_addresses(list, local)[i]) by {
            if i < before.len() {
                assert(list.drop_last().contains(before[i]));
                let j = choose|j: int|
                    0 <= j < list.drop_last().len() && list.drop_last()[j] == before[i];
                assert(list[j] == before[i]);
            } else {
                assert(list[list.len() - 1] == list.last());
            }
        }
    }
}

/// Where every address of a list is taken, the list is taken whole.
pub proof fn lemma_remote_addresses_keeps(list: Seq<Seq<u8>>, local: Seq<u8>)
    requires
        forall|i: int| 0 <= i < list.len() ==> accepted(#[trigger] list[i], local),
    ensures
        remote_addresses(list, local) == list,
    decreases list.len(),
{
    if list.len() > 0 {
        lemma_remote_addresses_keeps(list.drop_last(), local);
        assert(list.drop_last().push(list.last()) =~= list);
    }
}

/// Sending lookups out keeps the invariant of the worker.
pub proof fn lemma_start_wf(state: WorkerState)
    requires
        state.wf(),
    ensures
        state.start().wf(),
{
    lemma_start(state.lookups);
}

/// A refill keeps the invariant of the worker.
pub proof fn lemma_refill_wf(state: WorkerState, authorities: Seq<Seq<u8>>)
    requires
        state.wf(),
    ensures
        state.refill(authorities).wf(),
{
    lemma_refill_remove(state.lookups, authorities, Seq::empty());
    assert(state.refill(authorities).cache.dom() =~= state.cache.dom().intersect(
        authorities.to_set(),
    ));
}

/// The ingest of a value keeps the invariant of the worker.
pub proof fn lemma_ingest_wf(state: WorkerState, key: Seq<u8>, value: Seq<u8>)
    requires
        state.wf(),
    ensures
        state.ingest(key, value).wf(),
{
    if state.in_flight(key) {
        let authority = state.lookups.in_flight[key];
        lemma_refill_remove(state.lookups, Seq::empty(), key);
        match record_addresses(value, authority, state.local_peer_id) {
            Err(e) => {},
            Ok(list) => {
                let next = state.ingest(key, value);
                lemma_cached(list);
                assert forall|k: Seq<u8>, i: int|
                    next.cache.dom().contains(k) && 0 <= i < next.cache[k].len()
                    implies terminal_peer_id(#[trigger] next.cache[k][i]) != Some(
                    next.local_peer_id,
                ) by {
                    if k == authority {
                        let a = cached(list)[i];
                        assert(cached(list).contains(a));
                        assert(list.contains(a));
                        let j = choose|j: int| 0 <= j < list.len() && list[j] == a;
                        let (addresses, signature) = signed_decoding(value)->Ok_0;
                        lemma_remote_addresses(
                            addresses_decoding(addresses)->Ok_0,
                            state.local_peer_id,
                        );
                        assert(accepted(list[j], state.local_peer_id));
                    } else {
                        assert(state.cache.dom().contains(k));
                        assert(next.cache[k][i] == state.cache[k][i]);
                    }
                }
            },
        }
    }
}

/// Handling the values of a notification keeps the invariant of the worker.
pub proof fn lemma_handle_records_wf(state: WorkerState, values: Seq<(Seq<u8>, Seq<u8>)>)
    requires
        state.wf(),
    ensures
        state.handle_records(values).wf(),
    decreases values.len(),
{
    if values.len() > 0 {
        lemma_ingest_wf(state, values[0].0, values[0].1);
        lemma_start_wf(state.ingest(values[0].0, values[0].1));
        lemma_handle_records_wf(state.handle_record(values[0].0, values[0].1), values.skip(1));
    }
}

/// A notification that no value was found keeps the invariant of the worker.
pub proof fn lemma_value_not_found_wf(state: WorkerState, key: Seq<u8>)
    requires
        state.wf(),
    ensures
        state.value_not_found(key).wf(),
{
    if state.in_flight(key) {
        lemma_refill_remove(state.lookups, Seq::empty(), key);
        lemma_start_wf(state.failed(key));
    }
}

/// What can happen to a worker: one variant for each function of the worker
/// that changes it.
pub enum Input {
    /// The tick that refills the queue, with the current set of authorities.
    Refill(Seq<Seq<u8>>),
    /// Lookups are sent out.
    StartLookups,
    /// The DHT found values: pairs of record key and value.
    ValueFound(Seq<(Seq<u8>, Seq<u8>)>),
    /// The values of a notification are handled, without the notification
    /// being counted.
    Records(Seq<(Seq<u8>, Seq<u8>)>),
    /// One value is taken in under its record key, and no lookup is sent out.
    Value(Seq<u8>, Seq<u8>),
    /// The DHT found no value under the record key.
    ValueNotFound(Seq<u8>),
    /// The key store signed, or failed to sign, a publication.
    Signature(bool),
}

impl WorkerState {
    /// The state after `input`.
    pub open spec fn step(self, input: Input) -> WorkerState {
        match input {
            Input::Refill(authorities) => self.refill(authorities),
            Input::StartLookups => self.start(),
            Input::ValueFound(values) => self.value_found(values),
            Input::Records(values) => self.handle_records(values),
            Input::Value(key, value) => self.ingest(key, value),
            Input::ValueNotFound(key) => self.value_not_found(key),
            Input::Signature(signed) => self.signature_handled(signed),
        }
    }

    /// The state after the inputs of `inputs`, one after the other.
    pub open spec fn run(self, inputs: Seq<Input>) -> WorkerState
        decreases inputs.len(),
    {
        if inputs.len() == 0 {
            self
        } else {
            self.run(inputs.drop_last()).step(inputs.last())
        }
    }
}

/// Every input keeps the invariant of the worker.
pub proof fn lemma_step_wf(state: WorkerState, input: Input)
    requires
        state.wf(),
    ensures
        state.step(input).wf(),
{
    match input {
        Input::Refill(authorities) => lemma_refill_wf(state, authorities),
        Input::StartLookups => lemma_start_wf(state),
        Input::ValueFound(values) => lemma_handle_records_wf(state.notified(), values),
        Input::Records(values) => lemma_handle_records_wf(state, values),
        Input::Value(key, value) => lemma_ingest_wf(state, key, value),
        Input::ValueNotFound(key) => lemma_value_not_found_wf(state, key),
        Input::Signature(signed) => {},
    }
}

/// Every run of a worker from its start leaves it in a state that meets the
/// invariant of the worker.
pub proof fn lemma_run_wf(role: Role, local_peer_id: Seq<u8>, inputs: Seq<Input>)
    ensures
        WorkerState::new(role, local_peer_id).run(inputs).wf(),
        WorkerState::new(role, local_peer_id).run(inputs).local_peer_id == local_peer_id,
    decreases inputs.len(),
{
    let start = WorkerState::new(role, local_peer_id);
    if inputs.len() == 0 {
        assert(start.lookups.in_flight.len() == 0);
    } else {
        lemma_run_wf(role, local_peer_id, inputs.drop_last());
        lemma_step_wf(start.run(inputs.drop_last()), inputs.last());
        lemma_step_keeps_identity(start.run(inputs.drop_last()), inputs.last());
    }
}

/// No input changes the role or the identity of the local peer.
pub proof fn lemma_step_keeps_identity(state: WorkerState, input: Input)
    ensures
        state.step(input).role == state.role,
        state.step(input).local_peer_id == state.local_peer_id,
{
    match input {
        Input::ValueFound(values) => lemma_handle_records_keeps_identity(state.notified(), values),
        Input::Records(values) => lemma_handle_records_keeps_identity(state, values),
        _ => {},
    }
}

/// Handling the values of a notification changes neither the role nor the
/// identity of the local peer.
pub proof fn lemma_handle_records_keeps_identity(
    state: WorkerState,
    values: Seq<(Seq<u8>, Seq<u8>)>,
)
    ensures
        state.handle_records(values).role == state.role,
        state.handle_records(values).local_peer_id == state.local_peer_id,
    decreases values.len(),
{
    if values.len() > 0 {
        lemma_handle_records_keeps_identity(
            state.handle_record(values[0].0, values[0].1),
            values.skip(1),
        );
    }
}

/// The throttle: whatever happens to a worker, in whatever order, at most
/// `MAX_IN_FLIGHT_LOOKUPS` lookups are in flight afterwards.
pub proof fn lemma_in_flight_bounded(role: Role, local_peer_id: Seq<u8>, inputs: Seq<Input>)
    ensures
        WorkerState::new(role, local_peer_id).run(inputs).lookups.in_flight.dom().finite(),
        WorkerState::new(role, local_peer_id).run(inputs).lookups.in_flight.len()
            <= MAX_IN_FLIGHT_LOOKUPS,
{
    lemma_run_wf(role, local_peer_id, inputs);
}

/// The cap: whatever happens to a worker, in whatever order, every entry of
/// the cache holds at most `MAX_ADDRESSES_PER_AUTHORITY` addresses afterwards.
pub proof fn lemma_cache_entries_bounded(
    role: Role,
    local_peer_id: Seq<u8>,
    inputs: Seq<Input>,
    authority: Seq<u8>,
)
    requires
        WorkerState::new(role, local_peer_id).run(inputs).cache.dom().contains(authority),
    ensures
        WorkerState::new(role, local_peer_id).run(inputs).cache[authority].len()
            <= MAX_ADDRESSES_PER_AUTHORITY,
{
    lemma_run_wf(role, local_peer_id, inputs);
}

/// Whatever happens to a worker, in whatever order, every address in the
/// cache ends in a peer afterwards, and that peer is not the local one.
pub proof fn lemma_cached_addresses_end_in_remote_peer(
    role: Role,
    local_peer_id: Seq<u8>,
    inputs: Seq<Input>,
    authority: Seq<u8>,
    i: int,
)
    requires
        WorkerState::new(role, local_peer_id).run(inputs).cache.dom().contains(authority),
        0 <= i < WorkerState::new(role, local_peer_id).run(inputs).cache[authority].len(),
    ensures
        terminal_peer_id(WorkerState::new(role, local_peer_id).run(inputs).cache[authority][i])
            is Some,
        terminal_peer_id(WorkerState::new(role, local_peer_id).run(inputs).cache[authority][i])
            != Some(local_peer_id),
{
    lemma_run_wf(role, local_peer_id, inputs);
}

/// The priority group of a worker holds no address that ends in the local
/// peer, whatever the worker holds.
pub proof fn lemma_priority_group_without_local_peer(state: WorkerState, address: Seq<u8>)
    requires
        state.priority_group().contains(address),
    ensures
        terminal_peer_id(address) != Some(state.local_peer_id),
        cache_addresses(state.cache).contains(address),
{
}

/// In a worker that meets its invariant, the priority group is all of the
/// cache: the cache holds no address of the local peer to leave out.
pub proof fn lemma_priority_group_is_cache(state: WorkerState)
    requires
        state.wf(),
    ensures
        state.priority_group() == cache_addresses(state.cache),
{
    assert forall|a: Seq<u8>| cache_addresses(state.cache).contains(a) implies terminal_peer_id(a)
        != Some(state.local_peer_id) by {
        let k = choose|k: Seq<u8>|
            state.cache.dom().contains(k) && (#[trigger] state.cache[k]).contains(a);
        let i = choose|i: int| 0 <= i < state.cache[k].len() && state.cache[k][i] == a;
        assert(terminal_peer_id(state.cache[k][i]) != Some(state.local_peer_id));
    }
    assert(state.priority_group() =~= cache_addresses(state.cache));
}

/// Round trip of a record. Let a lookup be out for `authority`, and let the
/// DHT give the record that was put for it: the encoded `bundle` with a
/// signature of `authority` over those bytes. Then the ingest succeeds, and
/// the entry of `authority` in the cache is what the cache keeps of the
/// addresses of `bundle` that are taken.
pub proof fn lemma_ingest_of_published(
    state: WorkerState,
    authority: Seq<u8>,
    bundle: Seq<Seq<u8>>,
    signature: Seq<u8>,
)
    requires
        state.in_flight(record_key(authority)),
        state.lookups.in_flight[record_key(authority)] == authority,
        forall|i: int| 0 <= i < bundle.len() ==> (#[trigger] bundle[i]).len() <= u64::MAX,
        addresses_encoding(bundle).len() <= u64::MAX,
        signature.len() <= u64::MAX,
        sr25519_verifies(signature, addresses_encoding(bundle), authority),
    ensures
        state.ingest_result(
            record_key(authority),
            signed_record(addresses_encoding(bundle), signature),
        ) == Ok::<(), Error>(()),
        state.ingest(
            record_key(authority),
            signed_record(addresses_encoding(bundle), signature),
        ).cache.dom().contains(authority),
        state.ingest(
            record_key(authority),
            signed_record(addresses_encoding(bundle), signature),
        ).cache[authority] == cached(remote_addresses(bundle, state.local_peer_id)),
{
    lemma_signed_roundtrip(addresses_encoding(bundle), signature);
    lemma_addresses_roundtrip(bundle);
}

/// Round trip of a record whose addresses are all taken and kept: where
/// `bundle` holds at most `MAX_ADDRESSES_PER_AUTHORITY` addresses, none
/// twice, each a multiaddress that ends in a peer other than the local one,
/// the entry of `authority` after the ingest is `bundle` itself.
pub proof fn lemma_ingest_of_published_keeps(
    state: WorkerState,
    authority: Seq<u8>,
    bundle: Seq<Seq<u8>>,
    signature: Seq<u8>,
)
    requires
        state.in_flight(record_key(authority)),
        state.lookups.in_flight[record_key(authority)] == authority,
        forall|i: int| 0 <= i < bundle.len() ==> (#[trigger] bundle[i]).len() <= u64::MAX,
        addresses_encoding(bundle).len() <= u64::MAX,
        signature.len() <= u64::MAX,
        sr25519_verifies(signature, addresses_encoding(bundle), authority),
        bundle.len() <= MAX_ADDRESSES_PER_AUTHORITY,
        bundle.no_duplicates(),
        forall|i: int|
            0 <= i < bundle.len() ==> accepted(#[trigger] bundle[i], state.local_peer_id),
    ensures
        state.ingest(
            record_key(authority),
            signed_record(addresses_encoding(bundle), signature),
        ).cache[authority] == bundle,
{
    lemma_ingest_of_published(state, authority, bundle, signature);
    lemma_remote_addresses_keeps(bundle, state.local_peer_id);
    lemma_cached_keeps(bundle);
}

} // verus!
