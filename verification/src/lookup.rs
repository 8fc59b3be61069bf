//! The queue of lookups: which authorities wait to be looked up, and which
//! lookups are out on the DHT.
//!
//! At most `MAX_IN_FLIGHT_LOOKUPS` lookups are out at a time. The throttle
//! bounds the load on the DHT and paces the work of checking signatures.

use crate::assoc::{
    assoc_map, keys, lemma_assoc_map, lemma_assoc_map_contains, lemma_assoc_map_push,
    lemma_assoc_map_remove, lemma_assoc_map_update,
};
use crate::keys::{hash_authority_id, record_key, AuthorityId, RecordKey};
use vstd::prelude::*;

verus! {

/// Maximum number of lookups that are out on the DHT at any point in time.
pub const MAX_IN_FLIGHT_LOOKUPS: usize = 8;

/// The views of a list of authority keys.
pub open spec fn id_views(ids: Seq<AuthorityId>) -> Seq<Seq<u8>> {
    Seq::new(ids.len(), |i: int| ids[i]@)
}

/// The views of a list of record keys.
pub open spec fn key_views(list: Seq<RecordKey>) -> Seq<Seq<u8>> {
    Seq::new(list.len(), |i: int| list[i]@)
}

/// The queue that a refill leaves: the authorities of `authorities`, in
/// their order and each once, but for those whose record key is in flight.
pub open spec fn refilled(authorities: Seq<Seq<u8>>, in_flight: Map<Seq<u8>, Seq<u8>>) -> Seq<
    Seq<u8>,
>
    decreases authorities.len(),
{
    if authorities.len() == 0 {
        Seq::empty()
    } else {
        let before = refilled(authorities.drop_last(), in_flight);
        let authority = authorities.last();
        if in_flight.dom().contains(record_key(authority)) || before.contains(authority) {
            before
        } else {
            before.push(authority)
        }
    }
}

/// What the queue of lookups holds.
pub struct LookupState {
    /// Authorities that wait for a lookup, first in first out.
    pub pending: Seq<Seq<u8>>,
    /// The lookups that are out: from the record key to the authority.
    pub in_flight: Map<Seq<u8>, Seq<u8>>,
}

impl LookupState {
    /// The invariant of the queue: at most `MAX_IN_FLIGHT_LOOKUPS` lookups
    /// are out, each under the record key of its authority, and no authority
    /// waits twice.
    pub open spec fn wf(self) -> bool {
        &&& self.in_flight.dom().finite()
        &&& self.in_flight.len() <= MAX_IN_FLIGHT_LOOKUPS
        &&& self.pending.no_duplicates()
        &&& forall|k: Seq<u8>| #[trigger]
            self.in_flight.dom().contains(k) ==> k == record_key(self.in_flight[k])
    }

    /// The empty queue.
    pub open spec fn empty() -> LookupState {
        LookupState { pending: Seq::empty(), in_flight: Map::empty() }
    }

    /// Whether a lookup can be sent out: an authority waits and a slot is free.
    pub open spec fn can_start(self) -> bool {
        self.pending.len() > 0 && self.in_flight.len() < MAX_IN_FLIGHT_LOOKUPS
    }

    /// The queue after the first waiting authority was sent out.
    pub open spec fn start_one(self) -> LookupState {
        LookupState {
            pending: self.pending.skip(1),
            in_flight: self.in_flight.insert(record_key(self.pending[0]), self.pending[0]),
        }
    }

    /// The queue after lookups were sent out for as long as one could be.
    pub open spec fn start(self) -> LookupState
        decreases self.pending.len(),
    {
        if self.can_start() {
            self.start_one().start()
        } else {
            self
        }
    }

    /// The record keys of the lookups that `start` sends out, in order.
    pub open spec fn issued(self) -> Seq<Seq<u8>>
        decreases self.pending.len(),
    {
        if self.can_start() {
            seq![record_key(self.pending[0])] + self.start_one().issued()
        } else {
            Seq::empty()
        }
    }

    /// The queue after `authorities` became the current set.
    pub open spec fn refill(self, authorities: Seq<Seq<u8>>) -> LookupState {
        LookupState { pending: refilled(authorities, self.in_flight), in_flight: self.in_flight }
    }

    /// The queue after the lookup under `key` came back.
    pub open spec fn remove(self, key: Seq<u8>) -> LookupState {
        LookupState { pending: self.pending, in_flight: self.in_flight.remove(key) }
    }
}

/// A refilled queue holds no authority twice, and holds exactly those of the
/// current set whose record key is not in flight.
pub proof fn lemma_refilled(authorities: Seq<Seq<u8>>, in_flight: Map<Seq<u8>, Seq<u8>>)
    ensures
        refilled(authorities, in_flight).no_duplicates(),
        forall|a: Seq<u8>| #[trigger]
            refilled(authorities, in_flight).contains(a) <==> authorities.contains(a)
                && !in_flight.dom().contains(record_key(a)),
    decreases authorities.len(),
{
    let result = refilled(authorities, in_flight);
    if authorities.len() > 0 {
        let before = refilled(authorities.drop_last(), in_flight);
        let authority = authorities.last();
        lemma_refilled(authorities.drop_last(), in_flight);
        assert forall|a: Seq<u8>| #[trigger]
            result.contains(a) <==> authorities.contains(a) && !in_flight.dom().contains(
                record_key(a),
            ) by {
            if authorities.contains(a) {
                let i = choose|i: int| 0 <= i < authorities.len() && authorities[i] == a;
                if i < authorities.len() - 1 {
                    assert(authorities.drop_last()[i] == a);
                }
            }
            if authorities.drop_last().contains(a) {
                let i = choose|i: int|
                    0 <= i < authorities.drop_last().len() && authorities.drop_last()[i] == a;
                assert(authorities[i] == a);
            }
            if before.contains(a) {
                let i = choose|i: int| 0 <= i < before.len() && before[i] == a;
                assert(result[i] == a);
            }
            if result.contains(a) && !before.contains(a) {
                let i = choose|i: int| 0 <= i < result.len() && result[i] == a;
                assert(i == before.len());
                assert(authorities[authorities.len() - 1] == a);
            }
            if a == authority && result.len() > before.len() {
                assert(result[before.len() as int] == a);
            }
        }
    }
}

/// Sending one lookup out keeps the invariant of the queue.
pub proof fn lemma_start_one_wf(state: LookupState)
    requires
        state.wf(),
        state.can_start(),
    ensures
        state.start_one().wf(),
{
    let next = state.start_one();
    assert forall|i: int, j: int|
        0 <= i < next.pending.len() && 0 <= j < next.pending.len() && i != j implies next.pending[i]
        != next.pending[j] by {
        assert(next.pending[i] == state.pending[i + 1]);
        assert(next.pending[j] == state.pending[j + 1]);
    }
}

/// Whether no lookup to come would meet another under its record key: the
/// record keys of the authorities that wait differ from each other and from
/// those in flight.
pub open spec fn without_collisions(state: LookupState) -> bool {
    &&& forall|i: int|
        0 <= i < state.pending.len() ==> !state.in_flight.dom().contains(
            #[trigger] record_key(state.pending[i]),
        )
    &&& forall|i: int, j: int|
        0 <= i < state.pending.len() && 0 <= j < state.pending.len() && i != j ==> record_key(
            state.pending[i],
        ) != record_key(state.pending[j])
}

/// The number of lookups that go out at once: as many as slots are free, or
/// all that wait where those are fewer.
pub open spec fn startable(state: LookupState) -> nat {
    let free = (MAX_IN_FLIGHT_LOOKUPS - state.in_flight.len()) as nat;
    if state.pending.len() <= free {
        state.pending.len()
    } else {
        free
    }
}

/// The throttle, counted: where no record keys collide, sending lookups out
/// sends exactly as many as slots are free, or all that wait where those are
/// fewer. So many leave the queue, and so many more are in flight.
pub proof fn lemma_start_count(state: LookupState)
    requires
        state.wf(),
        without_collisions(state),
    ensures
        state.issued().len() == startable(state),
        state.start().pending.len() == state.pending.len() - startable(state),
        state.start().in_flight.len() == state.in_flight.len() + startable(state),
    decreases state.pending.len(),
{
    if state.can_start() {
        let next = state.start_one();
        lemma_start_one_wf(state);
        assert(!state.in_flight.dom().contains(record_key(state.pending[0])));
        assert forall|i: int| 0 <= i < next.pending.len() implies !next.in_flight.dom().contains(
            #[trigger] record_key(next.pending[i]),
        ) by {
            assert(next.pending[i] == state.pending[i + 1]);
            assert(!state.in_flight.dom().contains(record_key(state.pending[i + 1])));
        }
        assert forall|i: int, j: int|
            0 <= i < next.pending.len() && 0 <= j < next.pending.len() && i != j implies record_key(
            next.pending[i],
        ) != record_key(next.pending[j]) by {
            assert(next.pending[i] == state.pending[i + 1]);
            assert(next.pending[j] == state.pending[j + 1]);
        }
        lemma_start_count(next);
    }
}

/// Sending lookups out keeps the invariant of the queue, and leaves either no
/// authority waiting or no slot free.
pub proof fn lemma_start(state: LookupState)
    requires
        state.wf(),
    ensures
        state.start().wf(),
        !state.start().can_start(),
        state.issued().len() <= state.pending.len(),
    decreases state.pending.len(),
{
    if state.can_start() {
        lemma_start_one_wf(state);
        lemma_start(state.start_one());
    }
}

/// A refill and the return of a lookup keep the invariant of the queue.
pub proof fn lemma_refill_remove(state: LookupState, authorities: Seq<Seq<u8>>, key: Seq<u8>)
    requires
        state.wf(),
    ensures
        state.refill(authorities).wf(),
        state.remove(key).wf(),
{
    lemma_refilled(authorities, state.in_flight);
}

/// The queue of lookups.
pub struct LookupQueue {
    pending: Vec<AuthorityId>,
    in_flight: Vec<(RecordKey, AuthorityId)>,
}

impl View for LookupQueue {
    type V = LookupState;

    closed spec fn view(&self) -> LookupState {
        LookupState { pending: id_views(self.pending@), in_flight: assoc_map(self.entries()) }
    }
}

/// Whether `list` holds the authority `id`.
pub fn contains_id(list: &Vec<AuthorityId>, id: &AuthorityId) -> (r: bool)
    ensures
        r == id_views(list@).contains(id@),
{
    let mut i: usize = 0;
    while i < list.len()
        invariant
            i <= list.len(),
            forall|j: int| 0 <= j < i ==> id_views(list@)[j] != id@,
        decreases list.len() - i,
    {
        if list[i].same(id) {
            assert(id_views(list@)[i as int] == id@);
            return true;
        }
        i += 1;
    }
    false
}

impl LookupQueue {
    /// The lookups that are out, as pairs of views.
    closed spec fn entries(&self) -> Seq<(Seq<u8>, Seq<u8>)> {
        Seq::new(self.in_flight@.len(), |i: int| (self.in_flight@[i].0@, self.in_flight@[i].1@))
    }

    /// No two lookups that are out have the same record key.
    pub closed spec fn distinct(&self) -> bool {
        keys(self.entries()).no_duplicates()
    }

    /// The invariant of the type.
    pub open spec fn wf(&self) -> bool {
        self.distinct() && self@.wf()
    }

    /// The place of the lookup under `key` among those that are out.
    fn find(&self, key: &RecordKey) -> (r: Option<usize>)
        ensures
            r matches Some(i) ==> i < self.in_flight.len() && self.entries()[i as int].0 == key@,
            r is None ==> !self@.in_flight.dom().contains(key@),
            r is Some ==> self@.in_flight.dom().contains(key@),
    {
        let mut i: usize = 0;
        while i < self.in_flight.len()
            invariant
                i <= self.in_flight.len(),
                forall|j: int| 0 <= j < i ==> (#[trigger] self.entries()[j]).0 != key@,
            decreases self.in_flight.len() - i,
        {
            if self.in_flight[i].0.same(key) {
                proof {
                    assert(self.entries()[i as int].0 == key@);
                    lemma_assoc_map_contains(self.entries(), key@);
                }
                return Some(i);
            }
            i += 1;
        }
        proof {
            lemma_assoc_map_contains(self.entries(), key@);
        }
        None
    }

    /// A queue in which nothing waits and nothing is out.
    pub fn new() -> (r: LookupQueue)
        ensures
            r.wf(),
            r@ == LookupState::empty(),
    {
        let r = LookupQueue { pending: Vec::new(), in_flight: Vec::new() };
        proof {
            lemma_assoc_map(r.entries());
            assert(r@.pending =~= Seq::empty());
            assert(r@.in_flight =~= Map::empty());
            assert(r@.in_flight.len() == 0);
        }
        r
    }

    /// The number of authorities that wait for a lookup.
    pub fn pending_len(&self) -> (n: usize)
        ensures
            n == self@.pending.len(),
    {
        self.pending.len()
    }

    /// The number of lookups that are out.
    pub fn in_flight_len(&self) -> (n: usize)
        requires
            self.wf(),
        ensures
            n == self@.in_flight.len(),
            n <= MAX_IN_FLIGHT_LOOKUPS,
    {
        proof {
            lemma_assoc_map(self.entries());
        }
        self.in_flight.len()
    }

    /// The authority that the lookup under `key` is out for, if there is one.
    pub fn authority_of(&self, key: &RecordKey) -> (r: Option<AuthorityId>)
        requires
            self.wf(),
        ensures
            r is Some <==> self@.in_flight.dom().contains(key@),
            r matches Some(a) ==> a@ == self@.in_flight[key@],
    {
        match self.find(key) {
            None => None,
            Some(i) => {
                proof {
                    lemma_assoc_map(self.entries());
                    assert(self.entries()[i as int].1 == self.in_flight@[i as int].1@);
                }
                Some(self.in_flight[i].1.clone())
            },
        }
    }

    /// Replaces what waits by the authorities of `authorities`, in their
    /// order and each once, leaving out those whose lookup is out already.
    pub fn refill(&mut self, authorities: &Vec<AuthorityId>)
        requires
            old(self).wf(),
        ensures
            final(self).wf(),
            final(self)@ == old(self)@.refill(id_views(authorities@)),
    {
        let ghost all = id_views(authorities@);
        let mut pending: Vec<AuthorityId> = Vec::new();
        let mut i: usize = 0;
        assert(all.take(0) =~= Seq::empty());
        assert(id_views(pending@) =~= Seq::empty());
        while i < authorities.len()
            invariant
                i <= authorities.len(),
                all == id_views(authorities@),
                self.wf(),
                self@ == old(self)@,
                id_views(pending@) == refilled(all.take(i as int), self@.in_flight),
            decreases authorities.len() - i,
        {
            let ghost before = id_views(pending@);
            let authority = &authorities[i];
            let key = hash_authority_id(authority.0.as_slice());
            let known = self.find(&key).is_some() || contains_id(&pending, authority);
            if !known {
                pending.push(authority.clone());
                assert(id_views(pending@) =~= before.push(authority@));
            }
            proof {
                assert(all.take(i + 1).drop_last() =~= all.take(i as int));
                assert(all.take(i + 1).last() == authority@);
            }
            i += 1;
        }
        proof {
            assert(all.take(i as int) =~= all);
            lemma_refilled(all, self@.in_flight);
        }
        self.pending = pending;
    }

    /// Sends lookups out while an authority waits and a slot is free. Gives
    /// the record keys to ask the DHT for, in the order of the queue.
    pub fn start_new_lookups(&mut self) -> (issued: Vec<RecordKey>)
        requires
            old(self).wf(),
        ensures
            final(self).wf(),
            final(self)@ == old(self)@.start(),
            key_views(issued@) == old(self)@.issued(),
    {
        let mut issued: Vec<RecordKey> = Vec::new();
        proof {
            lemma_assoc_map(self.entries());
            assert(key_views(issued@) + self@.issued() =~= self@.issued());
        }
        while self.pending.len() > 0 && self.in_flight.len() < MAX_IN_FLIGHT_LOOKUPS
            invariant
                self.wf(),
                self@.in_flight.len() == self.in_flight.len(),
                self@.start() == old(self)@.start(),
                key_views(issued@) + self@.issued() == old(self)@.issued(),
            decreases self.pending.len(),
        {
            let ghost before = *self;
            let ghost sent = key_views(issued@);
            let authority = self.pending.remove(0);
            let key = hash_authority_id(authority.0.as_slice());
            proof {
                assert(id_views(self.pending@) =~= before@.pending.skip(1));
                assert(authority@ == before@.pending[0]);
            }
            match self.find(&key) {
                Some(at) => {
                    proof {
                        lemma_assoc_map_update(before.entries(), at as int, authority@);
                    }
                    self.in_flight.set(at, (key.clone(), authority));
                    assert(self.entries() =~= before.entries().update(
                        at as int,
                        (key@, before@.pending[0]),
                    ));
                },
                None => {
                    proof {
                        lemma_assoc_map_push(before.entries(), key@, authority@);
                    }
                    self.in_flight.push((key.clone(), authority));
                    assert(self.entries() =~= before.entries().push((key@, before@.pending[0])));
                },
            }
            issued.push(key);
            proof {
                assert(self@ == before@.start_one());
                lemma_assoc_map(self.entries());
                lemma_start_one_wf(before@);
                assert(key_views(issued@) =~= sent.push(record_key(before@.pending[0])));
                assert(key_views(issued@) + self@.issued() =~= sent + before@.issued());
            }
        }
        proof {
            assert(self@.issued() =~= Seq::empty());
            assert(key_views(issued@) + self@.issued() =~= key_views(issued@));
        }
        issued
    }

    /// Takes the lookup under `key` back, and gives the authority that it was
    /// out for. Without such a lookup nothing changes.
    pub fn remove(&mut self, key: &RecordKey) -> (r: Option<AuthorityId>)
        requires
            old(self).wf(),
        ensures
            final(self).wf(),
            final(self)@ == old(self)@.remove(key@),
            r is Some <==> old(self)@.in_flight.dom().contains(key@),
            r matches Some(a) ==> a@ == old(self)@.in_flight[key@],
            r is None ==> final(self)@ == old(self)@,
    {
        match self.find(key) {
            None => {
                assert(self@.in_flight.remove(key@) =~= self@.in_flight);
                None
            },
            Some(at) => {
                proof {
                    lemma_assoc_map(self.entries());
                    lemma_assoc_map_remove(self.entries(), at as int);
                }
                let (_, authority) = self.in_flight.remove(at);
                proof {
                    assert(self.entries() =~= old(self).entries().remove(at as int));
                    assert(authority@ == old(self).entries()[at as int].1);
                    lemma_assoc_map(self.entries());
                }
                Some(authority)
            },
        }
    }

    /// Takes the lookup under `key` back and sends new lookups out. Gives the
    /// record keys to ask the DHT for.
    pub fn on_response(&mut self, key: &RecordKey) -> (issued: Vec<RecordKey>)
        requires
            old(self).wf(),
        ensures
            final(self).wf(),
            final(self)@ == old(self)@.remove(key@).start(),
            key_views(issued@) == old(self)@.remove(key@).issued(),
    {
        let _ = self.remove(key);
        self.start_new_lookups()
    }
}

} // verus!
