//! A network that keeps what it is asked for, in place of one that does it.
//!
//! A worker hands out requests; a network performs them. This one records
//! each request in the order in which it came, so that what a worker asked
//! for can be looked at afterwards.

use crate::addr_cache::address_views;
use crate::address::{MultiAddress, PeerId};
use crate::keys::RecordKey;
use crate::lookup::key_views;
use crate::worker::clone_addresses;
use vstd::prelude::*;

verus! {

/// A request that the network got.
#[derive(Debug)]
pub enum TestNetworkEvent {
    /// A lookup of the value under the record key.
    GetCalled(RecordKey),
    /// A put of the value under the record key.
    PutCalled(RecordKey, Vec<u8>),
    /// A priority group was set.
    SetPriorityGroupCalled { group_id: String, peers: Vec<MultiAddress> },
}

/// What a request holds, as plain values.
pub enum RequestView {
    /// A lookup of the value under the record key.
    Get(Seq<u8>),
    /// A put of the value under the record key.
    Put(Seq<u8>, Seq<u8>),
    /// A priority group with its addresses.
    SetPriorityGroup(Seq<char>, Seq<Seq<u8>>),
}

impl View for TestNetworkEvent {
    type V = RequestView;

    open spec fn view(&self) -> RequestView {
        match self {
            TestNetworkEvent::GetCalled(key) => RequestView::Get(key@),
            TestNetworkEvent::PutCalled(key, value) => RequestView::Put(key@, value@),
            TestNetworkEvent::SetPriorityGroupCalled { group_id, peers } => {
                RequestView::SetPriorityGroup(group_id@, address_views(peers@))
            },
        }
    }
}

/// The views of a list of requests.
pub open spec fn request_views(list: Seq<TestNetworkEvent>) -> Seq<RequestView> {
    Seq::new(list.len(), |i: int| list[i]@)
}

/// The views of a list of puts.
pub open spec fn put_views(list: Seq<(RecordKey, Vec<u8>)>) -> Seq<(Seq<u8>, Seq<u8>)> {
    Seq::new(list.len(), |i: int| (list[i].0@, list[i].1@))
}

/// The views of a list of priority groups.
pub open spec fn group_views(list: Seq<(String, Vec<MultiAddress>)>) -> Seq<
    (Seq<char>, Seq<Seq<u8>>),
> {
    Seq::new(list.len(), |i: int| (list[i].0@, address_views(list[i].1@)))
}

/// A network that records the requests it gets.
#[derive(Debug)]
pub struct TestNetwork {
    peer_id: PeerId,
    external_addresses: Vec<MultiAddress>,
    /// The puts, in the order in which they came.
    pub put_value_call: Vec<(RecordKey, Vec<u8>)>,
    /// The record keys of the lookups, in the order in which they came.
    pub get_value_call: Vec<RecordKey>,
    /// The priority groups, in the order in which they came.
    pub set_priority_group_call: Vec<(String, Vec<MultiAddress>)>,
    events: Vec<TestNetworkEvent>,
}

impl TestNetwork {
    /// The identity of the node, as plain values.
    pub closed spec fn peer(&self) -> Seq<u8> {
        self.peer_id@
    }

    /// The external addresses of the node, as plain values.
    pub closed spec fn external(&self) -> Seq<Seq<u8>> {
        address_views(self.external_addresses@)
    }

    /// The requests that came since the events were last taken.
    pub closed spec fn events(&self) -> Seq<RequestView> {
        request_views(self.events@)
    }

    /// The puts that were recorded, as plain values.
    pub closed spec fn puts(&self) -> Seq<(Seq<u8>, Seq<u8>)> {
        put_views(self.put_value_call@)
    }

    /// The record keys of the lookups that were recorded, as plain values.
    pub closed spec fn gets(&self) -> Seq<Seq<u8>> {
        key_views(self.get_value_call@)
    }

    /// The priority groups that were recorded, as plain values.
    pub closed spec fn groups(&self) -> Seq<(Seq<char>, Seq<Seq<u8>>)> {
        group_views(self.set_priority_group_call@)
    }

    /// Whether everything but the events is as in `other`.
    pub open spec fn same_calls(&self, other: &TestNetwork) -> bool {
        &&& self.peer() == other.peer()
        &&& self.external() == other.external()
        &&& self.puts() == other.puts()
        &&& self.gets() == other.gets()
        &&& self.groups() == other.groups()
    }

    /// A network of the node with the identity `peer_id` and the external
    /// addresses `external_addresses`, which got no request yet.
    pub fn new(peer_id: PeerId, external_addresses: Vec<MultiAddress>) -> (r: TestNetwork)
        ensures
            r.peer() == peer_id@,
            r.external() == address_views(external_addresses@),
            r.puts() == Seq::<(Seq<u8>, Seq<u8>)>::empty(),
            r.gets() == Seq::<Seq<u8>>::empty(),
            r.groups() == Seq::<(Seq<char>, Seq<Seq<u8>>)>::empty(),
            r.events() == Seq::<RequestView>::empty(),
    {
        let r = TestNetwork {
            peer_id,
            external_addresses,
            put_value_call: Vec::new(),
            get_value_call: Vec::new(),
            set_priority_group_call: Vec::new(),
            events: Vec::new(),
        };
        assert(r.events() =~= Seq::empty());
        assert(r.puts() =~= Seq::empty());
        assert(r.gets() =~= Seq::empty());
        assert(r.groups() =~= Seq::empty());
        r
    }

    /// The requests that came since this was last asked, oldest first.
    pub fn take_events(&mut self) -> (taken: Vec<TestNetworkEvent>)
        ensures
            request_views(taken@) == old(self).events(),
            final(self).events() == Seq::<RequestView>::empty(),
            final(self).same_calls(old(self)),
    {
        let mut taken: Vec<TestNetworkEvent> = Vec::new();
        taken.append(&mut self.events);
        assert(request_views(taken@) =~= old(self).events());
        assert(self.events() =~= Seq::empty());
        taken
    }

    /// Records the priority group, and accepts it.
    pub fn set_priority_group(&mut self, group_id: String, peers: Vec<MultiAddress>) -> (r: Result<
        (),
        String,
    >)
        ensures
            r is Ok,
            final(self).groups() == old(self).groups().push((group_id@, address_views(peers@))),
            final(self).events() == old(self).events().push(
                RequestView::SetPriorityGroup(group_id@, address_views(peers@)),
            ),
            final(self).peer() == old(self).peer(),
            final(self).external() == old(self).external(),
            final(self).puts() == old(self).puts(),
            final(self).gets() == old(self).gets(),
    {
        let copy = clone_addresses(&peers);
        self.set_priority_group_call.push((group_id.clone(), copy));
        self.events.push(TestNetworkEvent::SetPriorityGroupCalled { group_id, peers });
        assert(self.groups() =~= old(self).groups().push((group_id@, address_views(peers@))));
        assert(self.events() =~= old(self).events().push(
            RequestView::SetPriorityGroup(group_id@, address_views(peers@)),
        ));
        Ok(())
    }

    /// Records the put of `value` under `key`.
    pub fn put_value(&mut self, key: RecordKey, value: Vec<u8>)
        ensures
            final(self).puts() == old(self).puts().push((key@, value@)),
            final(self).events() == old(self).events().push(RequestView::Put(key@, value@)),
            final(self).peer() == old(self).peer(),
            final(self).external() == old(self).external(),
            final(self).gets() == old(self).gets(),
            final(self).groups() == old(self).groups(),
    {
        self.put_value_call.push((key.clone(), value.clone()));
        self.events.push(TestNetworkEvent::PutCalled(key, value));
        assert(self.puts() =~= old(self).puts().push((key@, value@)));
        assert(self.events() =~= old(self).events().push(RequestView::Put(key@, value@)));
    }

    /// Records the lookup of the value under `key`.
    pub fn get_value(&mut self, key: &RecordKey)
        ensures
            final(self).gets() == old(self).gets().push(key@),
            final(self).events() == old(self).events().push(RequestView::Get(key@)),
            final(self).peer() == old(self).peer(),
            final(self).external() == old(self).external(),
            final(self).puts() == old(self).puts(),
            final(self).groups() == old(self).groups(),
    {
        self.get_value_call.push(key.clone());
        self.events.push(TestNetworkEvent::GetCalled(key.clone()));
        assert(self.gets() =~= old(self).gets().push(key@));
        assert(self.events() =~= old(self).events().push(RequestView::Get(key@)));
    }

    /// The identity of the node.
    pub fn local_peer_id(&self) -> (r: PeerId)
        ensures
            r@ == self.peer(),
    {
        self.peer_id.clone()
    }

    /// The external addresses of the node.
    pub fn external_addresses(&self) -> (r: Vec<MultiAddress>)
        ensures
            address_views(r@) == self.external(),
    {
        clone_addresses(&self.external_addresses)
    }
}

} // verus!
