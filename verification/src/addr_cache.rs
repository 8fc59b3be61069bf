//! The cache of addresses: for each authority the addresses that its last
//! record gave.
//!
//! An entry holds `MAX_ADDRESSES_PER_AUTHORITY` addresses at most, none
//! twice, and only addresses that end in a peer. The cap bounds the memory
//! that one authority can claim and what a forged record can do.

use crate::address::{terminal_peer_id, MultiAddress, PeerId};
use crate::assoc::{
    assoc_map, keys, lemma_assoc_map, lemma_assoc_map_contains, lemma_assoc_map_push,
    lemma_assoc_map_remove, lemma_assoc_map_update, lemma_push_no_duplicates,
};
use crate::keys::AuthorityId;
use crate::lookup::{contains_id, id_views};
use vstd::prelude::*;
use vstd::seq_lib::lemma_seq_contains_after_push;

verus! {

/// Maximum number of addresses cached per authority. Further ones are dropped.
pub const MAX_ADDRESSES_PER_AUTHORITY: usize = 10;

/// The views of a list of addresses.
pub open spec fn address_views(list: Seq<MultiAddress>) -> Seq<Seq<u8>> {
    Seq::new(list.len(), |i: int| list[i]@)
}

/// The views of a list of peer identities.
pub open spec fn peer_views(list: Seq<PeerId>) -> Seq<Seq<u8>> {
    Seq::new(list.len(), |i: int| list[i]@)
}

/// What the cache keeps of a list of addresses: those that end in a peer,
/// each once, in the order in which they come, up to
/// `MAX_ADDRESSES_PER_AUTHORITY` of them.
pub open spec fn cached(addresses: Seq<Seq<u8>>) -> Seq<Seq<u8>>
    decreases addresses.len(),
{
    if addresses.len() == 0 {
        Seq::empty()
    } else {
        let before = cached(addresses.drop_last());
        let address = addresses.last();
        if before.len() >= MAX_ADDRESSES_PER_AUTHORITY || terminal_peer_id(address) is None
            || before.contains(address) {
            before
        } else {
            before.push(address)
        }
    }
}

/// What holds of every entry of the cache: at most
/// `MAX_ADDRESSES_PER_AUTHORITY` addresses, none twice, each ending in a peer.
pub open spec fn entry_wf(list: Seq<Seq<u8>>) -> bool {
    &&& list.len() <= MAX_ADDRESSES_PER_AUTHORITY
    &&& list.no_duplicates()
    &&& forall|i: int| 0 <= i < list.len() ==> terminal_peer_id(#[trigger] list[i]) is Some
}

/// The invariant of the cache: finitely many entries, and each as `entry_wf` says.
pub open spec fn cache_wf(cache: Map<Seq<u8>, Seq<Seq<u8>>>) -> bool {
    &&& cache.dom().finite()
    &&& forall|k: Seq<u8>| cache.dom().contains(k) ==> entry_wf(#[trigger] cache[k])
}

/// The addresses of all entries of the cache.
pub open spec fn cache_addresses(cache: Map<Seq<u8>, Seq<Seq<u8>>>) -> Set<Seq<u8>> {
    Set::new(
        |a: Seq<u8>|
            exists|k: Seq<u8>| cache.dom().contains(k) && (#[trigger] cache[k]).contains(a),
    )
}

/// The peers that the addresses of the cache end in.
pub open spec fn cache_peers(cache: Map<Seq<u8>, Seq<Seq<u8>>>) -> Set<Seq<u8>> {
    Set::new(
        |p: Seq<u8>|
            exists|a: Seq<u8>| #[trigger]
                cache_addresses(cache).contains(a) && terminal_peer_id(a) == Some(p),
    )
}

/// What the cache keeps of a list is an entry as `entry_wf` says, and holds
/// nothing but addresses of the list.
pub proof fn lemma_cached(addresses: Seq<Seq<u8>>)
    ensures
        entry_wf(cached(addresses)),
        forall|a: Seq<u8>| #[trigger] cached(addresses).contains(a) ==> addresses.contains(a),
    decreases addresses.len(),
{
    if addresses.len() > 0 {
        let before = cached(addresses.drop_last());
        lemma_cached(addresses.drop_last());
        assert forall|a: Seq<u8>| #[trigger]
            cached(addresses).contains(a) implies addresses.contains(a) by {
            let i = choose|i: int| 0 <= i < cached(addresses).len() && cached(addresses)[i] == a;
            if i < before.len() {
                assert(before[i] == a);
                assert(before.contains(a));
                let j = choose|j: int|
                    0 <= j < addresses.drop_last().len() && addresses.drop_last()[j] == a;
                assert(addresses[j] == a);
            } else {
                assert(addresses[addresses.len() - 1] == a);
            }
        }
    }
}

/// A list that is an entry as `entry_wf` says is kept whole.
pub proof fn lemma_cached_keeps(addresses: Seq<Seq<u8>>)
    requires
        entry_wf(addresses),
    ensures
        cached(addresses) == addresses,
    decreases addresses.len(),
{
    if addresses.len() > 0 {
        let front = addresses.drop_last();
        lemma_cached_keeps(front);
        if front.contains(addresses.last()) {
            let i = choose|i: int| 0 <= i < front.len() && front[i] == addresses.last();
            assert(addresses[i] == addresses[addresses.len() - 1]);
        }
        assert(front.push(addresses.last()) =~= addresses);
    }
}

/// The cache of addresses.
pub struct AddrCache {
    entries: Vec<(AuthorityId, Vec<MultiAddress>)>,
}

impl View for AddrCache {
    type V = Map<Seq<u8>, Seq<Seq<u8>>>;

    closed spec fn view(&self) -> Map<Seq<u8>, Seq<Seq<u8>>> {
        assoc_map(self.pairs())
    }
}

/// Whether `list` holds the address `address`.
pub fn contains_address(list: &Vec<MultiAddress>, address: &MultiAddress) -> (r: bool)
    ensures
        r == address_views(list@).contains(address@),
{
    let mut i: usize = 0;
    while i < list.len()
        invariant
            i <= list.len(),
            forall|j: int| 0 <= j < i ==> address_views(list@)[j] != address@,
        decreases list.len() - i,
    {
        if list[i].same(address) {
            assert(address_views(list@)[i as int] == address@);
            return true;
        }
        i += 1;
    }
    false
}

/// Whether `list` holds the peer `peer`.
pub fn contains_peer(list: &Vec<PeerId>, peer: &PeerId) -> (r: bool)
    ensures
        r == peer_views(list@).contains(peer@),
{
    let mut i: usize = 0;
    while i < list.len()
        invariant
            i <= list.len(),
            forall|j: int| 0 <= j < i ==> peer_views(list@)[j] != peer@,
        decreases list.len() - i,
    {
        if list[i].same(peer) {
            assert(peer_views(list@)[i as int] == peer@);
            return true;
        }
        i += 1;
    }
    false
}

/// What the cache keeps of `addresses`: see `cached`.
pub fn cache_entry(addresses: &Vec<MultiAddress>) -> (kept: Vec<MultiAddress>)
    ensures
        address_views(kept@) == cached(address_views(addresses@)),
{
    let ghost all = address_views(addresses@);
    let mut kept: Vec<MultiAddress> = Vec::new();
    let mut i: usize = 0;
    assert(all.take(0) =~= Seq::empty());
    assert(address_views(kept@) =~= Seq::empty());
    while i < addresses.len()
        invariant
            i <= addresses.len(),
            all == address_views(addresses@),
            address_views(kept@) == cached(all.take(i as int)),
        decreases addresses.len() - i,
    {
        let ghost before = address_views(kept@);
        let address = &addresses[i];
        if kept.len() < MAX_ADDRESSES_PER_AUTHORITY && address.has_peer_id() && !contains_address(
            &kept,
            address,
        ) {
            kept.push(address.clone());
            assert(address_views(kept@) =~= before.push(address@));
        }
        proof {
            assert(all.take(i + 1).drop_last() =~= all.take(i as int));
            assert(all.take(i + 1).last() == address@);
        }
        i += 1;
    }
    assert(all.take(i as int) =~= all);
    kept
}

/// Adds to `list` the addresses of `more` that it lacks, in their order.
pub fn extend_unique(list: &mut Vec<MultiAddress>, more: &Vec<MultiAddress>)
    requires
        address_views(old(list)@).no_duplicates(),
    ensures
        address_views(final(list)@).no_duplicates(),
        forall|a: Seq<u8>|
            address_views(final(list)@).contains(a) <==> address_views(old(list)@).contains(a)
                || address_views(more@).contains(a),
        old(list)@.len() <= final(list)@.len() <= old(list)@.len() + more@.len(),
{
    let ghost all = address_views(more@);
    let mut n: usize = 0;
    assert(all.take(0) =~= Seq::empty());
    while n < more.len()
        invariant
            n <= more.len(),
            all == address_views(more@),
            address_views(list@).no_duplicates(),
            forall|a: Seq<u8>|
                address_views(list@).contains(a) <==> address_views(old(list)@).contains(a)
                    || all.take(n as int).contains(a),
            old(list)@.len() <= list@.len() <= old(list)@.len() + n,
        decreases more.len() - n,
    {
        let ghost before = address_views(list@);
        let ghost x = more@[n as int]@;
        assert(all.take(n + 1) =~= all.take(n as int).push(x));
        if !contains_address(list, &more[n]) {
            proof {
                lemma_push_no_duplicates(before, x);
            }
            list.push(more[n].clone());
            assert(address_views(list@) =~= before.push(x));
        }
        proof {
            assert forall|a: Seq<u8>|
                address_views(list@).contains(a) <==> address_views(old(list)@).contains(a)
                    || all.take(n + 1).contains(a) by {
                lemma_seq_contains_after_push(all.take(n as int), x, a);
                lemma_seq_contains_after_push(before, x, a);
            }
        }
        n += 1;
    }
    assert(all.take(n as int) =~= all);
}

impl AddrCache {
    /// The entries, as pairs of views.
    closed spec fn pairs(&self) -> Seq<(Seq<u8>, Seq<Seq<u8>>)> {
        Seq::new(
            self.entries@.len(),
            |i: int| (self.entries@[i].0@, address_views(self.entries@[i].1@)),
        )
    }

    /// No two entries are for the same authority.
    pub closed spec fn distinct(&self) -> bool {
        keys(self.pairs()).no_duplicates()
    }

    /// The invariant of the type.
    pub open spec fn wf(&self) -> bool {
        self.distinct() && cache_wf(self@)
    }

    /// The place of the entry of `id`.
    fn find(&self, id: &AuthorityId) -> (r: Option<usize>)
        ensures
            r matches Some(i) ==> i < self.entries.len() && self.pairs()[i as int].0 == id@,
            r is Some <==> self@.dom().contains(id@),
    {
        let mut i: usize = 0;
        while i < self.entries.len()
            invariant
                i <= self.entries.len(),
                forall|j: int| 0 <= j < i ==> (#[trigger] self.pairs()[j]).0 != id@,
            decreases self.entries.len() - i,
        {
            if self.entries[i].0.same(id) {
                proof {
                    assert(self.pairs()[i as int].0 == id@);
                    lemma_assoc_map_contains(self.pairs(), id@);
                }
                return Some(i);
            }
            i += 1;
        }
        proof {
            lemma_assoc_map_contains(self.pairs(), id@);
        }
        None
    }

    /// A cache without entries.
    pub fn new() -> (r: AddrCache)
        ensures
            r.wf(),
            r@ == Map::<Seq<u8>, Seq<Seq<u8>>>::empty(),
    {
        let r = AddrCache { entries: Vec::new() };
        proof {
            lemma_assoc_map(r.pairs());
            assert(r@ =~= Map::empty());
        }
        r
    }

    /// Sets the entry of `authority` to what the cache keeps of `addresses`
    /// (see `cached`), in place of the entry that it had.
    pub fn insert(&mut self, authority: AuthorityId, addresses: Vec<MultiAddress>)
        requires
            old(self).wf(),
        ensures
            final(self).wf(),
            final(self)@ == old(self)@.insert(authority@, cached(address_views(addresses@))),
    {
        let kept = cache_entry(&addresses);
        proof {
            lemma_cached(address_views(addresses@));
        }
        match self.find(&authority) {
            Some(at) => {
                proof {
                    lemma_assoc_map_update(self.pairs(), at as int, address_views(kept@));
                }
                self.entries.set(at, (authority, kept));
                assert(self.pairs() =~= old(self).pairs().update(
                    at as int,
                    (authority@, address_views(kept@)),
                ));
            },
            None => {
                proof {
                    lemma_assoc_map_push(self.pairs(), authority@, address_views(kept@));
                }
                self.entries.push((authority, kept));
                assert(self.pairs() =~= old(self).pairs().push((authority@, address_views(kept@))));
            },
        }
    }

    /// The number of authorities with an entry.
    pub fn num_ids(&self) -> (n: usize)
        requires
            self.wf(),
        ensures
            n == self@.len(),
    {
        proof {
            lemma_assoc_map(self.pairs());
        }
        self.entries.len()
    }

    /// The addresses of `id`, if it has an entry.
    pub fn get_addresses_by_authority_id(&self, id: &AuthorityId) -> (r: Option<&Vec<MultiAddress>>)
        requires
            self.wf(),
        ensures
            r is Some <==> self@.dom().contains(id@),
            r matches Some(list) ==> address_views(list@) == self@[id@] && entry_wf(
                address_views(list@),
            ),
    {
        match self.find(id) {
            None => None,
            Some(at) => {
                proof {
                    lemma_assoc_map(self.pairs());
                    assert(self.pairs()[at as int].1 == address_views(self.entries@[at as int].1@));
                }
                Some(&self.entries[at].1)
            },
        }
    }

    /// Drops the entries of the authorities that are not among `ids`.
    pub fn retain_ids(&mut self, ids: &Vec<AuthorityId>)
        requires
            old(self).wf(),
        ensures
            final(self).wf(),
            final(self)@ == old(self)@.restrict(id_views(ids@).to_set()),
    {
        let ghost wanted = id_views(ids@).to_set();
        let mut i: usize = 0;
        while i < self.entries.len()
            invariant
                i <= self.entries.len(),
                self.wf(),
                wanted == id_views(ids@).to_set(),
                forall|j: int| 0 <= j < i ==> wanted.contains((#[trigger] self.pairs()[j]).0),
                forall|k: Seq<u8>| #[trigger]
                    self@.dom().contains(k) ==> old(self)@.dom().contains(k) && self@[k] == old(
                        self,
                    )@[k],
                forall|k: Seq<u8>|
                    old(self)@.dom().contains(k) && wanted.contains(k)
                        ==> #[trigger] self@.dom().contains(k),
            decreases self.entries.len() - i,
        {
            let ghost before = *self;
            if contains_id(ids, &self.entries[i].0) {
                assert(self.pairs()[i as int].0 == self.entries@[i as int].0@);
                i += 1;
            } else {
                proof {
                    lemma_assoc_map_remove(self.pairs(), i as int);
                    assert(self.pairs()[i as int].0 == self.entries@[i as int].0@);
                }
                let _ = self.entries.remove(i);
                proof {
                    assert(self.pairs() =~= before.pairs().remove(i as int));
                    assert(self@ == before@.remove(before.pairs()[i as int].0));
                    assert(!wanted.contains(before.pairs()[i as int].0));
                    assert forall|j: int| 0 <= j < i implies wanted.contains(
                        (#[trigger] self.pairs()[j]).0,
                    ) by {
                        assert(self.pairs()[j] == before.pairs()[j]);
                    }
                }
            }
        }
        proof {
            assert forall|k: Seq<u8>| self@.dom().contains(k) implies wanted.contains(k) by {
                lemma_assoc_map_contains(self.pairs(), k);
                let j = choose|j: int|
                    0 <= j < self.pairs().len() && (#[trigger] self.pairs()[j]).0 == k;
                assert(wanted.contains(self.pairs()[j].0));
            }
            assert(self@ =~= old(self)@.restrict(wanted));
        }
    }

    /// The addresses of all entries, each once: no more than
    /// `MAX_ADDRESSES_PER_AUTHORITY` for each authority with an entry.
    pub fn addresses(&self) -> (r: Vec<MultiAddress>)
        requires
            self.wf(),
        ensures
            address_views(r@).no_duplicates(),
            address_views(r@).to_set() == cache_addresses(self@),
            r@.len() <= self@.len() * MAX_ADDRESSES_PER_AUTHORITY,
    {
        let mut r: Vec<MultiAddress> = Vec::new();
        let mut i: usize = 0;
        proof {
            lemma_assoc_map(self.pairs());
        }
        while i < self.entries.len()
            invariant
                i <= self.entries.len(),
                self.wf(),
                self@.len() == self.entries.len(),
                r@.len() <= i * MAX_ADDRESSES_PER_AUTHORITY,
                address_views(r@).no_duplicates(),
                forall|a: Seq<u8>|
                    address_views(r@).contains(a) <==> exists|j: int|
                        0 <= j < i && (#[trigger] self.pairs()[j]).1.contains(a),
            decreases self.entries.len() - i,
        {
            let ghost done = address_views(r@);
            proof {
                lemma_assoc_map(self.pairs());
                assert(self@[self.pairs()[i as int].0] == self.pairs()[i as int].1);
                assert(self.pairs()[i as int].1.len() == self.entries@[i as int].1@.len());
            }
            extend_unique(&mut r, &self.entries[i].1);
            proof {
                let list = self.pairs()[i as int].1;
                assert(list == address_views(self.entries@[i as int].1@));
                assert forall|a: Seq<u8>| address_views(r@).contains(a) <==> exists|j: int|
                    0 <= j < i + 1 && (#[trigger] self.pairs()[j]).1.contains(a) by {
                    if done.contains(a) {
                        let j = choose|j: int|
                            0 <= j < i && (#[trigger] self.pairs()[j]).1.contains(a);
                        assert(0 <= j < i + 1 && self.pairs()[j].1.contains(a));
                    }
                    if list.contains(a) {
                        assert(0 <= i < i + 1 && self.pairs()[i as int].1.contains(a));
                    }
                    if exists|j: int| 0 <= j < i + 1 && (#[trigger] self.pairs()[j]).1.contains(a) {
                        let j = choose|j: int|
                            0 <= j < i + 1 && (#[trigger] self.pairs()[j]).1.contains(a);
                        if j < i {
                            assert(done.contains(a));
                        }
                    }
                }
            }
            i += 1;
        }
        proof {
            lemma_assoc_map(self.pairs());
            assert forall|a: Seq<u8>| address_views(r@).to_set().contains(a) <==> cache_addresses(
                self@,
            ).contains(a) by {
                if address_views(r@).contains(a) {
                    let j = choose|j: int|
                        0 <= j < i && (#[trigger] self.pairs()[j]).1.contains(a);
                    assert(self@.dom().contains(self.pairs()[j].0));
                    assert(self@[self.pairs()[j].0].contains(a));
                }
                if cache_addresses(self@).contains(a) {
                    let k = choose|k: Seq<u8>|
                        self@.dom().contains(k) && (#[trigger] self@[k]).contains(a);
                    lemma_assoc_map_contains(self.pairs(), k);
                    let j = choose|j: int|
                        0 <= j < self.pairs().len() && (#[trigger] self.pairs()[j]).0 == k;
                    assert(self@[self.pairs()[j].0] == self.pairs()[j].1);
                    assert(0 <= j < i && self.pairs()[j].1.contains(a));
                }
            }
            assert(address_views(r@).to_set() =~= cache_addresses(self@));
        }
        r
    }

    /// The peers that the cached addresses end in, each once.
    pub fn get_peer_ids(&self) -> (r: Vec<PeerId>)
        requires
            self.wf(),
        ensures
            peer_views(r@).no_duplicates(),
            peer_views(r@).to_set() == cache_peers(self@),
    {
        let all = self.addresses();
        let ghost views = address_views(all@);
        let mut r: Vec<PeerId> = Vec::new();
        let mut i: usize = 0;
        while i < all.len()
            invariant
                i <= all.len(),
                views == address_views(all@),
                peer_views(r@).no_duplicates(),
                forall|p: Seq<u8>|
                    peer_views(r@).contains(p) <==> exists|j: int|
                        0 <= j < i && terminal_peer_id(#[trigger] views[j]) == Some(p),
            decreases all.len() - i,
        {
            let ghost before = peer_views(r@);
            let found = all[i].peer_id();
            assert(views[i as int] == all@[i as int]@);
            match found {
                None => {},
                Some(peer) => {
                    if !contains_peer(&r, &peer) {
                        proof {
                            lemma_push_no_duplicates(before, peer@);
                        }
                        r.push(peer);
                        assert(peer_views(r@) =~= before.push(peer@));
                    }
                },
            }
            proof {
                assert forall|p: Seq<u8>| peer_views(r@).contains(p) <==> exists|j: int|
                    0 <= j < i + 1 && terminal_peer_id(#[trigger] views[j]) == Some(p) by {
                    if let Some(x) = terminal_peer_id(views[i as int]) {
                        lemma_seq_contains_after_push(before, x, p);
                    }
                    if before.contains(p) {
                        let j = choose|j: int|
                            0 <= j < i && terminal_peer_id(#[trigger] views[j]) == Some(p);
                        assert(0 <= j < i + 1 && terminal_peer_id(views[j]) == Some(p));
                    }
                    if terminal_peer_id(views[i as int]) == Some(p) {
                        assert(0 <= i < i + 1 && terminal_peer_id(views[i as int]) == Some(p));
                    }
                    if exists|j: int|
                        0 <= j < i + 1 && terminal_peer_id(#[trigger] views[j]) == Some(p) {
                        let j = choose|j: int|
                            0 <= j < i + 1 && terminal_peer_id(#[trigger] views[j]) == Some(p);
                        if j < i {
                            assert(before.contains(p));
                        }
                    }
                }
            }
            i += 1;
        }
        proof {
            assert forall|p: Seq<u8>| peer_views(r@).to_set().contains(p) <==> cache_peers(
                self@,
            ).contains(p) by {
                if peer_views(r@).contains(p) {
                    let j = choose|j: int|
                        0 <= j < i && terminal_peer_id(#[trigger] views[j]) == Some(p);
                    let a = views[j];
                    assert(views.contains(a));
                    assert(views.to_set().contains(a));
                    assert(cache_addresses(self@).contains(a) && terminal_peer_id(a) == Some(p));
                }
                if cache_peers(self@).contains(p) {
                    let a = choose|a: Seq<u8>| #[trigger]
                        cache_addresses(self@).contains(a) && terminal_peer_id(a) == Some(p);
                    assert(views.to_set().contains(a));
                    let j = choose|j: int| 0 <= j < views.len() && views[j] == a;
                    assert(0 <= j < i && terminal_peer_id(views[j]) == Some(p));
                }
            }
            assert(peer_views(r@).to_set() =~= cache_peers(self@));
        }
        r
    }
}

} // verus!
