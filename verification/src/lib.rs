//! Authority discovery: validators publish signed records of their network
//! addresses to a distributed hash table and resolve the records of their peers.
//!
//! The library is the engine of the worker, without I/O: the two records and
//! their bytes (`codec`), addresses and peers (`address`), keys and signatures
//! (`keys`), the throttled queue of lookups (`lookup`), the cache of addresses
//! (`addr_cache`), the worker itself (`worker`) with its model (`state`), the
//! ticks (`interval`), the counters (`metrics`), and a network that records
//! what it is asked for (`network`).

pub mod addr_cache;
pub mod address;
pub mod assoc;
pub mod codec;
pub mod error;
pub mod interval;
pub mod keys;
pub mod lookup;
pub mod metrics;
pub mod network;
pub mod state;
pub mod worker;

pub use crate::addr_cache::{AddrCache, MAX_ADDRESSES_PER_AUTHORITY};
pub use crate::address::{MultiAddress, PeerId};
pub use crate::codec::{AuthorityAddresses, SignedAuthorityAddresses};
pub use crate::error::Error;
pub use crate::interval::{
    interval_at, publish_interval, refill_interval, Interval, INITIAL_DELAY, PUBLISH_INTERVAL,
    REFILL_INTERVAL,
};
pub use crate::keys::{hash_authority_id, verify_signature, AuthorityId, RecordKey};
pub use crate::lookup::{LookupQueue, MAX_IN_FLIGHT_LOOKUPS};
pub use crate::metrics::Metrics;
pub use crate::network::{TestNetwork, TestNetworkEvent};
pub use crate::state::Role;
pub use crate::worker::{
    build_dht_event, serialize_addresses, DhtEvent, EventRequests, Publication, Worker,
    AUTHORITIES_PRIORITY_GROUP_NAME,
};
