//! Counters and the gauge that the worker keeps of its own work.

use crate::error::Error;
use vstd::prelude::*;

verus! {

/// What the worker counts. A counter that reached `u64::MAX` stays there.
#[derive(Clone, Copy, Debug, PartialEq, Eq, Structural)]
pub struct Metrics {
    /// Gauge: the number of authorities that wait for a lookup.
    pub requests_pending: u64,
    /// Records handed to the DHT.
    pub dht_puts: u64,
    /// Lookups sent out.
    pub dht_gets_issued: u64,
    /// Lookups that ended with a record that was taken into the cache.
    pub dht_gets_succeeded: u64,
    /// Lookups for which the DHT found no value.
    pub dht_gets_failed: u64,
    /// Notifications of found values that were handled.
    pub handled_value_found_events: u64,
    /// Values under a key that no lookup in flight asked for.
    pub bogus_values: u64,
    /// Records whose signature did not verify.
    pub signature_check_failures: u64,
    /// Records whose bytes could not be read.
    pub encoding_failures: u64,
    /// Publications for which the keystore gave no signature.
    pub signing_failures: u64,
}

/// A counter after `n` more events.
pub open spec fn counted(counter: u64, n: nat) -> u64 {
    if counter + n <= u64::MAX {
        (counter + n) as u64
    } else {
        u64::MAX
    }
}

/// The value of a gauge that shows `n`.
pub open spec fn gauge(n: nat) -> u64 {
    if n <= u64::MAX {
        n as u64
    } else {
        u64::MAX
    }
}

/// A counter after `n` more events.
pub fn count(counter: u64, n: usize) -> (r: u64)
    ensures
        r == counted(counter, n as nat),
{
    let n: u64 = n as u64;
    if counter <= u64::MAX - n {
        counter + n
    } else {
        u64::MAX
    }
}

impl Metrics {
    /// All counters at zero.
    pub open spec fn zero() -> Metrics {
        Metrics {
            requests_pending: 0,
            dht_puts: 0,
            dht_gets_issued: 0,
            dht_gets_succeeded: 0,
            dht_gets_failed: 0,
            handled_value_found_events: 0,
            bogus_values: 0,
            signature_check_failures: 0,
            encoding_failures: 0,
            signing_failures: 0,
        }
    }

    /// The metrics after a record was discarded for the reason `error`:
    /// unreadable bytes and a failed signature check have a counter each, and
    /// so has a value that nobody asked for.
    pub open spec fn discarded(self, error: Error) -> Metrics {
        match error {
            Error::Decoding | Error::SchemaMismatch => Metrics {
                encoding_failures: counted(self.encoding_failures, 1),
                ..self
            },
            Error::SignatureCheck => Metrics {
                signature_check_failures: counted(self.signature_check_failures, 1),
                ..self
            },
            Error::BogusEvent => Metrics { bogus_values: counted(self.bogus_values, 1), ..self },
            Error::KeystoreSigning => Metrics {
                signing_failures: counted(self.signing_failures, 1),
                ..self
            },
            Error::NetworkAcceptRefusal => self,
        }
    }

    /// All counters at zero.
    pub fn new() -> (r: Metrics)
        ensures
            r == Metrics::zero(),
    {
        Metrics {
            requests_pending: 0,
            dht_puts: 0,
            dht_gets_issued: 0,
            dht_gets_succeeded: 0,
            dht_gets_failed: 0,
            handled_value_found_events: 0,
            bogus_values: 0,
            signature_check_failures: 0,
            encoding_failures: 0,
            signing_failures: 0,
        }
    }

    /// Counts a record that was discarded for the reason `error`.
    pub fn discard(&mut self, error: Error)
        ensures
            *final(self) == old(self).discarded(error),
    {
        match error {
            Error::Decoding | Error::SchemaMismatch => {
                self.encoding_failures = count(self.encoding_failures, 1);
            },
            Error::SignatureCheck => {
                self.signature_check_failures = count(self.signature_check_failures, 1);
            },
            Error::BogusEvent => {
                self.bogus_values = count(self.bogus_values, 1);
            },
            Error::KeystoreSigning => {
                self.signing_failures = count(self.signing_failures, 1);
            },
            Error::NetworkAcceptRefusal => {},
        }
    }
}

} // verus!
