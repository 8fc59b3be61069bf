//! Reasons for which the worker discards a record or skips a publication.

use vstd::prelude::*;

verus! {

/// Why an operation of the worker did not go through. None of these is fatal.
#[derive(Clone, Copy, Debug, PartialEq, Eq, Structural)]
pub enum Error {
    /// The bytes are not a well-formed record on the wire.
    Decoding,
    /// A field of the record schema arrived with a wire type other than its own.
    SchemaMismatch,
    /// The signature of a record does not verify under the authority it was looked up for.
    SignatureCheck,
    /// The keystore did not produce a signature.
    KeystoreSigning,
    /// The network refused the priority group.
    NetworkAcceptRefusal,
    /// A notification of the DHT names a key that no lookup in flight asked for.
    BogusEvent,
}

} // verus!
