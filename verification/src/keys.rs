//! Authority keys, the DHT keys derived from them, and signatures over records.

use sha2::Digest;
use sp_core::sr25519;
use sp_core::Pair;
use vstd::prelude::*;

verus! {

/// Length of a record key in bytes.
pub const RECORD_KEY_LENGTH: usize = 32;

/// The SHA-256 digest of `data`.
pub uninterp spec fn sha2_256(data: Seq<u8>) -> Seq<u8>;

/// Whether `signature` is an sr25519 signature of `message` under the public
/// key `public`, in the signing context that the chain's keys use.
pub uninterp spec fn sr25519_verifies(
    signature: Seq<u8>,
    message: Seq<u8>,
    public: Seq<u8>,
) -> bool;

/// `sha2::Sha256::digest`: the SHA-256 digest of `data`, which has 32 bytes.
/// Nothing else is claimed of the digest.
#[verifier::external_body]
fn sha2_256_digest(data: &[u8]) -> (digest: Vec<u8>)
    ensures
        digest@ == sha2_256(data@),
        digest@.len() == RECORD_KEY_LENGTH,
{
    sha2::Sha256::digest(data).to_vec()
}

/// `sp_core::sr25519::Pair::verify`, with the signature and the public key
/// read from raw bytes: the answer depends on the three byte strings alone,
/// and is `false` where the signature has not 64 bytes or the key not 32.
#[verifier::external_body]
fn sr25519_verify(signature: &[u8], message: &[u8], public: &[u8]) -> (ok: bool)
    ensures
        ok == sr25519_verifies(signature@, message@, public@),
{
    match (sr25519::Signature::try_from(signature), sr25519::Public::try_from(public)) {
        (Ok(signature), Ok(public)) => sr25519::Pair::verify(&signature, message, &public),
        _ => false,
    }
}

/// Whether two byte strings are equal.
pub fn bytes_equal(a: &[u8], b: &[u8]) -> (r: bool)
    ensures
        r == (a@ == b@),
{
    if a.len() != b.len() {
        return false;
    }
    let mut i: usize = 0;
    while i < a.len()
        invariant
            i <= a.len(),
            a.len() == b.len(),
            a@.take(i as int) == b@.take(i as int),
        decreases a.len() - i,
    {
        if a[i] != b[i] {
            return false;
        }
        proof {
            assert(a@.take(i + 1) =~= a@.take(i as int).push(a@[i as int]));
            assert(b@.take(i + 1) =~= b@.take(i as int).push(b@[i as int]));
        }
        i += 1;
    }
    proof {
        assert(a@.take(i as int) =~= a@);
        assert(b@.take(i as int) =~= b@);
    }
    true
}

/// Public key of a consensus authority, as raw bytes.
#[derive(Debug, PartialEq, Eq, Hash)]
pub struct AuthorityId(pub Vec<u8>);

/// Key of the DHT under which the record of one authority lives.
#[derive(Debug, PartialEq, Eq, Hash)]
pub struct RecordKey(pub Vec<u8>);

impl View for AuthorityId {
    type V = Seq<u8>;

    open spec fn view(&self) -> Seq<u8> {
        self.0@
    }
}

impl View for RecordKey {
    type V = Seq<u8>;

    open spec fn view(&self) -> Seq<u8> {
        self.0@
    }
}

impl Clone for AuthorityId {
    fn clone(&self) -> (r: Self)
        ensures
            r@ == self@,
    {
        AuthorityId(self.0.clone())
    }
}

impl Clone for RecordKey {
    fn clone(&self) -> (r: Self)
        ensures
            r@ == self@,
    {
        RecordKey(self.0.clone())
    }
}

impl AuthorityId {
    /// Whether this is the key `other`.
    pub fn same(&self, other: &AuthorityId) -> (r: bool)
        ensures
            r == (self@ == other@),
    {
        bytes_equal(self.0.as_slice(), other.0.as_slice())
    }
}

impl RecordKey {
    /// Whether this is the key `other`.
    pub fn same(&self, other: &RecordKey) -> (r: bool)
        ensures
            r == (self@ == other@),
    {
        bytes_equal(self.0.as_slice(), other.0.as_slice())
    }
}

/// The DHT key of the authority with the raw public key `public`.
pub open spec fn record_key(public: Seq<u8>) -> Seq<u8> {
    sha2_256(public)
}

/// The key of the DHT under which the record of the authority with the raw
/// public key `id` lives: the SHA-256 digest of `id`.
pub fn hash_authority_id(id: &[u8]) -> (key: RecordKey)
    ensures
        key@ == record_key(id@),
        key@.len() == RECORD_KEY_LENGTH,
{
    RecordKey(sha2_256_digest(id))
}

/// Whether `signature` is the signature of the authority `authority` over `message`.
pub fn verify_signature(signature: &[u8], message: &[u8], authority: &AuthorityId) -> (ok: bool)
    ensures
        ok == sr25519_verifies(signature@, message@, authority@),
{
    sr25519_verify(signature, message, authority.0.as_slice())
}

} // verus!
