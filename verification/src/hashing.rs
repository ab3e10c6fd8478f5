//! Incremental hash states, one per algorithm, backed by the `sha2` crate.
//!
//! The mathematical digest functions are named, not written out: each
//! `uninterp` spec function below stands for the result of the corresponding
//! hash function on a byte sequence, and the trusted wrappers relate the
//! live hasher states to those names.

use vstd::prelude::*;
use crate::algorithm::Algorithm;

verus! {

/// The SHA-224 digest of a byte sequence, as computed by the `sha2` crate.
pub uninterp spec fn sha224_digest(data: Seq<u8>) -> Seq<u8>;

/// The SHA-256 digest of a byte sequence, as computed by the `sha2` crate.
pub uninterp spec fn sha256_digest(data: Seq<u8>) -> Seq<u8>;

/// The SHA-384 digest of a byte sequence, as computed by the `sha2` crate.
pub uninterp spec fn sha384_digest(data: Seq<u8>) -> Seq<u8>;

/// The SHA-512 digest of a byte sequence, as computed by the `sha2` crate.
pub uninterp spec fn sha512_digest(data: Seq<u8>) -> Seq<u8>;

/// The digest of `data` under algorithm `a`.
pub open spec fn spec_digest(a: Algorithm, data: Seq<u8>) -> Seq<u8> {
    match a {
        Algorithm::Sha224 => sha224_digest(data),
        Algorithm::Sha256 => sha256_digest(data),
        Algorithm::Sha384 => sha384_digest(data),
        Algorithm::Sha512 => sha512_digest(data),
    }
}

/// A live incremental hash state of one of the supported algorithms.
///
/// The state is opaque; `state_alg` names the algorithm it was created for
/// and `state_fed` the bytes it has processed so far.
#[verifier::external_body]
pub struct HashState {
    inner: Box<dyn sha2::digest::DynDigest>,
}

/// The algorithm a hash state was created for.
pub uninterp spec fn state_alg(h: HashState) -> Algorithm;

/// The bytes a hash state has processed so far.
pub uninterp spec fn state_fed(h: HashState) -> Seq<u8>;

/// Relies on `sha2::Sha224::new` (via the `Digest` trait): a fresh hasher
/// has processed no bytes.
#[verifier::external_body]
fn new_sha224() -> (h: HashState)
    ensures
        state_alg(h) == Algorithm::Sha224,
        state_fed(h) == Seq::<u8>::empty(),
{
    HashState { inner: Box::new(<sha2::Sha224 as sha2::Digest>::new()) }
}

/// Relies on `sha2::Sha256::new` (via the `Digest` trait): a fresh hasher
/// has processed no bytes.
#[verifier::external_body]
fn new_sha256() -> (h: HashState)
    ensures
        state_alg(h) == Algorithm::Sha256,
        state_fed(h) == Seq::<u8>::empty(),
{
    HashState { inner: Box::new(<sha2::Sha256 as sha2::Digest>::new()) }
}

/// Relies on `sha2::Sha384::new` (via the `Digest` trait): a fresh hasher
/// has processed no bytes.
#[verifier::external_body]
fn new_sha384() -> (h: HashState)
    ensures
        state_alg(h) == Algorithm::Sha384,
        state_fed(h) == Seq::<u8>::empty(),
{
    HashState { inner: Box::new(<sha2::Sha384 as sha2::Digest>::new()) }
}

/// Relies on `sha2::Sha512::new` (via the `Digest` trait): a fresh hasher
/// has processed no bytes.
#[verifier::external_body]
fn new_sha512() -> (h: HashState)
    ensures
        state_alg(h) == Algorithm::Sha512,
        state_fed(h) == Seq::<u8>::empty(),
{
    HashState { inner: Box::new(<sha2::Sha512 as sha2::Digest>::new()) }
}

/// Relies on `digest::DynDigest::update`: appends the data to the stream
/// the hasher has processed, and changes nothing else.
#[verifier::external_body]
fn state_update(h: &mut HashState, data: &[u8])
    ensures
        state_alg(*final(h)) == state_alg(*old(h)),
        state_fed(*final(h)) == state_fed(*old(h)) + data@,
{
    h.inner.update(data);
}

/// Relies on `digest::DynDigest::box_clone` (`Clone` for boxed hashers):
/// the clone carries the same algorithm and the same processed bytes.
#[verifier::external_body]
fn state_clone(h: &HashState) -> (r: HashState)
    ensures
        state_alg(r) == state_alg(*h),
        state_fed(r) == state_fed(*h),
{
    HashState { inner: h.inner.clone() }
}

/// Relies on `digest::DynDigest::finalize`: returns the digest of all
/// processed bytes, at the algorithm's fixed output size.
#[verifier::external_body]
fn state_finalize(h: HashState) -> (r: Vec<u8>)
    ensures
        state_alg(h) == Algorithm::Sha224 ==> r@ == sha224_digest(state_fed(h)),
        state_alg(h) == Algorithm::Sha256 ==> r@ == sha256_digest(state_fed(h)),
        state_alg(h) == Algorithm::Sha384 ==> r@ == sha384_digest(state_fed(h)),
        state_alg(h) == Algorithm::Sha512 ==> r@ == sha512_digest(state_fed(h)),
        r@.len() == state_alg(h).spec_digest_len(),
{
    h.inner.finalize().to_vec()
}

/// One incremental hasher together with the algorithm it computes.
pub struct Hasher {
    alg: Algorithm,
    state: HashState,
}

impl Hasher {
    /// The stored algorithm tag matches the live state.
    pub closed spec fn wf(self) -> bool {
        state_alg(self.state) == self.alg
    }

    /// The algorithm this hasher computes.
    pub closed spec fn spec_alg(self) -> Algorithm {
        self.alg
    }

    /// The bytes fed to this hasher so far.
    pub closed spec fn fed(self) -> Seq<u8> {
        state_fed(self.state)
    }

    /// A fresh hasher for `a` that has seen no bytes.
    pub fn new(a: Algorithm) -> (h: Hasher)
        ensures
            h.wf(),
            h.spec_alg() == a,
            h.fed() == Seq::<u8>::empty(),
    {
        let state = match a {
            Algorithm::Sha224 => new_sha224(),
            Algorithm::Sha256 => new_sha256(),
            Algorithm::Sha384 => new_sha384(),
            Algorithm::Sha512 => new_sha512(),
        };
        Hasher { alg: a, state }
    }

    pub fn alg(&self) -> (a: Algorithm)
        ensures
            a == self.spec_alg(),
    {
        self.alg
    }

    /// Feed `data` to the hasher.
    pub fn update(&mut self, data: &[u8])
        requires
            old(self).wf(),
        ensures
            final(self).wf(),
            final(self).spec_alg() == old(self).spec_alg(),
            final(self).fed() == old(self).fed() + data@,
    {
        state_update(&mut self.state, data);
    }

    /// The digest of everything fed so far; the hasher stays usable.
    pub fn digest(&self) -> (r: Vec<u8>)
        requires
            self.wf(),
        ensures
            r@ == spec_digest(self.spec_alg(), self.fed()),
            r@.len() == self.spec_alg().spec_digest_len(),
    {
        let snapshot = state_clone(&self.state);
        state_finalize(snapshot)
    }
}

} // verus!
