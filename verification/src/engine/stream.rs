//! Hashing a stream chunk by chunk, as files are read: the state remembers the
//! bytes taken in, and the digest of the state is the digest of those bytes, exactly
//! what hashing them in one go gives.

use vstd::prelude::*;
use crate::engine::hasher::{md5_of, xxh64_of, HashAlgorithm, HashValue};

verus! {

/// The streaming xxh64 state of the `xxhash-rust` crate.
#[verifier::external_type_specification]
#[verifier::external_body]
pub struct ExXxh64(xxhash_rust::xxh64::Xxh64);

/// The bytes an xxh64 state has taken in, in order.
pub uninterp spec fn xxh64_absorbed(h: xxhash_rust::xxh64::Xxh64) -> Seq<u8>;

/// A fresh xxh64 state with seed 0: `Xxh64::new(0)`. It has taken in nothing.
#[verifier::external_body]
fn xxh64_start() -> (r: xxhash_rust::xxh64::Xxh64)
    ensures
        xxh64_absorbed(r) == Seq::<u8>::empty(),
{
    xxhash_rust::xxh64::Xxh64::new(0)
}

/// `Xxh64::update`: the state takes in `data` after what it had.
#[verifier::external_body]
fn xxh64_feed(h: &mut xxhash_rust::xxh64::Xxh64, data: &[u8])
    ensures
        xxh64_absorbed(*final(h)) == xxh64_absorbed(*old(h)) + data@,
{
    h.update(data)
}

/// `Xxh64::digest`: the xxh64 (seed 0) of everything taken in, the same value the
/// one-shot function gives for those bytes.
#[verifier::external_body]
fn xxh64_result(h: &xxhash_rust::xxh64::Xxh64) -> (r: u64)
    ensures
        r == xxh64_of(xxh64_absorbed(*h)),
{
    h.digest()
}

/// The streaming MD5 state of the `md-5` crate (`md5::Md5`), held whole: Verus cannot
/// take the declaration of its generic wrapper type.
#[verifier::external_body]
pub struct Md5State {
    inner: md5::Md5,
}

/// The bytes an MD5 state has taken in, in order.
pub uninterp spec fn md5_absorbed(h: Md5State) -> Seq<u8>;

/// A fresh MD5 state: `<Md5 as Digest>::new`. It has taken in nothing.
#[verifier::external_body]
fn md5_start() -> (r: Md5State)
    ensures
        md5_absorbed(r) == Seq::<u8>::empty(),
{
    Md5State { inner: <md5::Md5 as md5::Digest>::new() }
}

/// `<Md5 as Digest>::update`: the state takes in `data` after what it had.
#[verifier::external_body]
fn md5_feed(h: &mut Md5State, data: &[u8])
    ensures
        md5_absorbed(*final(h)) == md5_absorbed(*old(h)) + data@,
{
    <md5::Md5 as md5::Digest>::update(&mut h.inner, data)
}

/// `<Md5 as Digest>::finalize`: the 16-byte MD5 of everything taken in, the same
/// value the one-shot digest gives for those bytes.
#[verifier::external_body]
fn md5_result(h: Md5State) -> (r: [u8; 16])
    ensures
        r@ == md5_of(md5_absorbed(h)),
{
    <md5::Md5 as md5::Digest>::finalize(h.inner).into()
}

/// The hash of `data` by `algorithm`.
pub open spec fn hash_spec(algorithm: HashAlgorithm, data: Seq<u8>, r: HashValue) -> bool {
    match algorithm {
        HashAlgorithm::Xxh64 => r == HashValue::Xxh64(xxh64_of(data)),
        HashAlgorithm::Md5 => r matches HashValue::Md5(b) && b@ == md5_of(data),
    }
}

/// A hash being computed, chunk by chunk.
pub enum Hasher {
    Xxh64(xxhash_rust::xxh64::Xxh64),
    Md5(Md5State),
}

impl Hasher {
    /// The bytes taken in so far.
    pub open spec fn absorbed(&self) -> Seq<u8> {
        match self {
            Hasher::Xxh64(h) => xxh64_absorbed(*h),
            Hasher::Md5(h) => md5_absorbed(*h),
        }
    }

    /// The algorithm of this hasher.
    pub open spec fn algorithm_spec(&self) -> HashAlgorithm {
        match self {
            Hasher::Xxh64(_) => HashAlgorithm::Xxh64,
            Hasher::Md5(_) => HashAlgorithm::Md5,
        }
    }

    /// A hasher for `algorithm` that has taken in nothing.
    pub fn new(algorithm: HashAlgorithm) -> (r: Hasher)
        ensures
            r.algorithm_spec() == algorithm,
            r.absorbed() == Seq::<u8>::empty(),
    {
        match algorithm {
            HashAlgorithm::Xxh64 => Hasher::Xxh64(xxh64_start()),
            HashAlgorithm::Md5 => Hasher::Md5(md5_start()),
        }
    }

    /// The algorithm of this hasher.
    pub fn algorithm(&self) -> (r: HashAlgorithm)
        ensures
            r == self.algorithm_spec(),
    {
        match self {
            Hasher::Xxh64(_) => HashAlgorithm::Xxh64,
            Hasher::Md5(_) => HashAlgorithm::Md5,
        }
    }

    /// Takes in the next chunk.
    pub fn update(&mut self, data: &[u8])
        ensures
            final(self).algorithm_spec() == old(self).algorithm_spec(),
            final(self).absorbed() == old(self).absorbed() + data@,
    {
        match self {
            Hasher::Xxh64(h) => xxh64_feed(h, data),
            Hasher::Md5(h) => md5_feed(h, data),
        }
    }

    /// The hash of everything taken in: the same value as hashing those bytes in one go.
    pub fn finish(self) -> (r: HashValue)
        ensures
            hash_spec(self.algorithm_spec(), self.absorbed(), r),
    {
        match self {
            Hasher::Xxh64(h) => HashValue::Xxh64(xxh64_result(&h)),
            Hasher::Md5(h) => HashValue::Md5(md5_result(h)),
        }
    }
}

} // verus!
