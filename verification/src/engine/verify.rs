//! Verifying a destination: the file is read back (by the application, unbuffered)
//! and hashed with the algorithm of the expected value; it passes only when the two
//! hashes are the same. A read failure is an error, never a pass.

use vstd::prelude::*;
use crate::engine::hasher::{same_hash, HashAlgorithm, HashValue};
use crate::engine::stream::Hasher;

verus! {

/// The result of reading a destination back.
#[derive(Debug, Clone, PartialEq, Eq)]
pub enum VerifyOutcome {
    /// Same hash as the source.
    Match,
    /// Another hash; the value read back is kept.
    Mismatch { actual: HashValue },
}

impl VerifyOutcome {
    /// Whether the destination matched.
    pub fn is_match(&self) -> (r: bool)
        ensures
            r == (*self is Match),
    {
        match self {
            VerifyOutcome::Match => true,
            VerifyOutcome::Mismatch { .. } => false,
        }
    }
}

/// The hasher for reading a destination back: the algorithm of the expected value.
pub fn destination_hasher(expected: &HashValue) -> (r: Hasher)
    ensures
        r.algorithm_spec() == (match *expected { HashValue::Xxh64(_) => HashAlgorithm::Xxh64, HashValue::Md5(_) => HashAlgorithm::Md5 }),
        r.absorbed() == Seq::<u8>::empty(),
{
    Hasher::new(expected.algorithm())
}

/// The verdict on a destination, from the hash read back and the expected one.
pub fn judge(actual: HashValue, expected: &HashValue) -> (r: VerifyOutcome)
    ensures
        r is Match <==> same_hash(actual, *expected),
        !same_hash(actual, *expected) ==> r == (VerifyOutcome::Mismatch { actual }),
{
    if actual.matches(expected) {
        VerifyOutcome::Match
    } else {
        VerifyOutcome::Mismatch { actual }
    }
}

} // verus!
