//! Hash algorithms and hash values.
//!
//! xxh64 is the default (fast; corruption detection, not a defence against an
//! attacker); MD5 is kept for users who need it for compatibility.

use vstd::prelude::*;
use crate::engine::stream::Hasher;
use crate::text::{hex_pad, push_hex_pad};

verus! {

/// A hash algorithm.
#[derive(Debug, Clone, Copy, PartialEq, Eq, Structural)]
pub enum HashAlgorithm {
    Xxh64,
    Md5,
}

impl HashAlgorithm {
    /// The algorithm's identifier, as written in manifests: `xxh64` or `md5`.
    pub fn id(self) -> (r: &'static str)
        ensures
            r@ == (match self { HashAlgorithm::Xxh64 => "xxh64"@, HashAlgorithm::Md5 => "md5"@ }),
    {
        match self {
            HashAlgorithm::Xxh64 => "xxh64",
            HashAlgorithm::Md5 => "md5",
        }
    }
}

impl Default for HashAlgorithm {
    /// xxh64.
    fn default() -> (r: HashAlgorithm)
        ensures
            r == HashAlgorithm::Xxh64,
    {
        HashAlgorithm::Xxh64
    }
}

/// A hash value, tagged with its algorithm.
#[derive(Debug, Clone, Copy, PartialEq, Eq, Hash)]
pub enum HashValue {
    Xxh64(u64),
    Md5([u8; 16]),
}

/// The lowercase hexadecimal text of a byte string, two digits per byte.
pub open spec fn bytes_hex(b: Seq<u8>) -> Seq<char>
    decreases b.len(),
{
    if b.len() == 0 {
        Seq::empty()
    } else {
        bytes_hex(b.drop_last()) + hex_pad(b.last() as nat, 2)
    }
}

/// The text of a hash value: xxh64 as 16 hexadecimal digits (big-endian), MD5 as 32.
pub open spec fn hash_hex(h: HashValue) -> Seq<char> {
    match h {
        HashValue::Xxh64(v) => hex_pad(v as nat, 16),
        HashValue::Md5(b) => bytes_hex(b@),
    }
}

/// What xxh64 with seed 0 gives for these bytes (named by the streaming digest).
pub uninterp spec fn xxh64_of(data: Seq<u8>) -> u64;

/// What MD5 gives for these bytes (named by the streaming digest).
pub uninterp spec fn md5_of(data: Seq<u8>) -> Seq<u8>;

/// Two hash values are the same hash: same algorithm and same digest.
pub open spec fn same_hash(x: HashValue, y: HashValue) -> bool {
    match x {
        HashValue::Xxh64(a) => match y {
            HashValue::Xxh64(b) => a == b,
            HashValue::Md5(_) => false,
        },
        HashValue::Md5(a) => match y {
            HashValue::Xxh64(_) => false,
            HashValue::Md5(b) => a@ == b@,
        },
    }
}

/// Hashes of two different algorithms never count as the same, whatever their digits.
pub proof fn lemma_algorithms_never_match(x: HashValue, y: HashValue)
    requires
        x is Xxh64 != y is Xxh64,
    ensures
        !same_hash(x, y),
        !same_hash(y, x),
{
}

impl HashValue {
    /// The algorithm that made this value.
    pub fn algorithm(&self) -> (r: HashAlgorithm)
        ensures
            r == (match self { HashValue::Xxh64(_) => HashAlgorithm::Xxh64, HashValue::Md5(_) => HashAlgorithm::Md5 }),
    {
        match self {
            HashValue::Xxh64(_) => HashAlgorithm::Xxh64,
            HashValue::Md5(_) => HashAlgorithm::Md5,
        }
    }

    /// The lowercase hexadecimal text of the value.
    pub fn to_hex(&self) -> (r: String)
        ensures
            r@ == hash_hex(*self),
    {
        let mut s = String::new();
        match self {
            HashValue::Xxh64(v) => {
                push_hex_pad(&mut s, *v, 16);
                proof {
                    assert(s@ =~= hex_pad(*v as nat, 16));
                }
            },
            HashValue::Md5(b) => {
                let mut i: usize = 0;
                while i < 16
                    invariant
                        i <= 16,
                        b@.len() == 16,
                        s@ == bytes_hex(b@.take(i as int)),
                    decreases 16 - i,
                {
                    proof {
                        assert(b@.take(i + 1).drop_last() =~= b@.take(i as int));
                        assert(b@.take(i + 1).last() == b@[i as int]);
                    }
                    push_hex_pad(&mut s, b[i] as u64, 2);
                    i = i + 1;
                }
                proof {
                    assert(b@.take(16) =~= b@);
                }
            },
        }
        s
    }

    /// Whether two values are the same hash: same algorithm and same digest.
    pub fn matches(&self, other: &HashValue) -> (r: bool)
        ensures
            r == same_hash(*self, *other),
    {
        match self {
            HashValue::Xxh64(a) => match other {
                HashValue::Xxh64(b) => *a == *b,
                HashValue::Md5(_) => false,
            },
            HashValue::Md5(a) => match other {
                HashValue::Xxh64(_) => false,
                HashValue::Md5(b) => {
                    let mut i: usize = 0;
                    while i < 16
                        invariant
                            i <= 16,
                            a@.len() == 16,
                            b@.len() == 16,
                            *self == HashValue::Md5(*a),
                            *other == HashValue::Md5(*b),
                            forall|k: int| 0 <= k < i ==> a@[k] == b@[k],
                        decreases 16 - i,
                    {
                        if a[i] != b[i] {
                            proof {
                                assert(a@[i as int] != b@[i as int]);
                            }
                            return false;
                        }
                        i = i + 1;
                    }
                    proof {
                        assert(a@ =~= b@);
                    }
                    true
                },
            },
        }
    }
}

/// The hash of `data` by `algorithm`, in one go (one chunk through the streaming
/// hasher).
pub fn hash_bytes(algorithm: HashAlgorithm, data: &[u8]) -> (r: HashValue)
    ensures
        match algorithm {
            HashAlgorithm::Xxh64 => r == HashValue::Xxh64(xxh64_of(data@)),
            HashAlgorithm::Md5 => r matches HashValue::Md5(b) && b@ == md5_of(data@),
        },
{
    let mut h = Hasher::new(algorithm);
    h.update(data);
    proof {
        assert(Seq::<u8>::empty() + data@ =~= data@);
    }
    h.finish()
}

} // verus!
