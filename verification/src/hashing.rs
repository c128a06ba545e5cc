//! 256-bit digests and the two hash functions the protocol relies on:
//! SHA-256 for channel identifiers and Keccak-256 for transaction and
//! Merkle hashing.

use vstd::prelude::*;

verus! {

/// A 256-bit digest held as plain bytes.
#[derive(Clone, Copy, Debug, PartialEq, Eq, Hash)]
pub struct Hash256 {
    pub bytes: [u8; 32],
}

impl View for Hash256 {
    type V = Seq<u8>;

    open spec fn view(&self) -> Seq<u8> {
        self.bytes@
    }
}

impl Hash256 {
    /// Wrap 32 digest bytes.
    pub fn new(bytes: [u8; 32]) -> (r: Hash256)
        ensures
            r@ == bytes@,
    {
        Hash256 { bytes }
    }

    /// The all-zero digest, used as a placeholder before a real hash is set.
    pub fn zero() -> (r: Hash256)
        ensures
            r@ == Seq::new(32, |i: int| 0u8),
    {
        let bytes = [0u8; 32];
        assert(bytes@ =~= Seq::new(32, |i: int| 0u8));
        Hash256 { bytes }
    }

    /// Byte-for-byte equality of two digests.
    pub fn equals(&self, other: &Hash256) -> (r: bool)
        ensures
            r == (self@ == other@),
    {
        let mut i: usize = 0;
        while i < 32
            invariant
                i <= 32,
                self@.subrange(0, i as int) =~= other@.subrange(0, i as int),
            decreases 32 - i,
        {
            if self.bytes[i] != other.bytes[i] {
                assert(self@[i as int] != other@[i as int]);
                return false;
            }
            assert(self@.subrange(0, i + 1) =~= other@.subrange(0, i + 1));
            i += 1;
        }
        proof {
            assert(self@ =~= self@.subrange(0, 32));
            assert(other@ =~= other@.subrange(0, 32));
        }
        true
    }
}

/// The Keccak-256 digest of a byte string, as a function of those bytes alone.
pub uninterp spec fn keccak_of(data: Seq<u8>) -> Seq<u8>;

/// The SHA-256 digest of a byte string, as a function of those bytes alone.
pub uninterp spec fn sha256_of(data: Seq<u8>) -> Seq<u8>;

/// Relies on `sha3::Keccak256`: the digest depends on the input bytes alone
/// and is 32 bytes long.
#[verifier::external_body]
pub fn keccak256(data: &[u8]) -> (r: Hash256)
    ensures
        r@ == keccak_of(data@),
{
    let mut hasher = <sha3::Keccak256 as sha3::Digest>::new();
    sha3::Digest::update(&mut hasher, data);
    Hash256 { bytes: sha3::Digest::finalize(hasher).into() }
}

/// Relies on `sha2::Sha256`: the digest depends on the input bytes alone
/// and is 32 bytes long.
#[verifier::external_body]
pub fn sha256(data: &[u8]) -> (r: [u8; 32])
    ensures
        r@ == sha256_of(data@),
{
    let mut hasher = <sha2::Sha256 as sha2::Digest>::new();
    sha2::Digest::update(&mut hasher, data);
    sha2::Digest::finalize(hasher).into()
}

} // verus!
