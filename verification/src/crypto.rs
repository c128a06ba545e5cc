//! Ed25519 key material, signatures, and (partial) multi-signature
//! verification with strict positional semantics.

use vstd::prelude::*;

verus! {

/// The outcome of Ed25519 verification, as a function of the 32-byte key
/// encoding, the 64-byte signature encoding and the message alone.
pub uninterp spec fn ed_verify(public_key: Seq<u8>, signature: Seq<u8>, message: Seq<u8>) -> bool;

/// The Ed25519 signature produced from a 32-byte seed and a message; RFC 8032
/// signing is deterministic, so this is a function of the two alone.
pub uninterp spec fn ed_sign(secret: Seq<u8>, message: Seq<u8>) -> Seq<u8>;

/// The 32-byte verifying key derived from a 32-byte seed.
pub uninterp spec fn ed_public_of(secret: Seq<u8>) -> Seq<u8>;

/// 32-byte Ed25519 verifying-key encoding. Two keys are equal iff their
/// encodings are; the lexicographic order of the encodings is the canonical
/// participant order.
#[derive(Clone, Copy, Debug, PartialEq, Eq, Hash)]
pub struct PublicKey {
    pub bytes: [u8; 32],
}

impl View for PublicKey {
    type V = Seq<u8>;

    open spec fn view(&self) -> Seq<u8> {
        self.bytes@
    }
}

impl PublicKey {
    /// The stable 32-byte encoding of this key.
    pub fn as_bytes(&self) -> (r: [u8; 32])
        ensures
            r@ == self@,
    {
        self.bytes
    }

    /// Byte-for-byte equality of two keys.
    pub fn equals(&self, other: &PublicKey) -> (r: bool)
        ensures
            r == (self@ == other@),
    {
        let mut i: usize = 0;
        while i < 32
            invariant
                i <= 32,
                self@.subrange(0, i as int) =~= other@.subrange(0, i as int),
            decreases 32 - i,
        {
            if self.bytes[i] != other.bytes[i] {
                assert(self@[i as int] != other@[i as int]);
                return false;
            }
            assert(self@.subrange(0, i + 1) =~= other@.subrange(0, i + 1));
            i += 1;
        }
        proof {
            assert(self@ =~= self@.subrange(0, 32));
            assert(other@ =~= other@.subrange(0, 32));
        }
        true
    }

    /// Relies on `ed25519_dalek::VerifyingKey::{from_bytes, verify}`: the
    /// outcome depends only on the key encoding, the signature encoding and
    /// the message; a key encoding that does not parse verifies nothing.
    #[verifier::external_body]
    pub fn verify_signature(&self, signature: &Signature, message: &[u8]) -> (r: bool)
        ensures
            r == ed_verify(self@, signature@, message@),
    {
        match ed25519_dalek::VerifyingKey::from_bytes(&self.bytes) {
            Ok(vk) => {
                let sig = ed25519_dalek::Signature::from_bytes(&signature.bytes);
                ed25519_dalek::Verifier::verify(&vk, message, &sig).is_ok()
            }
            Err(_) => false,
        }
    }
}

/// 64-byte Ed25519 signature encoding. No structural validity is implied;
/// cryptographic validity is decided at verification time.
#[derive(Clone, Copy, Debug, PartialEq, Eq)]
pub struct Signature {
    pub bytes: [u8; 64],
}

impl View for Signature {
    type V = Seq<u8>;

    open spec fn view(&self) -> Seq<u8> {
        self.bytes@
    }
}

/// Why a cryptographic check failed.
#[derive(Clone, Copy, Debug, PartialEq, Eq, Structural)]
pub enum CryptoError {
    InvalidSignature,
    KeyParseError,
    VerificationFailed,
}

/// An Ed25519 keypair: the RFC 8032 seed and the verifying key derived
/// from it.
#[derive(Clone)]
pub struct KeyPair {
    pub signing_key: [u8; 32],
    pub verifying_key: PublicKey,
}

impl KeyPair {
    /// The verifying key really is the one derived from the seed.
    pub open spec fn wf(self) -> bool {
        self.verifying_key@ == ed_public_of(self.signing_key@)
    }

    /// The verifying key of this pair.
    pub fn public_key(&self) -> (r: PublicKey)
        ensures
            r == self.verifying_key,
    {
        PublicKey { bytes: self.verifying_key.bytes }
    }

    /// Relies on `ed25519_dalek::SigningKey::{from_bytes, sign}`: RFC 8032
    /// signing is deterministic in seed and message, and the signature it
    /// produces verifies under the derived verifying key.
    #[verifier::external_body]
    pub fn sign(&self, message: &[u8]) -> (r: Signature)
        ensures
            r@ == ed_sign(self.signing_key@, message@),
            ed_verify(ed_public_of(self.signing_key@), r@, message@),
    {
        let sk = ed25519_dalek::SigningKey::from_bytes(&self.signing_key);
        Signature { bytes: ed25519_dalek::Signer::sign(&sk, message).to_bytes() }
    }
}

/// Relies on `rand::rngs::OsRng`: 32 bytes from the operating system's
/// secure generator; nothing is promised of which bytes come back.
#[verifier::external_body]
fn os_random_seed() -> (r: [u8; 32]) {
    let mut rng = rand::rngs::OsRng;
    let mut seed = [0u8; 32];
    rand::RngCore::fill_bytes(&mut rng, &mut seed);
    seed
}

/// Relies on `ed25519_dalek::SigningKey::{from_bytes, verifying_key}`: the
/// verifying key is a function of the seed alone.
#[verifier::external_body]
fn derive_verifying_key(seed: &[u8; 32]) -> (r: [u8; 32])
    ensures
        r@ == ed_public_of(seed@),
{
    ed25519_dalek::SigningKey::from_bytes(seed).verifying_key().to_bytes()
}

/// Generate a fresh keypair from the system's secure generator.
pub fn generate_keypair() -> (r: KeyPair)
    ensures
        r.wf(),
{
    let seed = os_random_seed();
    let vk = derive_verifying_key(&seed);
    KeyPair { signing_key: seed, verifying_key: PublicKey { bytes: vk } }
}

/// Every listed signature verifies positionally: `signatures[i]` under
/// `participants[i]` over `message`.
pub open spec fn multisig_valid(
    signatures: Seq<Signature>,
    participants: Seq<PublicKey>,
    message: Seq<u8>,
) -> bool {
    forall|i: int|
        0 <= i < participants.len() ==> ed_verify(participants[i]@, signatures[i]@, message)
}

/// Verify one signature per participant, positionally.
pub fn verify_multisig(
    signatures: &Vec<Signature>,
    participants: &Vec<PublicKey>,
    message: &[u8],
) -> (r: Result<(), CryptoError>)
    ensures
        r is Ok <==> signatures@.len() == participants@.len() && multisig_valid(
            signatures@,
            participants@,
            message@,
        ),
        r is Err ==> r == Result::<(), CryptoError>::Err(CryptoError::VerificationFailed),
{
    if signatures.len() != participants.len() {
        return Err(CryptoError::VerificationFailed);
    }
    let n = participants.len();
    let mut i: usize = 0;
    while i < n
        invariant
            i <= n,
            n == participants@.len() == signatures@.len(),
            forall|j: int| 0 <= j < i ==> ed_verify(participants@[j]@, signatures@[j]@, message@),
        decreases n - i,
    {
        if !participants[i].verify_signature(&signatures[i], message) {
            return Err(CryptoError::VerificationFailed);
        }
        i += 1;
    }
    Ok(())
}

/// Whether the encoding `k` occurs among `keys`.
pub open spec fn key_in(keys: Seq<PublicKey>, k: Seq<u8>) -> bool {
    exists|j: int| 0 <= j < keys.len() && keys[j]@ == k
}

/// Every affected participant is one of the channel's participants.
pub open spec fn affected_all_known(
    all_participants: Seq<PublicKey>,
    affected: Seq<PublicKey>,
) -> bool {
    forall|i: int| 0 <= i < affected.len() ==> key_in(all_participants, #[trigger] affected[i]@)
}

/// Whether `key` occurs in `keys`, compared by encoding.
pub fn contains_key(keys: &Vec<PublicKey>, key: &PublicKey) -> (r: bool)
    ensures
        r == key_in(keys@, key@),
{
    let n = keys.len();
    let mut i: usize = 0;
    while i < n
        invariant
            i <= n,
            n == keys@.len(),
            forall|j: int| 0 <= j < i ==> keys@[j]@ != key@,
        decreases n - i,
    {
        if keys[i].equals(key) {
            return true;
        }
        i += 1;
    }
    false
}

/// The position of `key` in `keys`, compared by encoding.
pub fn find_key(keys: &Vec<PublicKey>, key: &PublicKey) -> (r: Option<usize>)
    ensures
        r matches Some(i) ==> 0 <= i < keys@.len() && keys@[i as int]@ == key@,
        r is Some <==> key_in(keys@, key@),
{
    let n = keys.len();
    let mut i: usize = 0;
    while i < n
        invariant
            i <= n,
            n == keys@.len(),
            forall|j: int| 0 <= j < i ==> (#[trigger] keys@[j])@ != key@,
        decreases n - i,
    {
        if keys[i].equals(key) {
            return Some(i);
        }
        i += 1;
    }
    None
}

/// Verify signatures from a named subset of participants, positionally:
/// `signatures[i]` must verify under `affected_participants[i]`. Fails when
/// the counts differ, when an affected participant is unknown, or when any
/// single signature does not verify.
pub fn verify_partial_multisig(
    signatures: &Vec<Signature>,
    all_participants: &Vec<PublicKey>,
    affected_participants: &Vec<PublicKey>,
    message: &[u8],
) -> (r: Result<(), CryptoError>)
    ensures
        r is Ok <==> signatures@.len() == affected_participants@.len() && affected_all_known(
            all_participants@,
            affected_participants@,
        ) && multisig_valid(signatures@, affected_participants@, message@),
        r is Err ==> r == Result::<(), CryptoError>::Err(CryptoError::VerificationFailed),
{
    if signatures.len() != affected_participants.len() {
        return Err(CryptoError::VerificationFailed);
    }
    let n = affected_participants.len();
    let mut i: usize = 0;
    while i < n
        invariant
            i <= n,
            n == affected_participants@.len(),
            forall|k: int|
                0 <= k < i ==> key_in(all_participants@, #[trigger] affected_participants@[k]@),
        decreases n - i,
    {
        if !contains_key(all_participants, &affected_participants[i]) {
            return Err(CryptoError::VerificationFailed);
        }
        i += 1;
    }
    assert(affected_all_known(all_participants@, affected_participants@));
    let mut i: usize = 0;
    while i < n
        invariant
            i <= n,
            n == affected_participants@.len() == signatures@.len(),
            affected_all_known(all_participants@, affected_participants@),
            forall|j: int|
                0 <= j < i ==> ed_verify(
                    affected_participants@[j]@,
                    signatures@[j]@,
                    message@,
                ),
        decreases n - i,
    {
        if !affected_participants[i].verify_signature(&signatures[i], message) {
            return Err(CryptoError::VerificationFailed);
        }
        i += 1;
    }
    Ok(())
}

} // verus!
