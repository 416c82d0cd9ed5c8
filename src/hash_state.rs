//! The per-table secret keys and the keyed hash computed from them.
use vstd::prelude::*;

verus! {

/// The SipHash-2-4 digest of `bytes` under the key pair `(k0, k1)`.
pub uninterp spec fn sip_digest(k0: u64, k1: u64, bytes: Seq<u8>) -> u64;

#[verifier::external_type_specification]
#[verifier::external_body]
pub struct ExOsRng(rand::OsRng);

/// Relies on `rand::OsRng::new`: opens the operating system's secure random
/// source. There is no table without one, so its absence is fatal here.
#[verifier::external_body]
fn open_os_rng() -> (r: rand::OsRng) {
    rand::OsRng::new().expect("no secure random source to seed the hash keys")
}

/// Relies on `<rand::OsRng as rand::Rng>::next_u64`: a fresh random word.
/// Like `rand::OsRng::new`, it fails fatally where the source breaks down.
#[verifier::external_body]
fn next_random_u64(rng: &mut rand::OsRng) -> (r: u64) {
    rand::Rng::next_u64(rng)
}

/// Relies on `std::hash::SipHasher::new_with_keys`, `write` and `finish`:
/// the SipHash-2-4 digest of the bytes, which depends on the keys and the
/// bytes alone.
#[verifier::external_body]
#[allow(deprecated)]
fn sip_hash(k0: u64, k1: u64, bytes: &[u8]) -> (r: u64)
    ensures
        r == sip_digest(k0, k1, bytes@),
{
    let mut hasher = std::hash::SipHasher::new_with_keys(k0, k1);
    std::hash::Hasher::write(&mut hasher, bytes);
    std::hash::Hasher::finish(&hasher)
}

/// The two secret keys of a table's hash function, fixed for its lifetime.
pub struct HashState {
    pub k0: u64,
    pub k1: u64,
}

impl HashState {
    /// Draws both keys from the operating system's secure random source.
    pub fn new() -> (r: HashState) {
        let mut rng = open_os_rng();
        let k0 = next_random_u64(&mut rng);
        let k1 = next_random_u64(&mut rng);
        HashState { k0, k1 }
    }

    /// A state with the given keys.
    pub fn with_keys(k0: u64, k1: u64) -> (r: HashState)
        ensures
            r.k0 == k0,
            r.k1 == k1,
    {
        HashState { k0, k1 }
    }

    /// The keyed digest of a key's bytes.
    pub fn hash(&self, bytes: &[u8]) -> (r: u64)
        ensures
            r == sip_digest(self.k0, self.k1, bytes@),
    {
        sip_hash(self.k0, self.k1, bytes)
    }
}

} // verus!
