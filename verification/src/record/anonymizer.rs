//! Keyed fingerprints that stand for the keys of the traffic.

use siphasher::sip::SipHasher13;
use std::hash::Hasher;
use vstd::bytes::*;
use vstd::prelude::*;

verus! {

/// The SipHash-1-3 digest of a message under a key of 16 bytes.
pub uninterp spec fn sip13_digest(key: Seq<u8>, message: Seq<u8>) -> u64;

/// Runs `siphasher`'s `SipHasher13`, made by `new_with_key`, over `message`
/// in one `write`, and takes `finish`. Trusted: the digest depends on the key
/// and the bytes written alone.
#[verifier::external_body]
fn sip13_hash(key: &[u8; 16], message: &[u8]) -> (r: u64)
    ensures
        r == sip13_digest(key@, message@),
{
    let mut hasher = SipHasher13::new_with_key(key);
    hasher.write(message);
    hasher.finish()
}

/// The key material that a salt gives: its eight bytes, little-endian,
/// twice.
pub open spec fn key_material(salt: u64) -> Seq<u8> {
    spec_u64_to_le_bytes(salt) + spec_u64_to_le_bytes(salt)
}

/// What is hashed for a key: the number of its bytes, as eight bytes
/// little-endian, and then the bytes themselves. The length in front keeps
/// two keys apart where one continues the other.
pub open spec fn hashed_message(key: Seq<u8>) -> Seq<u8> {
    spec_u64_to_le_bytes(key.len() as u64) + key
}

/// Turns keys into fingerprints of 64 bits that are stable under one salt
/// and do not give the key away.
pub struct Anonymizer {
    salt: u64,
}

impl Anonymizer {
    /// The salt that the fingerprints are keyed with.
    pub closed spec fn salt(&self) -> u64 {
        self.salt
    }

    /// The fingerprint of `key`.
    pub open spec fn fingerprint(&self, key: Seq<u8>) -> u64 {
        sip13_digest(key_material(self.salt()), hashed_message(key))
    }

    /// An anonymizer whose fingerprints are keyed with `salt`.
    pub fn new(salt: u64) -> (r: Anonymizer)
        ensures
            r.salt() == salt,
    {
        Anonymizer { salt }
    }

    /// The fingerprint of `key` under this anonymizer's salt.
    pub fn hash_key(&self, key: &[u8]) -> (r: u64)
        ensures
            r == self.fingerprint(key@),
    {
        let b = u64_to_le_bytes(self.salt);
        let material: [u8; 16] = [
            b[0],
            b[1],
            b[2],
            b[3],
            b[4],
            b[5],
            b[6],
            b[7],
            b[0],
            b[1],
            b[2],
            b[3],
            b[4],
            b[5],
            b[6],
            b[7],
        ];
        assert(material@ =~= key_material(self.salt));
        let mut message = u64_to_le_bytes(key.len() as u64);
        message.extend_from_slice(key);
        assert(message@ =~= hashed_message(key@));
        sip13_hash(&material, message.as_slice())
    }
}

/// Fingerprints are a function of salt and key: two anonymizers with one
/// salt give one key the same fingerprint, every time.
pub proof fn lemma_fingerprint_deterministic(a: Anonymizer, b: Anonymizer, key: Seq<u8>)
    requires
        a.salt() == b.salt(),
    ensures
        a.fingerprint(key) == b.fingerprint(key),
{
}

} // verus!
