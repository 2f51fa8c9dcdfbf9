//! The cryptographic leaves of the library: a content digest, an
//! authenticated cipher, and a deterministic expander of caller-supplied
//! entropy. The digest and the cipher are outside calls whose results are
//! named; everything layered on them is verified against those names.

use crate::util::{append_bytes, spec_u64_le, sub_bytes};
use chacha20poly1305::aead::Aead;
use chacha20poly1305::{ChaCha20Poly1305, KeyInit};
use sha2::{Digest, Sha256};
use vstd::prelude::*;

verus! {

/// What SHA-256 returns on a byte sequence.
pub uninterp spec fn digest_of(bytes: Seq<u8>) -> Seq<u8>;

/// What ChaCha20-Poly1305 returns when sealing a plaintext under a key and
/// a nonce: the ciphertext with its 16-byte authentication tag appended.
pub uninterp spec fn seal_of(key: Seq<u8>, nonce: Seq<u8>, plaintext: Seq<u8>) -> Seq<u8>;

pub const DIGEST_LEN: usize = 32;

pub const KEY_LEN: usize = 32;

pub const NONCE_LEN: usize = 12;

pub const TAG_LEN: usize = 16;

/// Kept well below the cipher's own limit of 2^32 - 1 64-byte blocks, so any
/// plaintext this library hands to `seal` is always sealed.
pub const MAX_PLAINTEXT_LEN: usize = 0x4000_0000;

/// Relies on sha2::Sha256: the 32-byte digest depends on the input bytes alone.
#[verifier::external_body]
pub(crate) fn sha256(bytes: &[u8]) -> (r: Vec<u8>)
    ensures
        r@ == digest_of(bytes@),
        r@.len() == DIGEST_LEN,
{
    Sha256::digest(bytes).to_vec()
}

/// Relies on chacha20poly1305::ChaCha20Poly1305::encrypt: below the cipher's
/// block-count limit it returns ciphertext plus a 16-byte tag, a function of
/// key, nonce and plaintext alone.
#[verifier::external_body]
pub(crate) fn seal(key: &[u8], nonce: &[u8], plaintext: &[u8]) -> (r: Vec<u8>)
    requires
        key@.len() == KEY_LEN,
        nonce@.len() == NONCE_LEN,
        plaintext@.len() <= MAX_PLAINTEXT_LEN,
    ensures
        r@ == seal_of(key@, nonce@, plaintext@),
        r@.len() == plaintext@.len() + TAG_LEN,
{
    let cipher = ChaCha20Poly1305::new_from_slice(key).unwrap();
    cipher.encrypt(chacha20poly1305::Nonce::from_slice(nonce), plaintext).unwrap()
}

/// Relies on chacha20poly1305::ChaCha20Poly1305::decrypt: it inverts the
/// keystream of `encrypt`, so a genuinely sealed input opens to the plaintext
/// it was sealed from, and the Poly1305 tag check makes any accepted input an
/// output of `encrypt` under the same key and nonce.
#[verifier::external_body]
pub(crate) fn open_sealed(key: &[u8], nonce: &[u8], ciphertext: &[u8]) -> (r: Option<Vec<u8>>)
    requires
        key@.len() == KEY_LEN,
        nonce@.len() == NONCE_LEN,
    ensures
        r is Some ==> ciphertext@ == seal_of(key@, nonce@, r.unwrap()@),
        forall|pt: Seq<u8>|
            ciphertext@ == #[trigger] seal_of(key@, nonce@, pt) ==> r is Some && r.unwrap()@ == pt,
{
    let cipher = ChaCha20Poly1305::new_from_slice(key).unwrap();
    cipher.decrypt(chacha20poly1305::Nonce::from_slice(nonce), ciphertext).ok()
}

/// Whether a block is a well-formed sealed payload under a key: a 12-byte
/// nonce followed by a sealing of some plaintext under that nonce.
pub open spec fn opens_under(b: Seq<u8>, key: Seq<u8>) -> bool {
    exists|pt: Seq<u8>|
        b.len() >= NONCE_LEN && b.subrange(NONCE_LEN as int, b.len() as int) == #[trigger] seal_of(
            key,
            b.subrange(0, NONCE_LEN as int),
            pt,
        )
}

/// A deterministic expander of caller-supplied entropy into key and nonce
/// material: draw `n` is the digest of the draw counter followed by the
/// seed. The caller seeds it once from its own source of randomness; the
/// library then draws all key material through it, so node construction is a
/// function of plain inputs.
pub struct EntropySource {
    seed: Vec<u8>,
    counter: u64,
}

impl EntropySource {
    pub closed spec fn spec_seed(self) -> Seq<u8> {
        self.seed@
    }

    pub closed spec fn spec_counter(self) -> u64 {
        self.counter
    }

    /// The 32-byte block of draw number `counter`.
    pub open spec fn spec_block(counter: u64, seed: Seq<u8>) -> Seq<u8> {
        digest_of(spec_u64_le(counter) + seed)
    }

    pub fn new(seed: Vec<u8>) -> (r: Self)
        ensures
            r.spec_seed() == seed@,
            r.spec_counter() == 0,
    {
        EntropySource { seed, counter: 0 }
    }

    fn next_block(&mut self) -> (r: Vec<u8>)
        ensures
            r@ == Self::spec_block(old(self).spec_counter(), old(self).spec_seed()),
            r@.len() == DIGEST_LEN,
            final(self).spec_seed() == old(self).spec_seed(),
            final(self).spec_counter() == (
            if old(self).spec_counter() < 0xffff_ffff_ffff_ffff {
                (old(self).spec_counter() + 1) as u64
            } else {
                old(self).spec_counter()
            }),
    {
        let c: u64 = self.counter;
        let mut material: Vec<u8> = Vec::new();
        material.push((c % 256) as u8);
        material.push(((c / 256) % 256) as u8);
        material.push(((c / 0x10000) % 256) as u8);
        material.push(((c / 0x1000000) % 256) as u8);
        material.push(((c / 0x100000000) % 256) as u8);
        material.push(((c / 0x10000000000) % 256) as u8);
        material.push(((c / 0x1000000000000) % 256) as u8);
        material.push(((c / 0x100000000000000) % 256) as u8);
        proof {
            assert(material@ =~= spec_u64_le(c));
        }
        append_bytes(&mut material, self.seed.as_slice());
        if self.counter < 0xffff_ffff_ffff_ffff {
            self.counter = self.counter + 1;
        }
        sha256(material.as_slice())
    }

    /// A fresh 32-byte symmetric key: the current draw of the expansion.
    pub fn fresh_key(&mut self) -> (r: Vec<u8>)
        ensures
            r@ == Self::spec_block(old(self).spec_counter(), old(self).spec_seed()),
            r@.len() == KEY_LEN,
            final(self).spec_seed() == old(self).spec_seed(),
            final(self).spec_counter() == (
            if old(self).spec_counter() < 0xffff_ffff_ffff_ffff {
                (old(self).spec_counter() + 1) as u64
            } else {
                old(self).spec_counter()
            }),
    {
        self.next_block()
    }

    /// A fresh 12-byte nonce: the first half of the current draw.
    pub fn fresh_nonce(&mut self) -> (r: Vec<u8>)
        ensures
            r@ == Self::spec_block(old(self).spec_counter(), old(self).spec_seed()).subrange(
                0,
                NONCE_LEN as int,
            ),
            r@.len() == NONCE_LEN,
            final(self).spec_seed() == old(self).spec_seed(),
            final(self).spec_counter() == (
            if old(self).spec_counter() < 0xffff_ffff_ffff_ffff {
                (old(self).spec_counter() + 1) as u64
            } else {
                old(self).spec_counter()
            }),
    {
        let block = self.next_block();
        sub_bytes(block.as_slice(), 0, 12)
    }
}

} // verus!
