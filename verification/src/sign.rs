//! Key pairs and signatures: Ed25519, with seeds from the operating system.

use vstd::prelude::*;
use ed25519_dalek::{Signer, Verifier};
use rand::RngCore;

verus! {

/// The public key that belongs to a 32-byte seed.
pub uninterp spec fn spec_public_key(seed: Seq<u8>) -> Seq<u8>;

/// Whether 64 bytes are a key pair: a seed, followed by the public key that
/// belongs to it.
pub uninterp spec fn spec_valid_pair(pair: Seq<u8>) -> bool;

/// The signature that a key pair makes of a message.
pub uninterp spec fn spec_signature(pair: Seq<u8>, message: Seq<u8>) -> Seq<u8>;

/// Whether a signature of a message verifies under a public key.
pub uninterp spec fn spec_verifies(public: Seq<u8>, message: Seq<u8>, signature: Seq<u8>) -> bool;

/// `rand::rngs::OsRng` through `RngCore::try_fill_bytes`: 32 bytes from the
/// operating system, or `None` where it gives none. Nothing is known of the
/// bytes.
#[verifier::external_body]
pub(crate) fn random_seed() -> (r: Option<[u8; 32]>) {
    let mut seed = [0u8; 32];
    rand::rngs::OsRng.try_fill_bytes(&mut seed).ok().map(|_| seed)
}

/// `ed25519_dalek::SigningKey::from_bytes`, then `verifying_key` and
/// `to_bytes`: the public key of a seed, a function of the seed alone. The seed
/// followed by this key is what `SigningKey::from_keypair_bytes` accepts: it
/// compares the key it is given with the one it derives.
#[verifier::external_body]
pub(crate) fn public_key(seed: &[u8; 32]) -> (r: [u8; 32])
    ensures
        r@ == spec_public_key(seed@),
        spec_valid_pair(seed@ + r@),
{
    ed25519_dalek::SigningKey::from_bytes(seed).verifying_key().to_bytes()
}

/// `ed25519_dalek::SigningKey::from_keypair_bytes`, then `Signer::sign` and
/// `to_bytes`: `None` where the 64 bytes are refused as a key pair; else the
/// signature, which Ed25519 makes a function of the key pair and the message.
#[verifier::external_body]
pub(crate) fn sign_with(pair: &[u8; 64], message: &[u8]) -> (r: Option<[u8; 64]>)
    ensures
        r.is_some() == spec_valid_pair(pair@),
        r.is_some() ==> r.unwrap()@ == spec_signature(pair@, message@),
{
    match ed25519_dalek::SigningKey::from_keypair_bytes(pair) {
        Ok(key) => Some(key.sign(message).to_bytes()),
        Err(_) => None,
    }
}

/// `ed25519_dalek::VerifyingKey::from_bytes`, then `Verifier::verify` on
/// `Signature::from_bytes`: whether the signature verifies; `false` too where
/// the 32 bytes are no public key.
#[verifier::external_body]
pub(crate) fn verify_with(public: &[u8; 32], message: &[u8], signature: &[u8; 64]) -> (r: bool)
    ensures
        r == spec_verifies(public@, message@, signature@),
{
    match ed25519_dalek::VerifyingKey::from_bytes(public) {
        Ok(key) => key.verify(message, &ed25519_dalek::Signature::from_bytes(signature)).is_ok(),
        Err(_) => false,
    }
}

} // verus!
