//! Password-based derivation of the master key with Argon2.

use vstd::prelude::*;
use argon2::Argon2;
use rand::RngCore;
use zeroize::Zeroize;

verus! {

/// The 32-byte key that `argon2` with its default parameters (Argon2id)
/// derives from the UTF-8 bytes of `password` and `salt`.
pub uninterp spec fn argon2_default_key(password: Seq<char>, salt: Seq<u8>) -> Seq<u8>;

/// Calls `Argon2::default().hash_password_into` with a 32-byte output.
/// Trusted: on the inputs that the crate's `verify_inputs` accepts the call
/// succeeds (the default parameters fix the memory and output sizes), and the
/// key is the named Argon2 output of the password and salt.
#[verifier::external_body]
fn argon2_hash(password: &str, salt: &[u8]) -> (key: [u8; 32])
    requires
        password.len() <= 0xffff_ffff,
        8 <= salt@.len() <= 0xffff_ffff,
    ensures
        key@ == argon2_default_key(password@, salt@),
{
    let mut key = [0u8; 32];
    Argon2::default().hash_password_into(password.as_bytes(), salt, &mut key).expect(
        "inputs accepted by argon2",
    );
    key
}

/// Calls `rand::rng().fill_bytes` on an `N`-byte array. Nothing is stated of
/// the bytes: they are random.
#[verifier::external_body]
pub(crate) fn random_array<const N: usize>() -> (bytes: [u8; N]) {
    let mut bytes = [0u8; N];
    rand::rng().fill_bytes(&mut bytes);
    bytes
}

/// Derives the 32-byte master key from a password and a salt with Argon2
/// (default parameters). Argon2 refuses a password or salt longer than
/// `u32::MAX` bytes and a salt shorter than 8 bytes; those inputs are left out.
pub fn derive_master_key(password: &str, salt: &[u8]) -> (key: [u8; 32])
    requires
        password.len() <= 0xffff_ffff,
        8 <= salt@.len() <= 0xffff_ffff,
    ensures
        key@ == argon2_default_key(password@, salt@),
{
    argon2_hash(password, salt)
}

/// Calls `Zeroize::zeroize` on a 32-byte key. Trusted: the `zeroize` crate
/// overwrites every byte with zero (its default), with writes the compiler
/// does not remove.
#[verifier::external_body]
pub(crate) fn wipe_key(key: &mut [u8; 32])
    ensures
        final(key)@ == Seq::new(32, |i: int| 0u8),
{
    key.zeroize();
}

/// Draws a fresh random 16-byte salt.
pub fn generate_salt() -> (salt: [u8; 16]) {
    random_array::<16>()
}

} // verus!
