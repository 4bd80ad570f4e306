//! Authenticated encryption with XChaCha20-Poly1305.

use vstd::prelude::*;
use chacha20poly1305::aead::{Aead, AeadCore, KeyInit, OsRng, Payload};
use chacha20poly1305::{XChaCha20Poly1305, XNonce};

verus! {

/// The error type of the `aead` crate, returned when decryption fails.
#[verifier::external_type_specification]
#[verifier::external_body]
pub struct ExAeadError(chacha20poly1305::aead::Error);

/// Length in bytes of the Poly1305 authentication tag appended to every ciphertext.
pub const TAG_LEN: usize = 16;

/// Length in bytes of an XChaCha20 nonce.
pub const NONCE_LEN: usize = 24;

/// XChaCha20-Poly1305 encryption of `plaintext` under `key` and `nonce`,
/// authenticating `ad`, as computed by the `chacha20poly1305` crate.
pub uninterp spec fn xchacha20poly1305_seal(
    key: Seq<u8>,
    nonce: Seq<u8>,
    plaintext: Seq<u8>,
    ad: Seq<u8>,
) -> Seq<u8>;

/// XChaCha20-Poly1305 decryption as computed by the `chacha20poly1305` crate:
/// `None` when authentication fails.
pub uninterp spec fn xchacha20poly1305_open(
    key: Seq<u8>,
    nonce: Seq<u8>,
    ciphertext: Seq<u8>,
    ad: Seq<u8>,
) -> Option<Seq<u8>>;

/// The longest message the cipher handles: the keystream after the block that
/// keys Poly1305 holds `u32::MAX - 1` blocks of 64 bytes.
pub const MAX_MESSAGE_LEN: u64 = 274877906816;

/// A plaintext of `len` bytes can be encrypted: it fits in the keystream, and
/// the ciphertext (with its tag) is still addressable.
pub open spec fn plaintext_fits(len: int) -> bool {
    len <= MAX_MESSAGE_LEN && len + TAG_LEN <= usize::MAX
}

/// A ciphertext of `len` bytes can be decrypted: its body fits in the keystream.
pub open spec fn ciphertext_fits(len: int) -> bool {
    len <= MAX_MESSAGE_LEN + TAG_LEN
}

/// Calls `XChaCha20Poly1305::encrypt`. Trusted: for a plaintext that fits in
/// the keystream the call succeeds; the result is the named ciphertext, it is the plaintext length
/// plus the 16-byte tag, and decrypting it with the same key, nonce and
/// associated data gives the plaintext back.
#[verifier::external_body]
fn seal(key: &[u8; 32], nonce: &[u8; 24], plaintext: &[u8], ad: &[u8]) -> (ct: Vec<u8>)
    requires
        plaintext_fits(plaintext@.len() as int),
    ensures
        ct@ == xchacha20poly1305_seal(key@, nonce@, plaintext@, ad@),
        ct@.len() == plaintext@.len() + TAG_LEN,
        xchacha20poly1305_open(key@, nonce@, ct@, ad@) == Some(plaintext@),
{
    XChaCha20Poly1305::new(key.into())
        .encrypt(XNonce::from_slice(nonce), Payload { msg: plaintext, aad: ad })
        .expect("plaintext within the cipher's limit")
}

/// Calls `XChaCha20Poly1305::generate_nonce` with the operating system's
/// random source. Nothing is stated of the nonce: it is random.
#[verifier::external_body]
fn random_nonce() -> (nonce: [u8; 24]) {
    XChaCha20Poly1305::generate_nonce(&mut OsRng).into()
}

/// Encrypts `plaintext` under `key` with a fresh random nonce, authenticating `ad`.
/// Returns the ciphertext (with its tag) and the nonce used.
pub fn encrypt(key: &[u8; 32], plaintext: &[u8], ad: &[u8]) -> (out: (Vec<u8>, [u8; 24]))
    requires
        plaintext_fits(plaintext@.len() as int),
    ensures
        out.0@ == xchacha20poly1305_seal(key@, out.1@, plaintext@, ad@),
        out.0@.len() == plaintext@.len() + TAG_LEN,
        xchacha20poly1305_open(key@, out.1@, out.0@, ad@) == Some(plaintext@),
{
    let nonce = random_nonce();
    let ciphertext = seal(key, &nonce, plaintext, ad);
    (ciphertext, nonce)
}

/// Calls `XChaCha20Poly1305::decrypt`. Trusted: for a body that fits in the
/// keystream (the cipher panics on a longer one whose tag verifies) the
/// outcome is the named decryption of the arguments; a ciphertext shorter than
/// the tag is refused, and a recovered plaintext is the ciphertext without its
/// tag in length.
#[verifier::external_body]
pub fn decrypt(key: &[u8; 32], ciphertext: &[u8], nonce: &[u8; 24], ad: &[u8]) -> (r: Result<
    Vec<u8>,
    chacha20poly1305::aead::Error,
>)
    requires
        ciphertext_fits(ciphertext@.len() as int),
    ensures
        match r {
            Ok(p) => xchacha20poly1305_open(key@, nonce@, ciphertext@, ad@) == Some(p@),
            Err(_) => xchacha20poly1305_open(key@, nonce@, ciphertext@, ad@) is None,
        },
        ciphertext@.len() < TAG_LEN ==> r is Err,
        r matches Ok(p) ==> p@.len() + TAG_LEN == ciphertext@.len(),
{
    XChaCha20Poly1305::new(key.into()).decrypt(
        XNonce::from_slice(nonce),
        Payload { msg: ciphertext, aad: ad },
    )
}

} // verus!
