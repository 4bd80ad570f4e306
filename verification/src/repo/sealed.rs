//! The sealed object format: a 24-byte nonce followed by the XChaCha20-Poly1305
//! ciphertext of the object's plaintext. An object is named by the content
//! identifier (hex SHA-256) of its plaintext, and opening checks that name.

use vstd::prelude::*;
use crate::crypto::aead::{
    ciphertext_fits, decrypt, encrypt, plaintext_fits, xchacha20poly1305_open,
    xchacha20poly1305_seal, MAX_MESSAGE_LEN, NONCE_LEN, TAG_LEN,
};
use crate::crypto::hash::{content_id, sha256_hex};
use crate::repo::backend::{object_ad, ObjectType};

verus! {

/// Why a stored object could not be opened.
#[derive(Clone, Copy, Debug, PartialEq, Eq)]
pub enum ObjectError {
    /// The stored bytes are too short to hold a nonce.
    Corrupted,
    /// Authenticated decryption failed: wrong key, wrong kind, or tampering.
    DecryptionFailed,
    /// The plaintext does not hash to the identifier it was stored under.
    HashMismatch,
}

/// The nonce part of stored bytes.
pub open spec fn stored_nonce(stored: Seq<u8>) -> Seq<u8> {
    stored.take(NONCE_LEN as int)
}

/// The ciphertext part of stored bytes.
pub open spec fn stored_ciphertext(stored: Seq<u8>) -> Seq<u8> {
    stored.skip(NONCE_LEN as int)
}

/// Stored bytes for `data` of kind `t` sealed under `key` with `nonce`.
pub open spec fn sealed_bytes(key: Seq<u8>, t: ObjectType, nonce: Seq<u8>, data: Seq<u8>) -> Seq<u8> {
    nonce + xchacha20poly1305_seal(key, nonce, data, object_ad(t))
}

/// `stored` is a sealing of `data` of kind `t` under `key`: `data` fits the
/// cipher, `stored` is the nonce followed by the ciphertext, and the
/// ciphertext authenticates back to `data`.
pub open spec fn sealed_from(key: Seq<u8>, t: ObjectType, data: Seq<u8>, stored: Seq<u8>) -> bool {
    &&& stored == sealed_bytes(key, t, stored_nonce(stored), data)
    &&& plaintext_fits(data.len() as int)
    &&& stored.len() == NONCE_LEN + data.len() + TAG_LEN
    &&& xchacha20poly1305_open(key, stored_nonce(stored), stored_ciphertext(stored), object_ad(t))
        == Some(data)
}

/// What opening `stored`, claimed to be the object `id` of kind `t`, yields.
/// A ciphertext too long for the cipher's keystream cannot be decrypted.
pub open spec fn open_result(key: Seq<u8>, t: ObjectType, id: Seq<char>, stored: Seq<u8>) -> Result<
    Seq<u8>,
    ObjectError,
> {
    if stored.len() < NONCE_LEN {
        Err(ObjectError::Corrupted)
    } else if !ciphertext_fits(stored.len() - NONCE_LEN) {
        Err(ObjectError::DecryptionFailed)
    } else {
        match xchacha20poly1305_open(
            key,
            stored_nonce(stored),
            stored_ciphertext(stored),
            object_ad(t),
        ) {
            None => Err(ObjectError::DecryptionFailed),
            Some(p) => if content_id(p) == id {
                Ok(p)
            } else {
                Err(ObjectError::HashMismatch)
            },
        }
    }
}

/// The view of a byte-vector result.
pub open spec fn bytes_result<E>(r: Result<Vec<u8>, E>) -> Result<Seq<u8>, E> {
    match r {
        Ok(v) => Ok(v@),
        Err(e) => Err(e),
    }
}

/// Seals `data` as an object of kind `t`: a fresh random nonce followed by the
/// ciphertext of `data` under `key`, authenticated with the kind's associated data.
pub fn seal_object(key: &[u8; 32], t: ObjectType, data: &[u8]) -> (stored: Vec<u8>)
    requires
        plaintext_fits(data@.len() as int),
    ensures
        sealed_from(key@, t, data@, stored@),
{
    let (ciphertext, nonce) = encrypt(key, data, t.associated_data());
    let mut stored: Vec<u8> = Vec::new();
    stored.extend_from_slice(nonce.as_slice());
    stored.extend_from_slice(ciphertext.as_slice());
    proof {
        assert(stored@ =~= nonce@ + ciphertext@);
        assert(stored_nonce(stored@) =~= nonce@);
        assert(stored_ciphertext(stored@) =~= ciphertext@);
    }
    stored
}

/// Decides whether `data` must be written: when an object with its identifier
/// is already present nothing is sealed (deduplication); otherwise the sealed
/// bytes to store are returned.
pub fn seal_if_absent(key: &[u8; 32], t: ObjectType, data: &[u8], present: bool) -> (r: Option<
    Vec<u8>,
>)
    requires
        present || plaintext_fits(data@.len() as int),
    ensures
        present <==> r is None,
        r matches Some(stored) ==> sealed_from(key@, t, data@, stored@),
{
    if present {
        None
    } else {
        Some(seal_object(key, t, data))
    }
}

/// An object ready to be stored: its kind, its plaintext, and the content
/// identifier of that plaintext, under which it is stored and found again.
pub struct PendingObject {
    kind: ObjectType,
    data: Vec<u8>,
    id: String,
}

impl PendingObject {
    #[verifier::type_invariant]
    spec fn inv(self) -> bool {
        self.id@ == content_id(self.data@)
    }

    /// The kind of object.
    pub closed spec fn kind(self) -> ObjectType {
        self.kind
    }

    /// The plaintext to be stored.
    pub closed spec fn plaintext(self) -> Seq<u8> {
        self.data@
    }

    /// The identifier the object is stored under.
    pub closed spec fn id_string(self) -> String {
        self.id
    }

    /// Prepares `data` to be stored as an object of kind `kind`, named by its
    /// content identifier.
    pub fn new(kind: ObjectType, data: Vec<u8>) -> (p: PendingObject)
        ensures
            p.kind() == kind,
            p.plaintext() == data@,
            p.id_string()@ == content_id(data@),
    {
        let id = sha256_hex(data.as_slice());
        PendingObject { kind, data, id }
    }

    /// The identifier the object is stored under: the content identifier of its plaintext.
    pub fn id(&self) -> (r: &String)
        ensures
            *r == self.id_string(),
            r@ == content_id(self.plaintext()),
    {
        proof {
            use_type_invariant(self);
        }
        &self.id
    }

    /// The length of the plaintext in bytes.
    pub fn plaintext_len(&self) -> (n: usize)
        ensures
            n == self.plaintext().len(),
    {
        self.data.len()
    }

    /// The kind of object.
    pub fn object_type(&self) -> (t: ObjectType)
        ensures
            t == self.kind(),
    {
        self.kind
    }

    /// The bytes to write for this object, unless an object with its
    /// identifier is already present (deduplication). What is written opens,
    /// under the identifier, to the plaintext. Only a plaintext that is sealed
    /// must fit the cipher.
    pub fn seal_if_absent(&self, key: &[u8; 32], present: bool) -> (r: Option<Vec<u8>>)
        requires
            present || plaintext_fits(self.plaintext().len() as int),
        ensures
            present <==> r is None,
            r matches Some(stored) ==> sealed_from(key@, self.kind(), self.plaintext(), stored@),
            r matches Some(stored) ==> open_result(key@, self.kind(), self.id_string()@, stored@)
                == Ok::<Seq<u8>, ObjectError>(self.plaintext()),
    {
        proof {
            use_type_invariant(self);
        }
        seal_if_absent(key, self.kind, self.data.as_slice(), present)
    }
}

/// Opens stored bytes claimed to be the object `id` of kind `t`: checks the
/// length, decrypts and authenticates, and checks that the plaintext hashes to `id`.
pub fn open_object(key: &[u8; 32], t: ObjectType, id: &str, stored: &[u8]) -> (r: Result<
    Vec<u8>,
    ObjectError,
>)
    ensures
        bytes_result(r) == open_result(key@, t, id@, stored@),
{
    if stored.len() < NONCE_LEN {
        return Err(ObjectError::Corrupted);
    }
    if (stored.len() - NONCE_LEN) as u64 > MAX_MESSAGE_LEN + TAG_LEN as u64 {
        return Err(ObjectError::DecryptionFailed);
    }
    let (nonce_part, ciphertext) = stored.split_at(NONCE_LEN);
    let mut nonce = [0u8; 24];
    let mut i: usize = 0;
    while i < NONCE_LEN
        invariant
            i <= NONCE_LEN,
            nonce_part@.len() == NONCE_LEN,
            forall|j: int| 0 <= j < i ==> nonce@[j] == nonce_part@[j],
        decreases NONCE_LEN - i,
    {
        nonce[i] = nonce_part[i];
        i = i + 1;
    }
    proof {
        assert(nonce@ =~= stored_nonce(stored@));
        assert(ciphertext@ =~= stored_ciphertext(stored@));
    }
    match decrypt(key, ciphertext, &nonce, t.associated_data()) {
        Err(_) => Err(ObjectError::DecryptionFailed),
        Ok(plaintext) => {
            let computed = sha256_hex(plaintext.as_slice());
            let expected = id.to_owned();
            if computed == expected {
                Ok(plaintext)
            } else {
                Err(ObjectError::HashMismatch)
            }
        },
    }
}

/// Reading back what was written: opening a sealing of `data` of kind `t`
/// under `key`, by the content identifier of `data`, yields `data`.
pub proof fn lemma_open_sealed(key: Seq<u8>, t: ObjectType, data: Seq<u8>, stored: Seq<u8>)
    requires
        sealed_from(key, t, data, stored),
    ensures
        open_result(key, t, content_id(data), stored) == Ok::<Seq<u8>, ObjectError>(data),
{
}

/// Integrity: whatever opening accepts hashes to the identifier it was asked for.
pub proof fn lemma_opened_matches_id(key: Seq<u8>, t: ObjectType, id: Seq<char>, stored: Seq<u8>)
    requires
        open_result(key, t, id, stored) is Ok,
    ensures
        content_id(open_result(key, t, id, stored)->Ok_0) == id,
{
}

} // verus!
