//! File contents, stored as content-addressed sealed objects.

use vstd::prelude::*;
use crate::crypto::hash::{content_id, sha256_hex};
use crate::repo::backend::ObjectType;
use crate::repo::open::RepoContext;
use crate::repo::sealed::{bytes_result, lemma_open_sealed, open_object, open_result, sealed_from, ObjectError};

verus! {

/// A stored file's content: its identifier and its size in bytes.
pub struct Blob {
    pub hash: String,
    pub size: u64,
}

impl Blob {
    /// The blob that `data` is stored as: named by its content identifier.
    pub fn from_data(data: &[u8]) -> (blob: Blob)
        ensures
            blob.hash@ == content_id(data@),
            blob.size == data@.len(),
    {
        Blob { hash: sha256_hex(data), size: data.len() as u64 }
    }

    /// Opens the stored bytes of blob `hash`: decrypts them with the
    /// repository key and checks that the content hashes to `hash`.
    pub fn load(ctx: &RepoContext, hash: &str, stored: &[u8]) -> (r: Result<Vec<u8>, ObjectError>)
        ensures
            bytes_result(r) == open_result(ctx.repo_key@, ObjectType::Blob, hash@, stored@),
    {
        open_object(&ctx.repo_key, ObjectType::Blob, hash, stored)
    }
}

/// Deduplication: content stored once serves every later copy. A copy with
/// the same content has the same identifier, so it is found present and not
/// stored again; and the object stored for the first copy opens, under the
/// copy's identifier, to the copy's content.
pub proof fn lemma_dedup_reads_back(
    key: Seq<u8>,
    t: ObjectType,
    first: Seq<u8>,
    copy: Seq<u8>,
    stored: Seq<u8>,
)
    requires
        first == copy,
        sealed_from(key, t, first, stored),
    ensures
        content_id(copy) == content_id(first),
        open_result(key, t, content_id(copy), stored) == Ok::<Seq<u8>, ObjectError>(copy),
{
    lemma_open_sealed(key, t, first, stored);
}

} // verus!
