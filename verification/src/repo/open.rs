//! Opening a repository: checking its format version and unlocking its key.

use vstd::prelude::*;
use vstd::utf8::*;
use crate::crypto::aead::{ciphertext_fits, decrypt, xchacha20poly1305_open, MAX_MESSAGE_LEN, TAG_LEN};
use crate::crypto::kdf::{argon2_default_key, derive_master_key, wipe_key};
use crate::repo::init::{config_opens_to, repo_key_ad, repo_key_ad_bytes, RepoConfig, REPO_VERSION};
use crate::repo::local::{join_path, path_join, LocalBackend};
use crate::text::{
    decimal_value, parse_u32, parse_u32_str, str_from_utf8, trim, trim_end, trim_start, trim_str,
    unsigned_digits,
};

verus! {

/// Why a repository could not be opened.
#[derive(Clone, Copy, Debug, PartialEq, Eq)]
pub enum OpenError {
    /// The version file is not valid UTF-8.
    VersionNotUtf8,
    /// The version file does not hold a decimal number.
    InvalidVersion,
    /// The repository has a format version this library does not support.
    UnsupportedVersion(u32),
    /// The repository key does not decrypt: wrong password or corrupted configuration.
    WrongPassword,
    /// The decrypted repository key is not 32 bytes long.
    InvalidKeyLength,
}

/// An opened repository: its directory, its unlocked key, its format version,
/// and the layout of its objects.
pub struct RepoContext {
    pub root: String,
    pub repo_key: [u8; 32],
    pub version: u32,
    pub backend: LocalBackend,
}

/// The outcome of reading a version file holding `bytes`.
pub open spec fn version_result(bytes: Seq<u8>) -> Result<u32, OpenError> {
    if !valid_utf8(bytes) {
        Err(OpenError::VersionNotUtf8)
    } else {
        match parse_u32(trim(decode_utf8(bytes))) {
            None => Err(OpenError::InvalidVersion),
            Some(v) => if v == REPO_VERSION {
                Ok(v)
            } else {
                Err(OpenError::UnsupportedVersion(v))
            },
        }
    }
}

/// Reads a repository version file: UTF-8 text holding a decimal number
/// (surrounding whitespace allowed), which must be the supported version.
pub fn parse_repo_version(bytes: &[u8]) -> (r: Result<u32, OpenError>)
    ensures
        r == version_result(bytes@),
{
    let text = match str_from_utf8(bytes) {
        None => return Err(OpenError::VersionNotUtf8),
        Some(t) => t,
    };
    match parse_u32_str(trim_str(text)) {
        None => Err(OpenError::InvalidVersion),
        Some(v) => if v == REPO_VERSION {
            Ok(v)
        } else {
            Err(OpenError::UnsupportedVersion(v))
        },
    }
}

/// The contents of the version file of a new repository.
pub fn version_text() -> (t: &'static str)
    ensures
        t@ == "1"@,
{
    "1"
}

/// A new repository's version file is accepted when it is opened.
pub proof fn lemma_new_version_accepted()
    ensures
        version_result(encode_utf8("1"@)) == Ok::<u32, OpenError>(REPO_VERSION),
{
    reveal_strlit("1");
    let chars = "1"@;
    assert(chars =~= seq!['1']);
    is_ascii_chars_encode_utf8(chars);
    encode_utf8_valid_utf8(chars);
    encode_utf8_decode_utf8(chars);
    assert(trim_start(chars) == chars);
    assert(trim_end(chars) == chars);
    assert(unsigned_digits(chars) == chars);
    assert(chars.drop_last() =~= Seq::<char>::empty());
    assert(decimal_value(Seq::<char>::empty()) == 0);
    assert(chars.last() == '1');
    assert(decimal_value(chars) == 1);
}

/// The repository directory inside a repository path.
pub open spec fn repo_dir_of(repo_path: Seq<char>) -> Seq<char> {
    path_join(repo_path, "archivist"@)
}

/// The directory `repo_path/archivist` that holds a repository.
pub fn repo_dir(repo_path: &str) -> (dir: String)
    ensures
        dir@ == repo_dir_of(repo_path@),
{
    join_path(repo_path, "archivist")
}

/// The repository key that unlocking `config` with `password` yields.
pub open spec fn unlocked_key(config: RepoConfig, password: Seq<char>) -> Result<Seq<u8>, OpenError> {
    if !ciphertext_fits(config.encrypted_repo_key@.len() as int) {
        Err(OpenError::WrongPassword)
    } else {
        match xchacha20poly1305_open(
        argon2_default_key(password, config.salt@),
        config.nonce@,
        config.encrypted_repo_key@,
        repo_key_ad(),
    ) {
        None => Err(OpenError::WrongPassword),
            Some(key) => if key.len() != 32 {
                Err(OpenError::InvalidKeyLength)
            } else {
                Ok(key)
            },
        }
    }
}

/// Unlocks the repository at `repo_path` (whose version file read `version`)
/// with `password`: derives the master key from the password and the stored
/// salt, decrypts the repository key, and checks its length.
pub fn unlock_repository(repo_path: &str, version: u32, config: &RepoConfig, password: &str) -> (r:
    Result<RepoContext, OpenError>)
    requires
        password.len() <= 0xffff_ffff,
    ensures
        match unlocked_key(*config, password@) {
            Err(e) => r matches Err(e2) && e2 == e,
            Ok(key) => r matches Ok(ctx) && ctx.repo_key@ == key && ctx.version == version
                && ctx.root@ == repo_dir_of(repo_path@) && ctx.backend.root_path() == path_join(
                ctx.root@,
                "objects"@,
            ),
        },
{
    if config.encrypted_repo_key.len() as u64 > MAX_MESSAGE_LEN + TAG_LEN as u64 {
        return Err(OpenError::WrongPassword);
    }
    let mut master_key = derive_master_key(password, config.salt.as_slice());
    let opened = decrypt(
        &master_key,
        config.encrypted_repo_key.as_slice(),
        &config.nonce,
        repo_key_ad_bytes(),
    );
    wipe_key(&mut master_key);
    let key_bytes = match opened {
        Err(_) => return Err(OpenError::WrongPassword),
        Ok(k) => k,
    };
    if key_bytes.len() != 32 {
        return Err(OpenError::InvalidKeyLength);
    }
    let mut repo_key = [0u8; 32];
    let mut i: usize = 0;
    while i < 32
        invariant
            i <= 32,
            key_bytes@.len() == 32,
            forall|j: int| 0 <= j < i ==> repo_key@[j] == key_bytes@[j],
        decreases 32 - i,
    {
        repo_key[i] = key_bytes[i];
        i = i + 1;
    }
    proof {
        assert(repo_key@ =~= key_bytes@);
    }
    let root = repo_dir(repo_path);
    let backend = LocalBackend::new(root.as_str());
    Ok(RepoContext { root, repo_key, version, backend })
}

/// A repository opens with the password it was created with: when the
/// configuration (whose sealed key is 48 bytes, as created) decrypts under
/// `password` to a 32-byte `key`, unlocking with that password yields exactly
/// that key.
pub proof fn lemma_unlock_after_create(config: RepoConfig, password: Seq<char>, key: Seq<u8>)
    requires
        key.len() == 32,
        config.encrypted_repo_key@.len() == 48,
        config_opens_to(config, password, key),
    ensures
        unlocked_key(config, password) == Ok::<Seq<u8>, OpenError>(key),
{
}

} // verus!
