//! Creating a repository's key material: a random repository key, sealed
//! under a master key derived from the password.

use vstd::prelude::*;
use vstd::string::StringSliceAdditionalSpecFns;
use crate::crypto::aead::{encrypt, xchacha20poly1305_open, xchacha20poly1305_seal};
use crate::crypto::kdf::{argon2_default_key, derive_master_key, generate_salt, random_array, wipe_key};

verus! {

/// The repository format version written at creation and required when opening.
pub const REPO_VERSION: u32 = 1;

/// The associated data authenticated with the sealed repository key.
pub open spec fn repo_key_ad() -> Seq<u8> {
    "archivist-repo-key".spec_bytes()
}

pub(crate) fn repo_key_ad_bytes() -> (ad: &'static [u8])
    ensures
        ad@ == repo_key_ad(),
{
    "archivist-repo-key".as_bytes()
}

/// The repository configuration stored in `config.enc`: the password salt and
/// the repository key encrypted under the password-derived master key.
pub struct RepoConfig {
    pub salt: [u8; 16],
    pub encrypted_repo_key: Vec<u8>,
    pub nonce: [u8; 24],
}

/// Decrypting the repository key of `config` with the master key derived from
/// `password` gives `key`.
pub open spec fn config_opens_to(config: RepoConfig, password: Seq<char>, key: Seq<u8>) -> bool {
    xchacha20poly1305_open(
        argon2_default_key(password, config.salt@),
        config.nonce@,
        config.encrypted_repo_key@,
        repo_key_ad(),
    ) == Some(key)
}

/// Seals `repo_key` under the master key derived from `password` and `salt`.
pub fn seal_repo_key(password: &str, salt: [u8; 16], repo_key: &[u8; 32]) -> (config: RepoConfig)
    requires
        password.len() <= 0xffff_ffff,
    ensures
        config.salt == salt,
        config.encrypted_repo_key@ == xchacha20poly1305_seal(
            argon2_default_key(password@, salt@),
            config.nonce@,
            repo_key@,
            repo_key_ad(),
        ),
        config.encrypted_repo_key@.len() == 48,
        config_opens_to(config, password@, repo_key@),
{
    let mut master_key = derive_master_key(password, salt.as_slice());
    let (ciphertext, nonce) = encrypt(&master_key, repo_key.as_slice(), repo_key_ad_bytes());
    wipe_key(&mut master_key);
    RepoConfig { salt, encrypted_repo_key: ciphertext, nonce }
}

/// Creates the key material of a new repository: a random salt and a random
/// 32-byte repository key, sealed under the key derived from `password`.
pub fn create_repo_config(password: &str) -> (config: RepoConfig)
    requires
        password.len() <= 0xffff_ffff,
    ensures
        config.encrypted_repo_key@.len() == 48,
        exists|key: Seq<u8>| key.len() == 32 && config_opens_to(config, password@, key),
{
    let salt = generate_salt();
    let repo_key = random_array::<32>();
    let config = seal_repo_key(password, salt, &repo_key);
    assert(repo_key@.len() == 32 && config_opens_to(config, password@, repo_key@));
    config
}

} // verus!
