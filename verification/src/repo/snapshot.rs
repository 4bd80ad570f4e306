//! Snapshots: the root of one backup, linked to the one before it.

use vstd::prelude::*;
use vstd::string::StringExecFns;
use crate::repo::backend::ObjectType;
use crate::repo::open::RepoContext;
use crate::repo::sealed::{bytes_result, open_object, open_result, ObjectError};
use crate::crypto::hash::is_hex_id;
use crate::text::{is_white_space, lemma_trimmed_ends, trim, trim_end, trim_start, trim_str};

verus! {

/// One backup: the tree of the backed-up directory, the snapshot that was the
/// latest when it was made, when and where it was made, and by which version.
pub struct Snapshot {
    pub root_tree: String,
    pub parent: Option<String>,
    pub timestamp: u64,
    pub hostname: String,
    pub archivist_version: String,
}

/// The contents of the latest-snapshot index that records `id`.
pub open spec fn latest_index_text(id: Seq<char>) -> Seq<char> {
    id + seq!['\n']
}

/// The view of an optional string.
pub open spec fn opt_view(s: Option<String>) -> Option<Seq<char>> {
    match s {
        Some(s) => Some(s@),
        None => None,
    }
}

impl Snapshot {
    /// A new snapshot of `root_tree`. Its parent is the snapshot recorded in
    /// the latest-snapshot index, when that index could be read.
    pub fn create(
        root_tree: String,
        latest_index: Option<&str>,
        timestamp: u64,
        hostname: String,
        archivist_version: String,
    ) -> (s: Snapshot)
        ensures
            s.root_tree == root_tree,
            opt_view(s.parent) == match latest_index {
                Some(text) => Some(trim(text@)),
                None => None::<Seq<char>>,
            },
            s.timestamp == timestamp,
            s.hostname == hostname,
            s.archivist_version == archivist_version,
    {
        let parent = match latest_index {
            Some(text) => Some(Self::read_latest(text)),
            None => None,
        };
        Snapshot { root_tree, parent, timestamp, hostname, archivist_version }
    }

    /// The snapshot identifier recorded in the latest-snapshot index text.
    pub fn read_latest(index_text: &str) -> (id: String)
        ensures
            id@ == trim(index_text@),
    {
        trim_str(index_text).to_owned()
    }

    /// The latest-snapshot index text that records `id`.
    pub fn latest_index_contents(id: &str) -> (text: String)
        ensures
            text@ == latest_index_text(id@),
    {
        proof {
            reveal_strlit("\n");
        }
        let mut text = id.to_owned();
        text.append("\n");
        text
    }

    /// Opens the stored bytes of snapshot `hash`: decrypts them with the
    /// repository key and checks that the snapshot hashes to `hash`.
    pub fn load(ctx: &RepoContext, hash: &str, stored: &[u8]) -> (r: Result<Vec<u8>, ObjectError>)
        ensures
            bytes_result(r) == open_result(ctx.repo_key@, ObjectType::Snapshot, hash@, stored@),
    {
        open_object(&ctx.repo_key, ObjectType::Snapshot, hash, stored)
    }
}

/// The latest-snapshot index reads back what was written: reading the text
/// recorded for a snapshot identifier yields that identifier, for every
/// identifier that does not start or end with whitespace (trimming would
/// change any other).
pub proof fn lemma_latest_index_roundtrip(id: Seq<char>)
    requires
        trim(id) == id,
    ensures
        trim(latest_index_text(id)) == id,
{
    let text = latest_index_text(id);
    lemma_trimmed_ends(id);
    assert(is_white_space('\n'));
    if id.len() == 0 {
        assert(text.drop_first() =~= Seq::<char>::empty());
        assert(trim_start(text) == trim_start(text.drop_first()));
        assert(trim_start(text) =~= Seq::<char>::empty());
    } else {
        assert(text[0] == id[0]);
        assert(trim_start(text) == text);
        assert(text.drop_last() =~= id);
    }
}

/// A content identifier is recorded and read back unchanged.
pub proof fn lemma_hex_id_trimmed(id: Seq<char>)
    requires
        is_hex_id(id),
    ensures
        trim(id) == id,
{
    if id.len() > 0 {
        assert(!is_white_space(id[0]));
        assert(trim_start(id) == id);
        assert(!is_white_space(id.last()));
        assert(trim_end(id) == id);
    }
}

} // verus!
