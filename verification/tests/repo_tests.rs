use archivist::crypto::hash::sha256_hex;
use archivist::repo::backend::ObjectType;
use archivist::repo::blob::Blob;
use archivist::repo::init::{create_repo_config, seal_repo_key, RepoConfig};
use archivist::repo::local::{join_path, latest_index_file, lock_file, LocalBackend};
use archivist::repo::open::{parse_repo_version, repo_dir, unlock_repository, version_text, OpenError};
use archivist::repo::sealed::{open_object, seal_if_absent, seal_object, ObjectError, PendingObject};
use archivist::repo::snapshot::Snapshot;
use archivist::repo::tree::{Tree, TreeEntry};
use archivist::text::str_before;

fn context() -> archivist::repo::open::RepoContext {
    let key = [9u8; 32];
    let config = seal_repo_key("pw", [1u8; 16], &key);
    unlock_repository("/tmp/repo", 1, &config, "pw").unwrap()
}

#[test]
fn sealed_object_opens_under_its_content_id() {
    let key = [5u8; 32];
    let data = b"file contents";
    let stored = seal_object(&key, ObjectType::Blob, data);
    assert_eq!(stored.len(), 24 + data.len() + 16);
    let id = sha256_hex(data);
    assert_eq!(open_object(&key, ObjectType::Blob, &id, &stored).unwrap(), data);
}

#[test]
fn opening_reports_each_failure() {
    let key = [5u8; 32];
    let stored = seal_object(&key, ObjectType::Tree, b"tree");
    let id = sha256_hex(b"tree");
    assert_eq!(open_object(&key, ObjectType::Tree, &id, &stored[..23]), Err(ObjectError::Corrupted));
    assert_eq!(open_object(&[6u8; 32], ObjectType::Tree, &id, &stored), Err(ObjectError::DecryptionFailed));
    assert_eq!(open_object(&key, ObjectType::Blob, &id, &stored), Err(ObjectError::DecryptionFailed));
    let other = sha256_hex(b"other");
    assert_eq!(open_object(&key, ObjectType::Tree, &other, &stored), Err(ObjectError::HashMismatch));
}

#[test]
fn present_objects_are_not_sealed_again() {
    let key = [5u8; 32];
    assert!(seal_if_absent(&key, ObjectType::Blob, b"x", true).is_none());
    let stored = seal_if_absent(&key, ObjectType::Blob, b"x", false).unwrap();
    assert_eq!(open_object(&key, ObjectType::Blob, &sha256_hex(b"x"), &stored).unwrap(), b"x");
}

#[test]
fn pending_object_is_named_by_content_and_sealed_once() {
    let key = [9u8; 32];
    let obj = PendingObject::new(ObjectType::Tree, b"listing".to_vec());
    assert_eq!(obj.id(), &sha256_hex(b"listing"));
    assert_eq!(obj.object_type(), ObjectType::Tree);
    assert_eq!(obj.plaintext_len(), 7);
    assert!(obj.seal_if_absent(&key, true).is_none());
    let stored = obj.seal_if_absent(&key, false).unwrap();
    assert_eq!(stored.len(), 24 + 7 + 16);
    assert_eq!(open_object(&key, ObjectType::Tree, obj.id(), &stored).unwrap(), b"listing");
    assert_eq!(
        open_object(&key, ObjectType::Blob, obj.id(), &stored),
        Err(ObjectError::DecryptionFailed)
    );
    let copy = PendingObject::new(ObjectType::Tree, b"listing".to_vec());
    assert_eq!(copy.id(), obj.id());
    assert_eq!(open_object(&key, ObjectType::Tree, copy.id(), &stored).unwrap(), b"listing");
}

#[test]
fn names_sort_by_their_bytes() {
    assert!(str_before("a", "b"));
    assert!(!str_before("b", "a"));
    assert!(str_before("a", "ab"));
    assert!(!str_before("ab", "a"));
    assert!(!str_before("a", "a"));
    assert!(str_before("", "a"));
    assert!(str_before("B", "a"));
    assert!(str_before("z", "é"));
    assert!(!str_before("é", "z"));
}

#[test]
fn tree_entries_are_kept_in_name_order() {
    let mut t = Tree::new();
    for name in ["m", "b", "z", "a", "ab", "B", "é", "a"] {
        t.insert(name.to_string(), TreeEntry::Dir { tree: name.to_string(), mode: 0, mtime: 0 });
    }
    let names: Vec<&str> = t.entries().iter().map(|(n, _)| n.as_str()).collect();
    assert_eq!(names, vec!["B", "a", "ab", "b", "m", "z", "é"]);
}

#[test]
fn blob_is_named_by_content_and_loads_back() {
    let ctx = context();
    let blob = Blob::from_data(b"abc");
    assert_eq!(blob.hash, "ba7816bf8f01cfea414140de5dae2223b00361a396177a9cb410ff61f20015ad");
    assert_eq!(blob.size, 3);
    let same = Blob::from_data(b"abc");
    assert_eq!(blob.hash, same.hash);
    let stored = seal_object(&ctx.repo_key, ObjectType::Blob, b"abc");
    assert_eq!(Blob::load(&ctx, &blob.hash, &stored).unwrap(), b"abc");
    assert!(Tree::load(&ctx, &blob.hash, &stored).is_err());
    assert!(Snapshot::load(&ctx, &blob.hash, &stored).is_err());
}

#[test]
fn version_file_parsing() {
    assert_eq!(parse_repo_version(version_text().as_bytes()), Ok(1));
    assert_eq!(parse_repo_version(b" 1\n"), Ok(1));
    assert_eq!(parse_repo_version(b"+1"), Ok(1));
    assert_eq!(parse_repo_version(b"2"), Err(OpenError::UnsupportedVersion(2)));
    assert_eq!(parse_repo_version(b"abc"), Err(OpenError::InvalidVersion));
    assert_eq!(parse_repo_version(b""), Err(OpenError::InvalidVersion));
    assert_eq!(parse_repo_version(b"+"), Err(OpenError::InvalidVersion));
    assert_eq!(parse_repo_version(b"-1"), Err(OpenError::InvalidVersion));
    assert_eq!(parse_repo_version(b"4294967296"), Err(OpenError::InvalidVersion));
    assert_eq!(parse_repo_version(b"4294967295"), Err(OpenError::UnsupportedVersion(4294967295)));
    assert_eq!(parse_repo_version(&[0xff, 0x31]), Err(OpenError::VersionNotUtf8));
}

#[test]
fn repository_opens_with_its_password_only() {
    let config = create_repo_config("correct horse");
    let ctx = unlock_repository("/srv/backups", 1, &config, "correct horse").unwrap();
    assert_eq!(ctx.root, "/srv/backups/archivist");
    assert_eq!(ctx.version, 1);
    assert_eq!(ctx.backend.root(), "/srv/backups/archivist/objects");
    assert!(matches!(
        unlock_repository("/srv/backups", 1, &config, "wrong"),
        Err(OpenError::WrongPassword)
    ));
}

#[test]
fn unlock_yields_the_sealed_key() {
    let key = [42u8; 32];
    let config = seal_repo_key("pw", [2u8; 16], &key);
    assert_eq!(config.salt, [2u8; 16]);
    assert_eq!(unlock_repository("r", 1, &config, "pw").unwrap().repo_key, key);
}

#[test]
fn unlock_refuses_a_key_of_wrong_length() {
    let master = archivist::crypto::kdf::derive_master_key("pw", &[2u8; 16]);
    let (ct, nonce) = archivist::crypto::aead::encrypt(&master, &[1u8; 16], b"archivist-repo-key");
    let config = RepoConfig { salt: [2u8; 16], encrypted_repo_key: ct, nonce };
    assert!(matches!(unlock_repository("r", 1, &config, "pw"), Err(OpenError::InvalidKeyLength)));
}

#[test]
fn paths_join_as_on_unix() {
    assert_eq!(join_path("a", "b"), "a/b");
    assert_eq!(join_path("a/", "b"), "a/b");
    assert_eq!(join_path("", "b"), "b");
    assert_eq!(join_path("a", "/b"), "/b");
    assert_eq!(join_path("a", ""), "a/");
    assert_eq!(repo_dir("."), "./archivist");
    assert_eq!(latest_index_file("r/archivist"), "r/archivist/index/latest");
    assert_eq!(lock_file("r"), "r/.lock");
}

#[test]
fn object_paths_follow_the_layout() {
    let backend = LocalBackend::new("repo/archivist");
    assert_eq!(backend.root(), "repo/archivist/objects");
    assert_eq!(
        backend.object_path(ObjectType::Blob, "abcdef"),
        "repo/archivist/objects/blobs/ab/cdef/abcdef"
    );
    assert_eq!(
        backend.object_path(ObjectType::Tree, "ab"),
        "repo/archivist/objects/trees/ab/ab"
    );
    assert_eq!(
        backend.object_path(ObjectType::Snapshot, "éx"),
        "repo/archivist/objects/snapshots/é/x/éx"
    );
}

#[test]
fn distinct_objects_get_distinct_paths() {
    let backend = LocalBackend::new("r");
    let ids = [
        sha256_hex(b"1"),
        sha256_hex(b"2"),
        "ab".to_string(),
        "abc".to_string(),
        "ABC".to_string(),
        "aBc".to_string(),
    ];
    let kinds = [ObjectType::Blob, ObjectType::Tree, ObjectType::Snapshot];
    let mut paths = Vec::new();
    for k in kinds {
        for id in ids.iter() {
            let p = backend.object_path(k, id);
            assert!(p.starts_with("r/objects/"));
            paths.push(p);
        }
    }
    for i in 0..paths.len() {
        for j in 0..i {
            assert_ne!(paths[i], paths[j]);
        }
    }
}

#[test]
fn sealed_repository_key_is_48_bytes() {
    let config = create_repo_config("pw");
    assert_eq!(config.encrypted_repo_key.len(), 48);
    assert_eq!(seal_repo_key("pw", [3u8; 16], &[0u8; 32]).encrypted_repo_key.len(), 48);
}

#[test]
fn tree_insert_replaces_by_name() {
    let mut t = Tree::new();
    t.insert("a".to_string(), TreeEntry::Dir { tree: "t1".to_string(), mode: 1, mtime: 2 });
    t.insert("b".to_string(), TreeEntry::File { blob: "b1".to_string(), size: 3, mode: 4, mtime: 5 });
    t.insert("a".to_string(), TreeEntry::File { blob: "b2".to_string(), size: 6, mode: 7, mtime: 8 });
    let e = t.entries();
    assert_eq!(e.len(), 2);
    assert_eq!(e[0].0, "a");
    assert!(matches!(&e[0].1, TreeEntry::File { blob, size: 6, .. } if blob == "b2"));
    assert_eq!(e[1].0, "b");
}

#[test]
fn latest_index_roundtrip() {
    let id = sha256_hex(b"snapshot");
    let text = Snapshot::latest_index_contents(&id);
    assert_eq!(text, format!("{}\n", id));
    assert_eq!(Snapshot::read_latest(&text), id);
    assert_eq!(Snapshot::read_latest("  x \t\n"), "x");
}

#[test]
fn snapshot_parent_is_the_recorded_latest() {
    let s = Snapshot::create("root".to_string(), Some("prev\n"), 10, "host".to_string(), "0.1.0".to_string());
    assert_eq!(s.parent.as_deref(), Some("prev"));
    assert_eq!(s.root_tree, "root");
    assert_eq!(s.timestamp, 10);
    let first = Snapshot::create("root".to_string(), None, 10, "host".to_string(), "0.1.0".to_string());
    assert!(first.parent.is_none());
}

#[test]
fn context_helper_unlocks() {
    assert_eq!(context().repo_key, [9u8; 32]);
}

#[test]
fn index_text_trims_unicode_whitespace() {
    assert_eq!(Snapshot::read_latest("\u{3000}x y\u{a0}\u{2029}"), "x y");
    assert_eq!(Snapshot::read_latest("\u{200b}x"), "\u{200b}x");
    assert_eq!(Snapshot::read_latest(""), "");
}

#[test]
fn version_with_leading_zeros_and_unicode_spaces() {
    assert_eq!(parse_repo_version(b"0001"), Ok(1));
    assert_eq!(parse_repo_version("\u{2003}1\u{2003}".as_bytes()), Ok(1));
    assert_eq!(parse_repo_version(b"1 1"), Err(OpenError::InvalidVersion));
}
