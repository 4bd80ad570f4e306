use archivist::backup::{
    list_snapshots, run_backup, run_check, run_restore, BackupAction, BackupError, CheckAction,
    DirEntryInfo, EntryKind, ListAction, RestoreAction, RestoreError,
};
use archivist::cli::{validate_command, validate_repo_path, CliError, Commands};
use archivist::crypto::hash::sha256_hex;
use archivist::repo::backend::ObjectType;
use archivist::repo::sealed::PendingObject;
use archivist::repo::snapshot::Snapshot;
use archivist::repo::tree::{Tree, TreeEntry};

fn snapshot(root: &str, parent: Option<&str>) -> Snapshot {
    Snapshot {
        root_tree: root.to_string(),
        parent: parent.map(|p| p.to_string()),
        timestamp: 0,
        hostname: "h".to_string(),
        archivist_version: "0".to_string(),
    }
}

fn file(blob: &str, size: u64, mode: u32, mtime: i64) -> TreeEntry {
    TreeEntry::File { blob: blob.to_string(), size, mode, mtime }
}

fn dir(tree: &str, mode: u32, mtime: i64) -> TreeEntry {
    TreeEntry::Dir { tree: tree.to_string(), mode, mtime }
}

fn tree(entries: Vec<(&str, TreeEntry)>) -> Tree {
    let mut t = Tree::new();
    for (name, e) in entries {
        t.insert(name.to_string(), e);
    }
    t
}

#[test]
fn check_verifies_each_object_once_across_snapshots() {
    let mut w = run_check(Some("s2\n"));
    let mut log = Vec::new();
    loop {
        match w.next_action() {
            CheckAction::NoSnapshots => panic!("snapshots exist"),
            CheckAction::LoadSnapshot(id) => {
                log.push(format!("snapshot {}", id));
                if id == "s2" {
                    w.snapshot_checked(&snapshot("t2", Some("s1")));
                } else {
                    w.snapshot_checked(&snapshot("t1", None));
                }
            }
            CheckAction::CheckTree(id) => {
                log.push(format!("tree {}", id));
                if id == "t2" {
                    w.tree_checked(tree(vec![("a", file("b1", 1, 0, 0)), ("d", dir("t1", 0, 0))]));
                } else {
                    w.tree_checked(tree(vec![("x", file("b1", 1, 0, 0)), ("y", file("b2", 1, 0, 0))]));
                }
            }
            CheckAction::CheckBlob(id) => {
                log.push(format!("blob {}", id));
                w.blob_checked();
            }
            CheckAction::Advance => w.advance(),
            CheckAction::Done { trees, blobs } => {
                assert_eq!((trees, blobs), (2, 2));
                break;
            }
        }
    }
    assert_eq!(
        log,
        vec!["snapshot s2", "tree t2", "blob b1", "tree t1", "blob b2", "snapshot s1"]
    );
}

#[test]
fn check_without_snapshots() {
    let w = run_check(None);
    assert!(matches!(w.next_action(), CheckAction::NoSnapshots));
}

#[test]
fn listing_follows_parents_newest_first() {
    assert!(matches!(list_snapshots(None).next_action(), ListAction::NoSnapshots));
    let mut l = list_snapshots(Some(" s2 \n"));
    let mut seen = Vec::new();
    loop {
        match l.next_action() {
            ListAction::Load(id) => {
                let parent = if id == "s2" { Some("s1") } else { None };
                seen.push(id.clone());
                l.snapshot_listed(&snapshot("t", parent));
            }
            ListAction::Done => break,
            ListAction::NoSnapshots => panic!("snapshots exist"),
        }
    }
    assert_eq!(seen, vec!["s2", "s1"]);
    assert_eq!(l.listed, vec!["s2".to_string(), "s1".to_string()]);
}

#[test]
fn restoring_latest_restores_what_the_index_names() {
    let mut via_latest = run_restore("/t", false, "latest").unwrap();
    assert!(matches!(via_latest.next_action(), RestoreAction::ReadLatest));
    via_latest.latest_read("\u{a0} 0a1b \n");
    let direct = run_restore("/t", false, "0a1b").unwrap();
    assert!(matches!(via_latest.next_action(), RestoreAction::LoadSnapshot(id) if id == "0a1b"));
    assert!(matches!(direct.next_action(), RestoreAction::LoadSnapshot(id) if id == "0a1b"));
    assert_eq!(via_latest.target, direct.target);
}

#[test]
fn backup_without_a_latest_index_has_no_parent() {
    let mut w = run_backup("/src", true, true).unwrap();
    w.dir_read(vec![]);
    assert!(matches!(w.next_action(), BackupAction::StoreTree));
    assert!(w.tree().entries().is_empty());
    w.tree_stored(&PendingObject::new(ObjectType::Tree, b"empty".to_vec()));
    assert!(matches!(w.next_action(), BackupAction::CreateSnapshot(r) if r == sha256_hex(b"empty")));
    w.make_snapshot(None, 1, "h".to_string(), "v".to_string());
    assert_eq!(w.snapshot().parent, None);
    assert_eq!(w.snapshot().root_tree, sha256_hex(b"empty"));
}

#[test]
fn restore_walks_depth_first_and_finishes_directories() {
    assert!(matches!(run_restore("/t", true, "latest"), Err(RestoreError::TargetExists)));
    let mut w = run_restore("/t", false, "latest").unwrap();
    let mut log = Vec::new();
    loop {
        match w.next_action() {
            RestoreAction::ReadLatest => {
                log.push("latest".to_string());
                w.latest_read("abc\n");
            }
            RestoreAction::LoadSnapshot(id) => {
                log.push(format!("snapshot {}", id));
                w.snapshot_loaded(&snapshot("r", None));
            }
            RestoreAction::RestoreTree { tree: id, path } => {
                log.push(format!("tree {} {}", id, path));
                if id == "r" {
                    w.tree_restored(tree(vec![
                        ("f", file("b1", 3, 0o644, 5)),
                        ("sub", dir("t2", 0o755, 6)),
                    ]));
                } else {
                    w.tree_restored(tree(vec![("g", file("b2", 1, 0o600, 7))]));
                }
            }
            RestoreAction::RestoreFile { blob, path, mode, mtime } => {
                log.push(format!("file {} {} {:o} {}", blob, path, mode, mtime));
                w.file_restored();
            }
            RestoreAction::FinishDir { path, mode, mtime } => {
                log.push(format!("finish {} {:o} {}", path, mode, mtime));
                w.dir_finished();
            }
            RestoreAction::Done => break,
        }
    }
    assert_eq!(
        log,
        vec![
            "latest",
            "snapshot abc",
            "tree r /t",
            "file b1 /t/f 644 5",
            "tree t2 /t/sub",
            "file b2 /t/sub/g 600 7",
            "finish /t/sub 755 6",
        ]
    );
}

#[test]
fn restore_by_identifier_and_from_snapshot() {
    let w = run_restore("out", false, "0123").unwrap();
    assert!(matches!(w.next_action(), RestoreAction::LoadSnapshot(id) if id == "0123"));
    let w = Snapshot::restore("abcd", "out");
    assert!(matches!(w.next_action(), RestoreAction::LoadSnapshot(id) if id == "abcd"));
}

fn info(name: &str, kind: EntryKind, size: u64, mode: u32, mtime: i64) -> DirEntryInfo {
    DirEntryInfo { name: name.to_string(), kind, size, mode, mtime }
}

#[test]
fn backup_stores_children_before_parents() {
    assert!(matches!(run_backup("/src", false, false), Err(BackupError::SourceMissing)));
    assert!(matches!(run_backup("/src", true, false), Err(BackupError::SourceNotDirectory)));
    let mut w = run_backup("/src", true, true).unwrap();
    let mut log = Vec::new();
    loop {
        match w.next_action() {
            BackupAction::ReadDir(path) => {
                log.push(format!("read {}", path));
                if path == "/src" {
                    w.dir_read(vec![
                        info("a", EntryKind::File, 3, 0o644, 1),
                        info("d", EntryKind::Dir, 0, 0o755, 2),
                        info("l", EntryKind::Other, 0, 0, 0),
                    ]);
                } else {
                    w.dir_read(vec![info("b", EntryKind::File, 4, 0o600, 3)]);
                }
            }
            BackupAction::StoreFile(path) => {
                log.push(format!("file {}", path));
                let blob = PendingObject::new(ObjectType::Blob, path.clone().into_bytes());
                w.file_stored(&blob);
            }
            BackupAction::Advance => {
                log.push("skip".to_string());
                w.advance();
            }
            BackupAction::StoreTree => {
                let t = w.tree();
                let names: Vec<String> = t.entries().iter().map(|(n, _)| n.clone()).collect();
                log.push(format!("tree {}", names.join(",")));
                if names == vec!["b".to_string()] {
                    let expected = sha256_hex(b"/src/d/b");
                    assert!(matches!(&t.entries()[0].1,
                        TreeEntry::File { blob, size: 4, mode: 0o600, mtime: 3 } if *blob == expected));
                    w.tree_stored(&PendingObject::new(ObjectType::Tree, b"tree d".to_vec()));
                } else {
                    let expected = sha256_hex(b"tree d");
                    assert!(matches!(&t.entries()[1].1,
                        TreeEntry::Dir { tree, mode: 0o755, mtime: 2 } if *tree == expected));
                    w.tree_stored(&PendingObject::new(ObjectType::Tree, b"tree root".to_vec()));
                }
            }
            BackupAction::CreateSnapshot(root) => {
                assert_eq!(root, sha256_hex(b"tree root"));
                log.push("snapshot".to_string());
                w.make_snapshot(Some(" prev\n"), 7, "host".to_string(), "0.1.0".to_string());
            }
            BackupAction::StoreSnapshot => {
                let s = w.snapshot();
                assert_eq!(s.root_tree, sha256_hex(b"tree root"));
                assert_eq!(s.parent.as_deref(), Some("prev"));
                assert_eq!(s.timestamp, 7);
                assert_eq!(s.hostname, "host");
                assert_eq!(s.archivist_version, "0.1.0");
                log.push("store snapshot".to_string());
                w.snapshot_created(&PendingObject::new(ObjectType::Snapshot, b"snap".to_vec()));
            }
            BackupAction::Done(id) => {
                assert_eq!(id, sha256_hex(b"snap"));
                assert_eq!(Snapshot::read_latest(&Snapshot::latest_index_contents(&id)), id);
                break;
            }
        }
    }
    assert_eq!(
        log,
        vec![
            "read /src",
            "file /src/a",
            "read /src/d",
            "file /src/d/b",
            "tree b",
            "skip",
            "tree a,d",
            "snapshot",
            "store snapshot",
        ]
    );
}

#[test]
fn repository_path_dash_is_refused() {
    assert_eq!(validate_repo_path("-"), Err(CliError::DashRepoPath));
    assert_eq!(validate_repo_path("."), Ok(()));
    assert_eq!(validate_repo_path("--"), Ok(()));
    let c = Commands::Backup { path: "src".to_string(), repo: "-".to_string() };
    assert_eq!(validate_command(&c), Err(CliError::DashRepoPath));
    assert!(c.writes());
    let c = Commands::Check { repo: "r".to_string() };
    assert_eq!(validate_command(&c), Ok(()));
    assert!(!c.writes());
}
