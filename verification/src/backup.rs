//! The backup engine's decision procedures. Each command walks the repository
//! or the file system one step at a time: the walk says what to do next, the
//! caller does it (reading, writing, decrypting) and reports back.

use vstd::prelude::*;
use crate::crypto::hash::{content_id, lemma_content_id_is_hex};
use crate::repo::backend::ObjectType;
use crate::repo::sealed::PendingObject;
use crate::repo::snapshot::{latest_index_text, lemma_hex_id_trimmed, lemma_latest_index_roundtrip, opt_view, Snapshot};
use crate::repo::tree::{
    entry_map, entry_pairs, inserted, lemma_inserted_map, lemma_inserted_sorted, lemma_sorted_determined,
    names_sorted, Tree, TreeEntry,
};
use crate::repo::local::{join_path, path_join};
use crate::text::{trim, trim_str};

verus! {

/// `id` occurs in `ids`.
pub open spec fn ids_contain(ids: Seq<String>, id: Seq<char>) -> bool {
    exists|i: int| 0 <= i < ids.len() && (#[trigger] ids[i])@ == id
}

/// No identifier occurs twice in `ids`.
pub open spec fn ids_unique(ids: Seq<String>) -> bool {
    forall|i: int, j: int| 0 <= i < j < ids.len() ==> (#[trigger] ids[i])@ != (#[trigger] ids[j])@
}

/// Whether `id` occurs in `ids`.
pub fn contains_id(ids: &Vec<String>, id: &String) -> (found: bool)
    ensures
        found == ids_contain(ids@, id@),
{
    let mut i: usize = 0;
    while i < ids.len()
        invariant
            i <= ids@.len(),
            forall|j: int| 0 <= j < i ==> (#[trigger] ids@[j])@ != id@,
        decreases ids@.len() - i,
    {
        if ids[i] == *id {
            return true;
        }
        i = i + 1;
    }
    false
}

// ---------------------------------------------------------------------------
// Integrity check
// ---------------------------------------------------------------------------

/// Where an integrity check stands.
pub enum CheckStage {
    /// The repository has no latest-snapshot index.
    NoSnapshots,
    /// The snapshot with this identifier is to be verified next.
    Snapshot(String),
    /// The root tree of the current snapshot is to be checked.
    Root(String),
    /// Trees of the current snapshot are being walked.
    Walking,
    /// Every snapshot has been checked.
    Finished,
}

/// A tree being walked: its identifier, its entries and the index of the next entry.
pub struct CheckFrame {
    pub id: String,
    pub tree: Tree,
    pub next: usize,
}

/// An integrity check of every snapshot, newest first, and of every tree and
/// blob they reach. Each tree and each blob is verified once.
pub struct CheckWalk {
    pub stage: CheckStage,
    /// The parent of the snapshot being checked.
    pub parent: Option<String>,
    /// The trees being walked, outermost first.
    pub frames: Vec<CheckFrame>,
    /// The trees verified so far.
    pub checked_trees: Vec<String>,
    /// The blobs verified so far.
    pub checked_blobs: Vec<String>,
    /// The entries of each verified tree, in the order of `checked_trees`.
    pub tree_contents: Ghost<Seq<Seq<(String, TreeEntry)>>>,
    /// The root trees of the snapshots loaded so far.
    pub roots: Ghost<Seq<Seq<char>>>,
}

/// What the caller is to do next in an integrity check.
pub enum CheckAction {
    /// Report that there are no snapshots; the check is over.
    NoSnapshots,
    /// Load, verify and decode this snapshot, then call `snapshot_checked`.
    LoadSnapshot(String),
    /// Load, verify and decode this tree, then call `tree_checked`.
    CheckTree(String),
    /// Load and verify this blob, then call `blob_checked`.
    CheckBlob(String),
    /// Nothing to load: call `advance`.
    Advance,
    /// The check is complete: this many trees and blobs were verified.
    Done { trees: usize, blobs: usize },
}

/// The meaning of a check action, with identifiers as character sequences.
pub enum CheckStep {
    NoSnapshots,
    LoadSnapshot(Seq<char>),
    CheckTree(Seq<char>),
    CheckBlob(Seq<char>),
    Advance,
    Done { trees: nat, blobs: nat },
}

impl View for CheckAction {
    type V = CheckStep;

    open spec fn view(&self) -> CheckStep {
        match self {
            CheckAction::NoSnapshots => CheckStep::NoSnapshots,
            CheckAction::LoadSnapshot(id) => CheckStep::LoadSnapshot(id@),
            CheckAction::CheckTree(id) => CheckStep::CheckTree(id@),
            CheckAction::CheckBlob(id) => CheckStep::CheckBlob(id@),
            CheckAction::Advance => CheckStep::Advance,
            CheckAction::Done { trees, blobs } => CheckStep::Done {
                trees: *trees as nat,
                blobs: *blobs as nat,
            },
        }
    }
}

/// The object an entry refers to has been verified.
pub open spec fn entry_verified(e: TreeEntry, trees: Seq<String>, blobs: Seq<String>) -> bool {
    match e {
        TreeEntry::File { blob, .. } => ids_contain(blobs, blob@),
        TreeEntry::Dir { tree, .. } => ids_contain(trees, tree@),
    }
}

/// Every entry that the walk of `f` has moved past refers to a verified object.
pub open spec fn frame_covered(f: CheckFrame, trees: Seq<String>, blobs: Seq<String>) -> bool {
    forall|j: int|
        0 <= j < f.next ==> entry_verified(#[trigger] f.tree.view()[j].1, trees, blobs)
}

/// `child` is the tree that `parent` is at: the walk descended into it.
pub open spec fn check_descends(parent: CheckFrame, child: CheckFrame) -> bool {
    &&& parent.next < parent.tree.view().len()
    &&& parent.tree.view()[parent.next as int].1 matches TreeEntry::Dir { tree, .. } && tree@
        == child.id@
}

/// Everything `a` contains, `b` contains.
pub open spec fn ids_within(a: Seq<String>, b: Seq<String>) -> bool {
    forall|x: Seq<char>| ids_contain(a, x) ==> ids_contain(b, x)
}

proof fn lemma_ids_push(ids: Seq<String>, s: String)
    ensures
        ids_within(ids, ids.push(s)),
        ids_contain(ids.push(s), s@),
{
    assert forall|x: Seq<char>| ids_contain(ids, x) implies ids_contain(ids.push(s), x) by {
        let i = choose|i: int| 0 <= i < ids.len() && (#[trigger] ids[i])@ == x;
        assert(ids.push(s)[i] == ids[i]);
    }
    assert(ids.push(s)[ids.len() as int] == s);
}

proof fn lemma_covered_mono(
    f: CheckFrame,
    t1: Seq<String>,
    b1: Seq<String>,
    t2: Seq<String>,
    b2: Seq<String>,
)
    requires
        frame_covered(f, t1, b1),
        ids_within(t1, t2),
        ids_within(b1, b2),
    ensures
        frame_covered(f, t2, b2),
{
    assert forall|j: int| 0 <= j < f.next implies entry_verified(
        #[trigger] f.tree.view()[j].1,
        t2,
        b2,
    ) by {
        assert(entry_verified(f.tree.view()[j].1, t1, b1));
    }
}

/// Every entry of `entries` refers to a verified object.
pub open spec fn tree_done(entries: Seq<(String, TreeEntry)>, trees: Seq<String>, blobs: Seq<String>) -> bool {
    forall|j: int| 0 <= j < entries.len() ==> entry_verified(#[trigger] entries[j].1, trees, blobs)
}

/// Tree `id` is being walked.
pub open spec fn on_stack(frames: Seq<CheckFrame>, id: Seq<char>) -> bool {
    exists|i: int| 0 <= i < frames.len() && (#[trigger] frames[i]).id@ == id
}

/// `contents` records the entries of each verified tree, and agrees with the
/// trees being walked.
pub open spec fn records_agree(
    trees: Seq<String>,
    contents: Seq<Seq<(String, TreeEntry)>>,
    frames: Seq<CheckFrame>,
) -> bool {
    &&& contents.len() == trees.len()
    &&& forall|i: int, k: int|
        0 <= i < frames.len() && 0 <= k < trees.len() && (#[trigger] trees[k])@ == (
        #[trigger] frames[i]).id@ ==> contents[k] == frames[i].tree.view()
}

/// Every verified tree is still being walked, or all it refers to is verified.
pub open spec fn records_closed(
    trees: Seq<String>,
    contents: Seq<Seq<(String, TreeEntry)>>,
    frames: Seq<CheckFrame>,
    blobs: Seq<String>,
) -> bool {
    forall|k: int|
        0 <= k < trees.len() ==> on_stack(frames, (#[trigger] trees[k])@) || tree_done(
            contents[k],
            trees,
            blobs,
        )
}

/// The root of every snapshot loaded is verified, but for the root still to be checked.
pub open spec fn roots_checked(roots: Seq<Seq<char>>, trees: Seq<String>, stage: CheckStage) -> bool {
    forall|k: int|
        0 <= k < roots.len() ==> ids_contain(trees, #[trigger] roots[k]) || (stage matches CheckStage::Root(
            r,
        ) && r@ == roots[k])
}

proof fn lemma_tree_done_mono(
    e: Seq<(String, TreeEntry)>,
    t1: Seq<String>,
    b1: Seq<String>,
    t2: Seq<String>,
    b2: Seq<String>,
)
    requires
        tree_done(e, t1, b1),
        ids_within(t1, t2),
        ids_within(b1, b2),
    ensures
        tree_done(e, t2, b2),
{
    assert forall|j: int| 0 <= j < e.len() implies entry_verified(#[trigger] e[j].1, t2, b2) by {
        assert(entry_verified(e[j].1, t1, b1));
    }
}

/// Verifying tree `id` (not verified before) and starting to walk it keeps the records.
proof fn lemma_records_tree_pushed(
    trees: Seq<String>,
    contents: Seq<Seq<(String, TreeEntry)>>,
    frames: Seq<CheckFrame>,
    blobs: Seq<String>,
    id: String,
    f: CheckFrame,
)
    requires
        records_agree(trees, contents, frames),
        records_closed(trees, contents, frames, blobs),
        !ids_contain(trees, id@),
        forall|i: int| 0 <= i < frames.len() ==> ids_contain(trees, (#[trigger] frames[i]).id@),
        f.id@ == id@,
    ensures
        records_agree(trees.push(id), contents.push(f.tree.view()), frames.push(f)),
        records_closed(trees.push(id), contents.push(f.tree.view()), frames.push(f), blobs),
{
    let t2 = trees.push(id);
    let c2 = contents.push(f.tree.view());
    let fr2 = frames.push(f);
    lemma_ids_push(trees, id);
    assert forall|i: int, k: int|
        0 <= i < fr2.len() && 0 <= k < t2.len() && (#[trigger] t2[k])@ == (#[trigger] fr2[i]).id@
        implies c2[k] == fr2[i].tree.view() by {
        if k < trees.len() {
            assert(t2[k] == trees[k]);
            if i < frames.len() {
                assert(fr2[i] == frames[i]);
            } else {
                assert(trees[k]@ == id@);
                assert(ids_contain(trees, id@));
            }
        } else if i < frames.len() {
            assert(fr2[i] == frames[i]);
            assert(ids_contain(trees, frames[i].id@));
        }
    }
    assert forall|k: int| 0 <= k < t2.len() implies on_stack(fr2, (#[trigger] t2[k])@) || tree_done(
        c2[k],
        t2,
        blobs,
    ) by {
        if k < trees.len() {
            assert(t2[k] == trees[k]);
            if on_stack(frames, trees[k]@) {
                let i = choose|i: int| 0 <= i < frames.len() && (#[trigger] frames[i]).id@ == trees[k]@;
                assert(fr2[i] == frames[i]);
            } else {
                lemma_tree_done_mono(contents[k], trees, blobs, t2, blobs);
            }
        } else {
            assert(fr2[frames.len() as int] == f);
        }
    }
}

/// Changing only positions and verified blobs keeps the records.
proof fn lemma_records_same_stack(
    trees: Seq<String>,
    contents: Seq<Seq<(String, TreeEntry)>>,
    f1: Seq<CheckFrame>,
    f2: Seq<CheckFrame>,
    b1: Seq<String>,
    b2: Seq<String>,
)
    requires
        records_agree(trees, contents, f1),
        records_closed(trees, contents, f1, b1),
        f1.len() == f2.len(),
        forall|i: int|
            0 <= i < f1.len() ==> (#[trigger] f2[i]).id == f1[i].id && f2[i].tree == f1[i].tree,
        ids_within(b1, b2),
    ensures
        records_agree(trees, contents, f2),
        records_closed(trees, contents, f2, b2),
{
    assert forall|i: int, k: int|
        0 <= i < f2.len() && 0 <= k < trees.len() && (#[trigger] trees[k])@ == (#[trigger] f2[i]).id@
        implies contents[k] == f2[i].tree.view() by {
        assert(f2[i].id == f1[i].id);
    }
    assert forall|k: int| 0 <= k < trees.len() implies on_stack(f2, (#[trigger] trees[k])@)
        || tree_done(contents[k], trees, b2) by {
        if on_stack(f1, trees[k]@) {
            let i = choose|i: int| 0 <= i < f1.len() && (#[trigger] f1[i]).id@ == trees[k]@;
            assert(f2[i].id == f1[i].id);
        } else {
            assert forall|x: Seq<char>| ids_contain(trees, x) implies ids_contain(trees, x) by {}
            lemma_tree_done_mono(contents[k], trees, b1, trees, b2);
        }
    }
}

/// Finishing the walk of the innermost tree keeps the records: all it refers to is verified.
proof fn lemma_records_popped(
    trees: Seq<String>,
    contents: Seq<Seq<(String, TreeEntry)>>,
    frames: Seq<CheckFrame>,
    blobs: Seq<String>,
)
    requires
        records_agree(trees, contents, frames),
        records_closed(trees, contents, frames, blobs),
        frames.len() > 0,
        frames.last().next == frames.last().tree.view().len(),
        frame_covered(frames.last(), trees, blobs),
    ensures
        records_agree(trees, contents, frames.drop_last()),
        records_closed(trees, contents, frames.drop_last(), blobs),
{
    let f2 = frames.drop_last();
    let top = frames.last();
    assert forall|i: int, k: int|
        0 <= i < f2.len() && 0 <= k < trees.len() && (#[trigger] trees[k])@ == (#[trigger] f2[i]).id@
        implies contents[k] == f2[i].tree.view() by {
        assert(f2[i] == frames[i]);
    }
    assert forall|k: int| 0 <= k < trees.len() implies on_stack(f2, (#[trigger] trees[k])@)
        || tree_done(contents[k], trees, blobs) by {
        if on_stack(frames, trees[k]@) {
            let i = choose|i: int| 0 <= i < frames.len() && (#[trigger] frames[i]).id@ == trees[k]@;
            if i < f2.len() {
                assert(f2[i] == frames[i]);
            } else {
                assert(contents[k] == top.tree.view());
                assert forall|j: int| 0 <= j < contents[k].len() implies entry_verified(
                    #[trigger] contents[k][j].1,
                    trees,
                    blobs,
                ) by {
                    assert(entry_verified(top.tree.view()[j].1, trees, blobs));
                }
            }
        }
    }
}

impl CheckWalk {
    /// The walk is consistent: each frame's position lies within its tree, an
    /// enclosing frame points at the directory being walked, frames exist
    /// exactly while walking, nothing is recorded as verified twice, every tree
    /// being walked is verified, and every entry walked past refers to a
    /// verified object.
    pub open spec fn wf(&self) -> bool {
        &&& ids_unique(self.checked_trees@)
        &&& ids_unique(self.checked_blobs@)
        &&& (self.stage is Walking <==> self.frames@.len() > 0)
        &&& forall|i: int|
            0 <= i < self.frames@.len() ==> (#[trigger] self.frames@[i]).next
                <= self.frames@[i].tree.view().len()
        &&& forall|i: int|
            0 <= i < self.frames@.len() - 1 ==> check_descends(#[trigger] self.frames@[i], self.frames@[i + 1])
        &&& forall|i: int|
            0 <= i < self.frames@.len() ==> ids_contain(
                self.checked_trees@,
                (#[trigger] self.frames@[i]).id@,
            )
        &&& forall|i: int|
            0 <= i < self.frames@.len() ==> frame_covered(
                #[trigger] self.frames@[i],
                self.checked_trees@,
                self.checked_blobs@,
            )
        &&& records_agree(self.checked_trees@, self.tree_contents@, self.frames@)
        &&& records_closed(
            self.checked_trees@,
            self.tree_contents@,
            self.frames@,
            self.checked_blobs@,
        )
        &&& roots_checked(self.roots@, self.checked_trees@, self.stage)
    }

    /// The frame being walked.
    pub open spec fn top(&self) -> CheckFrame {
        self.frames@.last()
    }

    /// The stage after the current snapshot: its parent, or the end.
    pub open spec fn after_snapshot(parent: Option<String>) -> CheckStage {
        match parent {
            Some(p) => CheckStage::Snapshot(p),
            None => CheckStage::Finished,
        }
    }

    /// What to do next.
    pub open spec fn step(&self) -> CheckStep {
        match self.stage {
            CheckStage::NoSnapshots => CheckStep::NoSnapshots,
            CheckStage::Snapshot(id) => CheckStep::LoadSnapshot(id@),
            CheckStage::Root(id) => if ids_contain(self.checked_trees@, id@) {
                CheckStep::Advance
            } else {
                CheckStep::CheckTree(id@)
            },
            CheckStage::Walking => {
                let f = self.top();
                if f.next < f.tree.view().len() {
                    match f.tree.view()[f.next as int].1 {
                        TreeEntry::File { blob, .. } => if ids_contain(
                            self.checked_blobs@,
                            blob@,
                        ) {
                            CheckStep::Advance
                        } else {
                            CheckStep::CheckBlob(blob@)
                        },
                        TreeEntry::Dir { tree, .. } => if ids_contain(
                            self.checked_trees@,
                            tree@,
                        ) {
                            CheckStep::Advance
                        } else {
                            CheckStep::CheckTree(tree@)
                        },
                    }
                } else {
                    CheckStep::Advance
                }
            },
            CheckStage::Finished => CheckStep::Done {
                trees: self.checked_trees@.len(),
                blobs: self.checked_blobs@.len(),
            },
        }
    }

    /// What to do next. A finished check reports how many trees and how many
    /// blobs it verified.
    pub fn next_action(&self) -> (a: CheckAction)
        requires
            self.wf(),
        ensures
            a@ == self.step(),
            self.stage is Finished ==> (a matches CheckAction::Done { trees, blobs } && trees
                == self.checked_trees@.len() && blobs == self.checked_blobs@.len()),
            self.stage is Walking && self.top().next < self.top().tree.view().len() ==> ({
                let entry = self.top().tree.view()[self.top().next as int].1;
                &&& entry matches TreeEntry::File { blob, .. } ==> if ids_contain(
                    self.checked_blobs@,
                    blob@,
                ) {
                    a is Advance
                } else {
                    a matches CheckAction::CheckBlob(id) && id@ == blob@
                }
                &&& entry matches TreeEntry::Dir { tree, .. } ==> if ids_contain(
                    self.checked_trees@,
                    tree@,
                ) {
                    a is Advance
                } else {
                    a matches CheckAction::CheckTree(id) && id@ == tree@
                }
            }),
    {
        match &self.stage {
            CheckStage::NoSnapshots => CheckAction::NoSnapshots,
            CheckStage::Snapshot(id) => CheckAction::LoadSnapshot(id.clone()),
            CheckStage::Root(id) => if contains_id(&self.checked_trees, id) {
                CheckAction::Advance
            } else {
                CheckAction::CheckTree(id.clone())
            },
            CheckStage::Walking => {
                let f = &self.frames[self.frames.len() - 1];
                let entries = f.tree.entries();
                if f.next < entries.len() {
                    match &entries[f.next].1 {
                        TreeEntry::File { blob, .. } => if contains_id(&self.checked_blobs, blob) {
                            CheckAction::Advance
                        } else {
                            CheckAction::CheckBlob(blob.clone())
                        },
                        TreeEntry::Dir { tree, .. } => if contains_id(&self.checked_trees, tree) {
                            CheckAction::Advance
                        } else {
                            CheckAction::CheckTree(tree.clone())
                        },
                    }
                } else {
                    CheckAction::Advance
                }
            },
            CheckStage::Finished => CheckAction::Done {
                trees: self.checked_trees.len(),
                blobs: self.checked_blobs.len(),
            },
        }
    }
}

/// The stage that follows the current snapshot.
fn stage_after_snapshot(parent: Option<String>) -> (s: CheckStage)
    ensures
        s == CheckWalk::after_snapshot(parent),
{
    match parent {
        Some(p) => CheckStage::Snapshot(p),
        None => CheckStage::Finished,
    }
}

/// Starts an integrity check from the latest-snapshot index text, if the
/// index could be read; without it there is nothing to check.
pub fn run_check(latest_index: Option<&str>) -> (w: CheckWalk)
    ensures
        w.wf(),
        w.checked_trees@.len() == 0,
        w.checked_blobs@.len() == 0,
        w.frames@.len() == 0,
        w.parent is None,
        match latest_index {
            None => w.stage is NoSnapshots,
            Some(text) => w.stage matches CheckStage::Snapshot(id) && id@ == trim(text@),
        },
{
    let stage = match latest_index {
        None => CheckStage::NoSnapshots,
        Some(text) => CheckStage::Snapshot(trim_str(text).to_owned()),
    };
    CheckWalk {
        stage,
        parent: None,
        frames: Vec::new(),
        checked_trees: Vec::new(),
        checked_blobs: Vec::new(),
        tree_contents: Ghost(Seq::empty()),
        roots: Ghost(Seq::empty()),
    }
}

impl CheckWalk {
    /// The snapshot asked for by `LoadSnapshot` was verified and decoded:
    /// its root tree is checked next, then its parent.
    pub fn snapshot_checked(&mut self, snapshot: &Snapshot)
        requires
            old(self).wf(),
            old(self).step() is LoadSnapshot,
        ensures
            final(self).wf(),
            final(self).stage matches CheckStage::Root(r) && r@ == snapshot.root_tree@,
            final(self).parent == snapshot.parent,
            final(self).frames@ == old(self).frames@,
            final(self).checked_trees@ == old(self).checked_trees@,
            final(self).checked_blobs@ == old(self).checked_blobs@,
            final(self).tree_contents == old(self).tree_contents,
            final(self).roots@ == old(self).roots@.push(snapshot.root_tree@),
    {
        self.roots = Ghost(self.roots@.push(snapshot.root_tree@));
        self.stage = CheckStage::Root(snapshot.root_tree.clone());
        self.parent = match &snapshot.parent {
            Some(p) => Some(p.clone()),
            None => None,
        };
    }

    /// The tree asked for by `CheckTree` was verified and decoded: it is
    /// recorded as verified and its entries are walked next.
    pub fn tree_checked(&mut self, tree: Tree)
        requires
            old(self).wf(),
            old(self).step() is CheckTree,
        ensures
            final(self).wf(),
            final(self).stage is Walking,
            final(self).parent == old(self).parent,
            final(self).frames@.drop_last() == old(self).frames@,
            final(self).top().id@ == old(self).step()->CheckTree_0,
            final(self).top().tree == tree,
            final(self).top().next == 0,
            final(self).checked_trees@.len() == old(self).checked_trees@.len() + 1,
            final(self).checked_trees@.drop_last() == old(self).checked_trees@,
            final(self).checked_trees@.last()@ == old(self).step()->CheckTree_0,
            final(self).checked_blobs@ == old(self).checked_blobs@,
            final(self).tree_contents@ == old(self).tree_contents@.push(tree.view()),
            final(self).roots == old(self).roots,
    {
        let id = match &self.stage {
            CheckStage::Root(id) => id.clone(),
            _ => {
                let f = &self.frames[self.frames.len() - 1];
                let entries = f.tree.entries();
                match &entries[f.next].1 {
                    TreeEntry::Dir { tree, .. } => tree.clone(),
                    TreeEntry::File { blob, .. } => {
                        proof {
                            assert(false);
                        }
                        blob.clone()
                    },
                }
            },
        };
        let ghost old_trees = self.checked_trees@;
        let ghost old_frames = self.frames@;
        let ghost blobs = self.checked_blobs@;
        let n = self.frames.len();
        self.checked_trees.push(id.clone());
        proof {
            lemma_ids_push(old_trees, id);
            assert(self.checked_trees@.drop_last() =~= old_trees);
            assert forall|i: int, j: int|
                0 <= i < j < self.checked_trees@.len() implies (
                #[trigger] self.checked_trees@[i])@ != (#[trigger] self.checked_trees@[j])@ by {
                if j == old_trees.len() {
                    assert(old_trees[i] == self.checked_trees@[i]);
                } else {
                    assert(old_trees[i] == self.checked_trees@[i]);
                    assert(old_trees[j] == self.checked_trees@[j]);
                }
            }
        }
        let ghost view = tree.view();
        let frame = CheckFrame { id, tree, next: 0 };
        proof {
            lemma_records_tree_pushed(old_trees, self.tree_contents@, old_frames, blobs, frame.id, frame);
        }
        self.tree_contents = Ghost(self.tree_contents@.push(view));
        self.frames.push(frame);
        self.stage = CheckStage::Walking;
        proof {
            let trees = self.checked_trees@;
            assert forall|i: int| 0 <= i < self.frames@.len() implies ids_contain(
                trees,
                (#[trigger] self.frames@[i]).id@,
            ) && frame_covered(self.frames@[i], trees, blobs) by {
                if i < n {
                    assert(self.frames@[i] == old_frames[i]);
                    lemma_covered_mono(old_frames[i], old_trees, blobs, trees, blobs);
                }
            }
            assert forall|i: int|
                0 <= i < self.frames@.len() - 1 implies check_descends(#[trigger] self.frames@[i], self.frames@[i + 1]) by {
                assert(self.frames@[i] == old_frames[i]);
                if i < n - 1 {
                    assert(self.frames@[i + 1] == old_frames[i + 1]);
                }
            }
            assert forall|i: int|
                0 <= i < self.frames@.len() implies (#[trigger] self.frames@[i]).next
                <= self.frames@[i].tree.view().len() by {
                if i < n {
                    assert(self.frames@[i] == old_frames[i]);
                }
            }
        }
    }

    /// The blob asked for by `CheckBlob` was verified: it is recorded and the
    /// walk moves past it.
    pub fn blob_checked(&mut self)
        requires
            old(self).wf(),
            old(self).step() is CheckBlob,
        ensures
            final(self).wf(),
            final(self).stage is Walking,
            final(self).parent == old(self).parent,
            final(self).frames@.len() == old(self).frames@.len(),
            final(self).frames@.drop_last() == old(self).frames@.drop_last(),
            final(self).top().id == old(self).top().id,
            final(self).top().tree == old(self).top().tree,
            final(self).top().next == old(self).top().next + 1,
            final(self).checked_trees@ == old(self).checked_trees@,
            final(self).checked_blobs@.len() == old(self).checked_blobs@.len() + 1,
            final(self).checked_blobs@.drop_last() == old(self).checked_blobs@,
            final(self).checked_blobs@.last()@ == old(self).step()->CheckBlob_0,
            final(self).tree_contents == old(self).tree_contents,
            final(self).roots == old(self).roots,
    {
        let n = self.frames.len();
        let id = {
            let f = &self.frames[n - 1];
            let entries = f.tree.entries();
            match &entries[f.next].1 {
                TreeEntry::File { blob, .. } => blob.clone(),
                TreeEntry::Dir { tree, .. } => {
                    proof {
                        assert(false);
                    }
                    tree.clone()
                },
            }
        };
        let ghost old_blobs = self.checked_blobs@;
        let ghost trees = self.checked_trees@;
        self.checked_blobs.push(id.clone());
        proof {
            lemma_ids_push(old_blobs, id);
            assert(self.checked_blobs@.drop_last() =~= old_blobs);
            assert forall|i: int, j: int|
                0 <= i < j < self.checked_blobs@.len() implies (
                #[trigger] self.checked_blobs@[i])@ != (#[trigger] self.checked_blobs@[j])@ by {
                if j == old_blobs.len() {
                    assert(old_blobs[i] == self.checked_blobs@[i]);
                } else {
                    assert(old_blobs[i] == self.checked_blobs@[i]);
                    assert(old_blobs[j] == self.checked_blobs@[j]);
                }
            }
        }
        let ghost old_frames = self.frames@;
        let mut f = self.frames.pop().unwrap();
        proof {
            f.tree.lemma_len_fits();
        }
        f.next = f.next + 1;
        self.frames.push(f);
        proof {
            let blobs = self.checked_blobs@;
            assert(self.frames@.drop_last() =~= old_frames.drop_last());
            assert forall|i: int| 0 <= i < self.frames@.len() implies (#[trigger] self.frames@[i]).next
                <= self.frames@[i].tree.view().len() && ids_contain(trees, self.frames@[i].id@)
                && frame_covered(self.frames@[i], trees, blobs) by {
                lemma_covered_mono(old_frames[i], trees, old_blobs, trees, blobs);
                if i < n - 1 {
                    assert(self.frames@[i] == old_frames[i]);
                } else {
                    let g = self.frames@[i];
                    assert forall|j: int| 0 <= j < g.next implies entry_verified(
                        #[trigger] g.tree.view()[j].1,
                        trees,
                        blobs,
                    ) by {
                        if j < g.next - 1 {
                            assert(entry_verified(old_frames[i].tree.view()[j].1, trees, blobs));
                        }
                    }
                }
            }
            assert forall|i: int| 0 <= i < self.frames@.len() - 1 implies check_descends(#[trigger] self.frames@[i], self.frames@[i + 1]) by {
                assert(self.frames@[i] == old_frames[i]);
            }
            lemma_ids_push(old_blobs, self.checked_blobs@.last());
            assert(self.checked_blobs@ == old_blobs.push(self.checked_blobs@.last()));
            assert forall|i: int| 0 <= i < old_frames.len() implies (#[trigger] self.frames@[i]).id
                == old_frames[i].id && self.frames@[i].tree == old_frames[i].tree by {
                if i < n - 1 {
                    assert(self.frames@[i] == old_frames[i]);
                }
            }
            lemma_records_same_stack(trees, self.tree_contents@, old_frames, self.frames@, old_blobs, blobs);
        }
    }

    /// Moves past work that needs no loading: a root or entry already
    /// verified, or a tree whose entries are all walked. When the outermost
    /// tree is done, the check goes on with the parent snapshot.
    #[verifier::rlimit(40)]
    pub fn advance(&mut self)
        requires
            old(self).wf(),
            old(self).step() is Advance,
        ensures
            final(self).wf(),
            final(self).checked_trees@ == old(self).checked_trees@,
            final(self).checked_blobs@ == old(self).checked_blobs@,
            final(self).tree_contents == old(self).tree_contents,
            final(self).roots == old(self).roots,
            old(self).stage is Root ==> {
                &&& final(self).stage == CheckWalk::after_snapshot(old(self).parent)
                &&& final(self).parent is None
                &&& final(self).frames@ == old(self).frames@
            },
            old(self).stage is Walking && old(self).top().next < old(self).top().tree.view().len()
                ==> {
                &&& final(self).stage is Walking
                &&& final(self).parent == old(self).parent
                &&& final(self).frames@.len() == old(self).frames@.len()
                &&& final(self).frames@.drop_last() == old(self).frames@.drop_last()
                &&& final(self).top().id == old(self).top().id
                &&& final(self).top().tree == old(self).top().tree
                &&& final(self).top().next == old(self).top().next + 1
            },
            old(self).stage is Walking && old(self).top().next == old(self).top().tree.view().len()
                && old(self).frames@.len() == 1 ==> {
                &&& final(self).stage == CheckWalk::after_snapshot(old(self).parent)
                &&& final(self).parent is None
                &&& final(self).frames@.len() == 0
            },
            old(self).stage is Walking && old(self).top().next == old(self).top().tree.view().len()
                && old(self).frames@.len() > 1 ==> {
                &&& final(self).stage is Walking
                &&& final(self).parent == old(self).parent
                &&& final(self).frames@.len() == old(self).frames@.len() - 1
                &&& final(self).frames@.drop_last() == old(self).frames@.drop_last().drop_last()
                &&& final(self).top().id == old(self).frames@[old(self).frames@.len() - 2].id
                &&& final(self).top().tree == old(self).frames@[old(self).frames@.len() - 2].tree
                &&& final(self).top().next == old(self).frames@[old(self).frames@.len() - 2].next
                    + 1
            },
    {
        if let CheckStage::Root(_) = &self.stage {
            let ghost root = self.stage->Root_0;
            let parent = self.parent.take();
            self.stage = stage_after_snapshot(parent);
            proof {
                assert(ids_contain(self.checked_trees@, root@));
                assert forall|k: int| 0 <= k < self.roots@.len() implies ids_contain(
                    self.checked_trees@,
                    #[trigger] self.roots@[k],
                ) by {}
            }
            return;
        }
        let ghost old_frames = self.frames@;
        let ghost trees = self.checked_trees@;
        let ghost blobs = self.checked_blobs@;
        let n = self.frames.len();
        let mut f = self.frames.pop().unwrap();
        if f.next < f.tree.entries().len() {
            f.next = f.next + 1;
            self.frames.push(f);
            proof {
                assert(self.frames@.drop_last() =~= old_frames.drop_last());
                assert forall|i: int|
                    0 <= i < self.frames@.len() implies (#[trigger] self.frames@[i]).next
                    <= self.frames@[i].tree.view().len() && ids_contain(trees, self.frames@[i].id@)
                    && frame_covered(self.frames@[i], trees, blobs) by {
                    if i < n - 1 {
                        assert(self.frames@[i] == old_frames[i]);
                    } else {
                        let g = self.frames@[i];
                        assert forall|j: int| 0 <= j < g.next implies entry_verified(
                            #[trigger] g.tree.view()[j].1,
                            trees,
                            blobs,
                        ) by {
                            if j < g.next - 1 {
                                assert(entry_verified(old_frames[i].tree.view()[j].1, trees, blobs));
                            }
                        }
                    }
                }
                assert forall|i: int|
                    0 <= i < self.frames@.len() - 1 implies check_descends(#[trigger] self.frames@[i], self.frames@[i + 1]) by {
                    assert(self.frames@[i] == old_frames[i]);
                }
                assert forall|i: int| 0 <= i < old_frames.len() implies (#[trigger] self.frames@[i]).id
                    == old_frames[i].id && self.frames@[i].tree == old_frames[i].tree by {
                    if i < n - 1 {
                        assert(self.frames@[i] == old_frames[i]);
                    }
                }
                lemma_records_same_stack(
                    trees,
                    self.tree_contents@,
                    old_frames,
                    self.frames@,
                    blobs,
                    blobs,
                );
            }
            return;
        }
        proof {
            assert(frame_covered(old_frames[n - 1], trees, blobs));
            lemma_records_popped(trees, self.tree_contents@, old_frames, blobs);
        }
        if n == 1 {
            proof {
                assert(old_frames.drop_last() =~= self.frames@);
            }
            let parent = self.parent.take();
            self.stage = stage_after_snapshot(parent);
            return;
        }
        let mut g = self.frames.pop().unwrap();
        proof {
            g.tree.lemma_len_fits();
        }
        g.next = g.next + 1;
        self.frames.push(g);
        proof {
            assert(self.frames@.drop_last() =~= old_frames.drop_last().drop_last());
            assert(ids_contain(trees, old_frames[n - 1].id@));
            assert forall|i: int|
                0 <= i < self.frames@.len() implies (#[trigger] self.frames@[i]).next
                <= self.frames@[i].tree.view().len() && ids_contain(trees, self.frames@[i].id@)
                && frame_covered(self.frames@[i], trees, blobs) by {
                if i < n - 2 {
                    assert(self.frames@[i] == old_frames[i]);
                } else {
                    let h = self.frames@[i];
                    assert forall|j: int| 0 <= j < h.next implies entry_verified(
                        #[trigger] h.tree.view()[j].1,
                        trees,
                        blobs,
                    ) by {
                        if j < h.next - 1 {
                            assert(entry_verified(old_frames[i].tree.view()[j].1, trees, blobs));
                        }
                    }
                }
            }
            assert forall|i: int|
                0 <= i < self.frames@.len() - 1 implies check_descends(#[trigger] self.frames@[i], self.frames@[i + 1]) by {
                assert(self.frames@[i] == old_frames[i]);
                assert(old_frames[i + 1].id == self.frames@[i + 1].id);
            }
            let popped = old_frames.drop_last();
            assert forall|i: int| 0 <= i < popped.len() implies (#[trigger] self.frames@[i]).id
                == popped[i].id && self.frames@[i].tree == popped[i].tree by {
                if i < n - 2 {
                    assert(self.frames@[i] == old_frames[i]);
                }
            }
            lemma_records_same_stack(trees, self.tree_contents@, popped, self.frames@, blobs, blobs);
        }
    }
}

/// What a finished check has verified: the root tree of every snapshot it
/// loaded, and, for every tree it verified, the blob or tree each of that
/// tree's entries refers to; so every object reachable from the snapshots it
/// loaded has been verified.
pub proof fn lemma_check_complete(w: CheckWalk)
    requires
        w.wf(),
        w.stage is Finished,
    ensures
        w.tree_contents@.len() == w.checked_trees@.len(),
        forall|k: int|
            0 <= k < w.roots@.len() ==> ids_contain(w.checked_trees@, #[trigger] w.roots@[k]),
        forall|k: int|
            0 <= k < w.tree_contents@.len() ==> tree_done(
                #[trigger] w.tree_contents@[k],
                w.checked_trees@,
                w.checked_blobs@,
            ),
{
    assert forall|k: int| 0 <= k < w.tree_contents@.len() implies tree_done(
        #[trigger] w.tree_contents@[k],
        w.checked_trees@,
        w.checked_blobs@,
    ) by {
        assert(!on_stack(w.frames@, w.checked_trees@[k]@));
    }
}

/// A finished check reports exactly how many trees and how many blobs it verified.
pub proof fn lemma_check_done_counts(w: CheckWalk)
    requires
        w.wf(),
        w.stage is Finished,
    ensures
        w.step() == (CheckStep::Done {
            trees: w.checked_trees@.len(),
            blobs: w.checked_blobs@.len(),
        }),
{
}

/// A check never verifies an object twice: whenever it asks for a tree or a
/// blob, that object is not among those already verified, and the verified
/// lists it keeps hold each identifier once.
pub proof fn lemma_check_verifies_once(w: CheckWalk)
    requires
        w.wf(),
    ensures
        ids_unique(w.checked_trees@),
        ids_unique(w.checked_blobs@),
        w.step() matches CheckStep::CheckTree(id) ==> !ids_contain(w.checked_trees@, id),
        w.step() matches CheckStep::CheckBlob(id) ==> !ids_contain(w.checked_blobs@, id),
{
}

/// A check passes over nothing unverified: every tree it is walking has been
/// verified, and every entry it has moved past refers to a verified blob or tree.
pub proof fn lemma_check_covers_walked_entries(w: CheckWalk, i: int, j: int)
    requires
        w.wf(),
        0 <= i < w.frames@.len(),
        0 <= j < w.frames@[i].next,
    ensures
        ids_contain(w.checked_trees@, w.frames@[i].id@),
        entry_verified(w.frames@[i].tree.view()[j].1, w.checked_trees@, w.checked_blobs@),
{
    assert(frame_covered(w.frames@[i], w.checked_trees@, w.checked_blobs@));
}

// ---------------------------------------------------------------------------
// Listing snapshots
// ---------------------------------------------------------------------------

/// A listing of snapshots, newest first, following parent links.
pub struct SnapshotList {
    /// There is no latest-snapshot index.
    pub empty: bool,
    /// The snapshot to list next.
    pub next: Option<String>,
    /// The snapshots listed so far, newest first.
    pub listed: Vec<String>,
}

/// What the caller is to do next in a listing.
pub enum ListAction {
    /// Report that there are no snapshots.
    NoSnapshots,
    /// Load this snapshot, report it, then call `snapshot_listed`.
    Load(String),
    /// The listing is complete.
    Done,
}

/// Starts listing snapshots from the latest-snapshot index text, if the
/// index could be read.
pub fn list_snapshots(latest_index: Option<&str>) -> (l: SnapshotList)
    ensures
        l.listed@.len() == 0,
        match latest_index {
            None => l.empty && l.next is None,
            Some(text) => !l.empty && (l.next matches Some(id) && id@ == trim(text@)),
        },
{
    match latest_index {
        None => SnapshotList { empty: true, next: None, listed: Vec::new() },
        Some(text) => SnapshotList {
            empty: false,
            next: Some(trim_str(text).to_owned()),
            listed: Vec::new(),
        },
    }
}

impl SnapshotList {
    /// What to do next.
    pub fn next_action(&self) -> (a: ListAction)
        ensures
            self.empty ==> a is NoSnapshots,
            !self.empty ==> match self.next {
                Some(id) => a matches ListAction::Load(x) && x@ == id@,
                None => a is Done,
            },
    {
        if self.empty {
            return ListAction::NoSnapshots;
        }
        match &self.next {
            Some(id) => ListAction::Load(id.clone()),
            None => ListAction::Done,
        }
    }

    /// The snapshot asked for by `Load` was loaded and reported; its parent
    /// is listed next.
    pub fn snapshot_listed(&mut self, snapshot: &Snapshot)
        requires
            !old(self).empty,
            old(self).next is Some,
        ensures
            !final(self).empty,
            final(self).listed@ == old(self).listed@.push(old(self).next->Some_0),
            final(self).next == snapshot.parent,
    {
        let current = self.next.take();
        match current {
            Some(id) => self.listed.push(id),
            None => {},
        }
        self.next = match &snapshot.parent {
            Some(p) => Some(p.clone()),
            None => None,
        };
    }
}

// ---------------------------------------------------------------------------
// Restore
// ---------------------------------------------------------------------------

/// Why a restore cannot start.
#[derive(Clone, Copy, Debug, PartialEq, Eq)]
pub enum RestoreError {
    /// The restore target already exists.
    TargetExists,
}

/// Where a restore stands.
pub enum RestoreStage {
    /// The latest-snapshot index is to be read to find the snapshot.
    NeedLatest,
    /// This snapshot is to be loaded.
    NeedSnapshot(String),
    /// The snapshot's root tree is to be restored into the target.
    NeedRoot(String),
    /// Trees are being restored.
    Walking,
}

/// A directory being restored: where, from which tree, how far, and the
/// permission bits and modification time to give it when done (none for the
/// target itself).
pub struct RestoreFrame {
    pub path: String,
    pub tree: Tree,
    pub next: usize,
    pub meta: Option<(u32, i64)>,
}

/// A restore of one snapshot into a target directory, in the order of a
/// depth-first walk of its trees.
pub struct RestoreWalk {
    pub target: String,
    pub stage: RestoreStage,
    pub frames: Vec<RestoreFrame>,
}

/// What the caller is to do next in a restore.
pub enum RestoreAction {
    /// Read the latest-snapshot index, then call `latest_read`.
    ReadLatest,
    /// Load, verify and decode this snapshot, then call `snapshot_loaded`.
    LoadSnapshot(String),
    /// Load, verify and decode this tree, create the directory, then call `tree_restored`.
    RestoreTree { tree: String, path: String },
    /// Restore this blob to the path and set its mode and modification time,
    /// then call `file_restored`.
    RestoreFile { blob: String, path: String, mode: u32, mtime: i64 },
    /// Set the restored directory's mode and modification time, then call `dir_finished`.
    FinishDir { path: String, mode: u32, mtime: i64 },
    /// The restore is complete.
    Done,
}

/// The meaning of a restore action, with strings as character sequences.
pub enum RestoreStep {
    ReadLatest,
    LoadSnapshot(Seq<char>),
    RestoreTree { tree: Seq<char>, path: Seq<char> },
    RestoreFile { blob: Seq<char>, path: Seq<char>, mode: u32, mtime: i64 },
    FinishDir { path: Seq<char>, mode: u32, mtime: i64 },
    Done,
}

impl View for RestoreAction {
    type V = RestoreStep;

    open spec fn view(&self) -> RestoreStep {
        match self {
            RestoreAction::ReadLatest => RestoreStep::ReadLatest,
            RestoreAction::LoadSnapshot(id) => RestoreStep::LoadSnapshot(id@),
            RestoreAction::RestoreTree { tree, path } => RestoreStep::RestoreTree {
                tree: tree@,
                path: path@,
            },
            RestoreAction::RestoreFile { blob, path, mode, mtime } => RestoreStep::RestoreFile {
                blob: blob@,
                path: path@,
                mode: *mode,
                mtime: *mtime,
            },
            RestoreAction::FinishDir { path, mode, mtime } => RestoreStep::FinishDir {
                path: path@,
                mode: *mode,
                mtime: *mtime,
            },
            RestoreAction::Done => RestoreStep::Done,
        }
    }
}

/// The frame entered by descending from `parent` into its current entry.
pub open spec fn restore_child_of(parent: RestoreFrame, child: RestoreFrame) -> bool {
    let (name, entry) = parent.tree.view()[parent.next as int];
    &&& child.path@ == path_join(parent.path@, name@)
    &&& entry matches TreeEntry::Dir { mode, mtime, .. } && child.meta == Some((mode, mtime))
}

impl RestoreWalk {
    /// The walk is consistent: frames exist exactly while walking, the
    /// outermost is the target itself, each inner frame is the directory entry
    /// its enclosing frame is at, and positions lie within their trees.
    pub open spec fn wf(&self) -> bool {
        &&& (self.stage is Walking <==> self.frames@.len() > 0)
        &&& self.frames@.len() > 0 ==> self.frames@[0].path@ == self.target@
            && self.frames@[0].meta is None
        &&& forall|i: int|
            0 <= i < self.frames@.len() ==> (#[trigger] self.frames@[i]).next
                <= self.frames@[i].tree.view().len()
        &&& forall|i: int|
            0 <= i < self.frames@.len() - 1 ==> (#[trigger] self.frames@[i]).next
                < self.frames@[i].tree.view().len() && restore_child_of(
                self.frames@[i],
                self.frames@[i + 1],
            )
    }

    /// The frame being restored.
    pub open spec fn top(&self) -> RestoreFrame {
        self.frames@.last()
    }

    /// What to do next.
    pub open spec fn step(&self) -> RestoreStep {
        match self.stage {
            RestoreStage::NeedLatest => RestoreStep::ReadLatest,
            RestoreStage::NeedSnapshot(id) => RestoreStep::LoadSnapshot(id@),
            RestoreStage::NeedRoot(id) => RestoreStep::RestoreTree { tree: id@, path: self.target@ },
            RestoreStage::Walking => {
                let f = self.top();
                if f.next < f.tree.view().len() {
                    let (name, entry) = f.tree.view()[f.next as int];
                    match entry {
                        TreeEntry::File { blob, mode, mtime, .. } => RestoreStep::RestoreFile {
                            blob: blob@,
                            path: path_join(f.path@, name@),
                            mode,
                            mtime,
                        },
                        TreeEntry::Dir { tree, .. } => RestoreStep::RestoreTree {
                            tree: tree@,
                            path: path_join(f.path@, name@),
                        },
                    }
                } else {
                    match f.meta {
                        Some((mode, mtime)) => RestoreStep::FinishDir { path: f.path@, mode, mtime },
                        None => RestoreStep::Done,
                    }
                }
            },
        }
    }

    /// What to do next. A file is restored with the blob, mode and
    /// modification time of its tree entry, at its name below the directory
    /// being restored; a finished subdirectory gets the mode and modification
    /// time of its entry in its parent's tree.
    pub fn next_action(&self) -> (a: RestoreAction)
        requires
            self.wf(),
        ensures
            a@ == self.step(),
            self.stage is Walking && self.top().next < self.top().tree.view().len() ==> ({
                let (name, entry) = self.top().tree.view()[self.top().next as int];
                entry matches TreeEntry::File { blob, mode, mtime, .. } ==> (
                a matches RestoreAction::RestoreFile { blob: b, path: p, mode: m, mtime: t } && b@
                    == blob@ && p@ == path_join(self.top().path@, name@) && m == mode && t == mtime)
            }),
            self.stage is Walking && self.top().next == self.top().tree.view().len()
                && self.frames@.len() > 1 ==> ({
                let parent = self.frames@[self.frames@.len() - 2];
                parent.tree.view()[parent.next as int].1 matches TreeEntry::Dir { mode, mtime, .. }
                    && (a matches RestoreAction::FinishDir { path: p, mode: m, mtime: t } && p@
                    == self.top().path@ && m == mode && t == mtime)
            }),
            self.stage is Walking && self.top().next == self.top().tree.view().len()
                && self.frames@.len() == 1 ==> a is Done,
            self.stage is Walking && self.top().next < self.top().tree.view().len() ==> ({
                let (name, entry) = self.top().tree.view()[self.top().next as int];
                entry matches TreeEntry::Dir { tree, .. } ==> (
                a matches RestoreAction::RestoreTree { tree: x, path: p } && x@ == tree@ && p@
                    == path_join(self.top().path@, name@))
            }),
            self.stage matches RestoreStage::NeedRoot(root) ==> (
            a matches RestoreAction::RestoreTree { tree: x, path: p } && x@ == root@ && p@
                == self.target@),
    {
        proof {
            if self.stage is Walking && self.frames@.len() > 1 {
                assert(restore_child_of(
                    self.frames@[self.frames@.len() - 2],
                    self.frames@[self.frames@.len() - 1],
                ));
            }
        }
        match &self.stage {
            RestoreStage::NeedLatest => RestoreAction::ReadLatest,
            RestoreStage::NeedSnapshot(id) => RestoreAction::LoadSnapshot(id.clone()),
            RestoreStage::NeedRoot(id) => RestoreAction::RestoreTree {
                tree: id.clone(),
                path: self.target.clone(),
            },
            RestoreStage::Walking => {
                let f = &self.frames[self.frames.len() - 1];
                let entries = f.tree.entries();
                if f.next < entries.len() {
                    let (name, entry) = &entries[f.next];
                    let path = join_path(f.path.as_str(), name.as_str());
                    match entry {
                        TreeEntry::File { blob, mode, mtime, .. } => RestoreAction::RestoreFile {
                            blob: blob.clone(),
                            path,
                            mode: *mode,
                            mtime: *mtime,
                        },
                        TreeEntry::Dir { tree, .. } => RestoreAction::RestoreTree {
                            tree: tree.clone(),
                            path,
                        },
                    }
                } else {
                    match f.meta {
                        Some((mode, mtime)) => RestoreAction::FinishDir {
                            path: f.path.clone(),
                            mode,
                            mtime,
                        },
                        None => RestoreAction::Done,
                    }
                }
            },
        }
    }

    /// The latest-snapshot index asked for by `ReadLatest` holds `index_text`.
    pub fn latest_read(&mut self, index_text: &str)
        requires
            old(self).wf(),
            old(self).stage is NeedLatest,
        ensures
            final(self).wf(),
            final(self).target == old(self).target,
            final(self).frames@ == old(self).frames@,
            final(self).stage matches RestoreStage::NeedSnapshot(id) && id@ == trim(index_text@),
            final(self).step() == RestoreStep::LoadSnapshot(trim(index_text@)),
    {
        self.stage = RestoreStage::NeedSnapshot(trim_str(index_text).to_owned());
    }

    /// The snapshot asked for by `LoadSnapshot` was loaded, verified and decoded.
    pub fn snapshot_loaded(&mut self, snapshot: &Snapshot)
        requires
            old(self).wf(),
            old(self).stage is NeedSnapshot,
        ensures
            final(self).wf(),
            final(self).target == old(self).target,
            final(self).frames@ == old(self).frames@,
            final(self).stage matches RestoreStage::NeedRoot(r) && r@ == snapshot.root_tree@,
    {
        self.stage = RestoreStage::NeedRoot(snapshot.root_tree.clone());
    }

    /// The tree asked for by `RestoreTree` was loaded, verified and decoded,
    /// and its directory created: its entries are restored next.
    pub fn tree_restored(&mut self, tree: Tree)
        requires
            old(self).wf(),
            old(self).step() is RestoreTree,
        ensures
            final(self).wf(),
            final(self).stage is Walking,
            final(self).target == old(self).target,
            final(self).frames@.drop_last() == old(self).frames@,
            final(self).top().tree == tree,
            final(self).top().next == 0,
            final(self).top().path@ == old(self).step()->RestoreTree_path,
            old(self).stage is NeedRoot ==> final(self).top().meta is None,
            old(self).stage is Walking ==> restore_child_of(old(self).top(), final(self).top()),
    {
        if let RestoreStage::NeedRoot(_) = &self.stage {
            self.frames.push(RestoreFrame { path: self.target.clone(), tree, next: 0, meta: None });
            self.stage = RestoreStage::Walking;
            return;
        }
        let ghost old_frames = self.frames@;
        let n = self.frames.len();
        let (path, meta) = {
            let f = &self.frames[n - 1];
            let entries = f.tree.entries();
            let (name, entry) = &entries[f.next];
            let path = join_path(f.path.as_str(), name.as_str());
            let meta = match entry {
                TreeEntry::Dir { mode, mtime, .. } => (*mode, *mtime),
                TreeEntry::File { mode, mtime, .. } => {
                    proof {
                        assert(false);
                    }
                    (*mode, *mtime)
                },
            };
            (path, meta)
        };
        self.frames.push(RestoreFrame { path, tree, next: 0, meta: Some(meta) });
        proof {
            assert forall|i: int|
                0 <= i < self.frames@.len() - 1 implies (#[trigger] self.frames@[i]).next
                < self.frames@[i].tree.view().len() && restore_child_of(
                self.frames@[i],
                self.frames@[i + 1],
            ) by {
                assert(self.frames@[i] == old_frames[i]);
                if i < n - 1 {
                    assert(self.frames@[i + 1] == old_frames[i + 1]);
                }
            }
            assert forall|i: int|
                0 <= i < self.frames@.len() implies (#[trigger] self.frames@[i]).next
                <= self.frames@[i].tree.view().len() by {
                if i < n {
                    assert(self.frames@[i] == old_frames[i]);
                }
            }
        }
    }

    /// The file asked for by `RestoreFile` was restored: the walk moves past it.
    pub fn file_restored(&mut self)
        requires
            old(self).wf(),
            old(self).step() is RestoreFile,
        ensures
            final(self).wf(),
            final(self).stage is Walking,
            final(self).target == old(self).target,
            final(self).frames@.len() == old(self).frames@.len(),
            final(self).frames@.drop_last() == old(self).frames@.drop_last(),
            final(self).top().tree == old(self).top().tree,
            final(self).top().path == old(self).top().path,
            final(self).top().meta == old(self).top().meta,
            final(self).top().next == old(self).top().next + 1,
    {
        let ghost old_frames = self.frames@;
        let n = self.frames.len();
        let mut f = self.frames.pop().unwrap();
        proof {
            f.tree.lemma_len_fits();
        }
        f.next = f.next + 1;
        self.frames.push(f);
        proof {
            assert(self.frames@.drop_last() =~= old_frames.drop_last());
            assert forall|i: int|
                0 <= i < self.frames@.len() implies (#[trigger] self.frames@[i]).next
                <= self.frames@[i].tree.view().len() by {
                if i < n - 1 {
                    assert(self.frames@[i] == old_frames[i]);
                }
            }
            assert forall|i: int|
                0 <= i < self.frames@.len() - 1 implies (#[trigger] self.frames@[i]).next
                < self.frames@[i].tree.view().len() && restore_child_of(
                self.frames@[i],
                self.frames@[i + 1],
            ) by {
                assert(self.frames@[i] == old_frames[i]);
                if i < n - 2 {
                    assert(self.frames@[i + 1] == old_frames[i + 1]);
                } else {
                    assert(restore_child_of(old_frames[i], old_frames[i + 1]));
                }
            }
        }
    }

    /// The directory asked for by `FinishDir` has its mode and modification
    /// time: the enclosing directory moves past it.
    pub fn dir_finished(&mut self)
        requires
            old(self).wf(),
            old(self).step() is FinishDir,
        ensures
            final(self).wf(),
            final(self).stage is Walking,
            final(self).target == old(self).target,
            final(self).frames@.len() == old(self).frames@.len() - 1,
            final(self).frames@.drop_last() == old(self).frames@.drop_last().drop_last(),
            final(self).top().tree == old(self).frames@[old(self).frames@.len() - 2].tree,
            final(self).top().path == old(self).frames@[old(self).frames@.len() - 2].path,
            final(self).top().meta == old(self).frames@[old(self).frames@.len() - 2].meta,
            final(self).top().next == old(self).frames@[old(self).frames@.len() - 2].next + 1,
    {
        let ghost old_frames = self.frames@;
        let n = self.frames.len();
        let _ = self.frames.pop();
        let mut g = self.frames.pop().unwrap();
        proof {
            g.tree.lemma_len_fits();
        }
        g.next = g.next + 1;
        self.frames.push(g);
        proof {
            assert(self.frames@.drop_last() =~= old_frames.drop_last().drop_last());
            assert forall|i: int|
                0 <= i < self.frames@.len() implies (#[trigger] self.frames@[i]).next
                <= self.frames@[i].tree.view().len() by {
                if i < n - 2 {
                    assert(self.frames@[i] == old_frames[i]);
                }
            }
            assert forall|i: int|
                0 <= i < self.frames@.len() - 1 implies (#[trigger] self.frames@[i]).next
                < self.frames@[i].tree.view().len() && restore_child_of(
                self.frames@[i],
                self.frames@[i + 1],
            ) by {
                assert(self.frames@[i] == old_frames[i]);
                if i < n - 3 {
                    assert(self.frames@[i + 1] == old_frames[i + 1]);
                } else {
                    assert(restore_child_of(old_frames[i], old_frames[i + 1]));
                }
            }
        }
    }
}

/// Where a restore writes: the target itself, and inside it each directory at
/// the join of its parent's path and its name, to be given that entry's mode
/// and modification time when done.
pub proof fn lemma_restore_paths(w: RestoreWalk, i: int)
    requires
        w.wf(),
        0 < i < w.frames@.len(),
    ensures
        w.frames@[0].path@ == w.target@,
        ({
            let parent = w.frames@[i - 1];
            let (name, entry) = parent.tree.view()[parent.next as int];
            &&& w.frames@[i].path@ == path_join(parent.path@, name@)
            &&& entry matches TreeEntry::Dir { mode, mtime, .. } && w.frames@[i].meta == Some(
                (mode, mtime),
            )
        }),
{
    assert(restore_child_of(w.frames@[i - 1], w.frames@[i]));
}

/// The snapshot reference that names the latest snapshot.
pub open spec fn is_latest_ref(snapshot_ref: Seq<char>) -> bool {
    snapshot_ref == "latest"@
}

/// A file is restored from its tree entry: the blob, permission mode and
/// modification time recorded there, at the entry's name below the directory
/// being restored.
pub proof fn lemma_restore_file_metadata(w: RestoreWalk)
    requires
        w.wf(),
        w.stage is Walking,
        w.top().next < w.top().tree.view().len(),
        w.top().tree.view()[w.top().next as int].1 is File,
    ensures
        ({
            let (name, entry) = w.top().tree.view()[w.top().next as int];
            w.step() == (RestoreStep::RestoreFile {
                blob: entry->File_blob@,
                path: path_join(w.top().path@, name@),
                mode: entry->File_mode,
                mtime: entry->File_mtime,
            })
        }),
{
}

/// A restored subdirectory is finished with the permission mode and
/// modification time recorded for it in its parent's tree; the target itself
/// is left as created, and the restore ends.
pub proof fn lemma_restore_dir_metadata(w: RestoreWalk)
    requires
        w.wf(),
        w.stage is Walking,
        w.top().next == w.top().tree.view().len(),
    ensures
        w.frames@.len() == 1 ==> w.step() == RestoreStep::Done,
        w.frames@.len() > 1 ==> ({
            let parent = w.frames@[w.frames@.len() - 2];
            let entry = parent.tree.view()[parent.next as int].1;
            &&& entry is Dir
            &&& w.step() == (RestoreStep::FinishDir {
                path: w.top().path@,
                mode: entry->Dir_mode,
                mtime: entry->Dir_mtime,
            })
        }),
{
    if w.frames@.len() > 1 {
        assert(restore_child_of(w.frames@[w.frames@.len() - 2], w.frames@[w.frames@.len() - 1]));
    }
}

/// The first step of a restore of `snapshot_ref`: read the latest-snapshot
/// index for "latest", and otherwise load the named snapshot.
pub open spec fn restore_first_step(snapshot_ref: Seq<char>) -> RestoreStep {
    if is_latest_ref(snapshot_ref) {
        RestoreStep::ReadLatest
    } else {
        RestoreStep::LoadSnapshot(snapshot_ref)
    }
}

/// Restoring "latest" is restoring the snapshot the index names: that restore
/// first reads the index, and once it has read `index_text` its next step is
/// the first step of a restore of the identifier written there (into the same
/// target, with nothing restored yet), for every index whose trimmed text is
/// not itself "latest".
pub proof fn lemma_restore_latest(index_text: Seq<char>)
    requires
        !is_latest_ref(trim(index_text)),
    ensures
        restore_first_step("latest"@) == RestoreStep::ReadLatest,
        RestoreStep::LoadSnapshot(trim(index_text)) == restore_first_step(trim(index_text)),
{
}

/// Starts restoring the snapshot `snapshot_ref` (a snapshot identifier, or
/// `latest`) into `target`, which must not exist yet.
pub fn run_restore(target: &str, target_exists: bool, snapshot_ref: &str) -> (r: Result<
    RestoreWalk,
    RestoreError,
>)
    ensures
        target_exists ==> (r matches Err(e) && e == RestoreError::TargetExists),
        !target_exists ==> (r matches Ok(w) && w.wf() && w.target@ == target@ && w.frames@.len()
            == 0 && w.step() == restore_first_step(snapshot_ref@) && if is_latest_ref(snapshot_ref@) {
            w.stage is NeedLatest
        } else {
            w.stage matches RestoreStage::NeedSnapshot(id) && id@ == snapshot_ref@
        }),
{
    if target_exists {
        return Err(RestoreError::TargetExists);
    }
    let wanted = snapshot_ref.to_owned();
    let latest = "latest".to_owned();
    let stage = if wanted == latest {
        RestoreStage::NeedLatest
    } else {
        RestoreStage::NeedSnapshot(wanted)
    };
    Ok(RestoreWalk { target: target.to_owned(), stage, frames: Vec::new() })
}

impl Snapshot {
    /// Starts restoring snapshot `hash` into `target`.
    pub fn restore(hash: &str, target: &str) -> (w: RestoreWalk)
        ensures
            w.wf(),
            w.target@ == target@,
            w.frames@.len() == 0,
            w.stage matches RestoreStage::NeedSnapshot(id) && id@ == hash@,
    {
        RestoreWalk {
            target: target.to_owned(),
            stage: RestoreStage::NeedSnapshot(hash.to_owned()),
            frames: Vec::new(),
        }
    }
}

// ---------------------------------------------------------------------------
// Backup
// ---------------------------------------------------------------------------

/// Why a backup cannot start.
#[derive(Clone, Copy, Debug, PartialEq, Eq)]
pub enum BackupError {
    /// The backup source does not exist.
    SourceMissing,
    /// The backup source is not a directory.
    SourceNotDirectory,
}

/// What kind of file-system object a directory entry is.
#[derive(Clone, Copy, Debug, PartialEq, Eq)]
pub enum EntryKind {
    File,
    Dir,
    Other,
}

/// A directory entry as read from the file system: its name and metadata.
pub struct DirEntryInfo {
    pub name: String,
    pub kind: EntryKind,
    pub size: u64,
    pub mode: u32,
    pub mtime: i64,
}

/// A directory being backed up: its path, its listing, how far the listing
/// has been processed, the tree built so far, the identifier each processed
/// entry was stored under (none for entries left out), and the plaintext each
/// was stored with.
pub struct BackupFrame {
    pub path: String,
    pub listing: Vec<DirEntryInfo>,
    pub next: usize,
    pub tree: Tree,
    pub ids: Ghost<Seq<Option<String>>>,
    pub contents: Ghost<Seq<Seq<u8>>>,
}

/// Where a backup stands.
pub enum BackupStage {
    /// The source directory is to be read.
    ReadRoot,
    /// Directories are being walked.
    Walking,
    /// The tree of the source is stored under this identifier; the snapshot is to be made.
    Snapshot(String),
    /// The snapshot is made; it is to be stored and recorded as the latest.
    StoreSnapshot,
    /// The snapshot is stored under this identifier.
    Finished(String),
}

/// A backup of a directory: a depth-first walk that stores each file as a
/// blob and each directory as a tree (children before parents), then records
/// a snapshot of the root tree. Besides the snapshot once made, it keeps the
/// plaintexts the root tree and the snapshot were stored with, and the
/// latest-snapshot index text the snapshot was made from.
pub struct BackupWalk {
    pub source: String,
    pub stage: BackupStage,
    pub frames: Vec<BackupFrame>,
    pub made: Option<Snapshot>,
    pub root_plaintext: Ghost<Seq<u8>>,
    pub latest_index: Ghost<Option<Seq<char>>>,
    pub snapshot_plaintext: Ghost<Seq<u8>>,
}

/// What the caller is to do next in a backup.
pub enum BackupAction {
    /// List this directory with each entry's metadata, then call `dir_read`.
    ReadDir(String),
    /// Read this file and store it as a blob, then call `file_stored`.
    StoreFile(String),
    /// The current entry is neither a file nor a directory: call `advance`.
    Advance,
    /// Store the tree returned by `tree`, then call `tree_stored`.
    StoreTree,
    /// Read the latest-snapshot index, then call `make_snapshot` for this root tree.
    CreateSnapshot(String),
    /// Store the snapshot returned by `snapshot`, record it as the latest,
    /// then call `snapshot_created`.
    StoreSnapshot,
    /// The backup is complete: the identifier of its snapshot.
    Done(String),
}

/// The meaning of a backup action, with strings as character sequences.
pub enum BackupStep {
    ReadDir(Seq<char>),
    StoreFile(Seq<char>),
    Advance,
    StoreTree,
    CreateSnapshot(Seq<char>),
    StoreSnapshot,
    Done(Seq<char>),
}

impl View for BackupAction {
    type V = BackupStep;

    open spec fn view(&self) -> BackupStep {
        match self {
            BackupAction::ReadDir(p) => BackupStep::ReadDir(p@),
            BackupAction::StoreFile(p) => BackupStep::StoreFile(p@),
            BackupAction::Advance => BackupStep::Advance,
            BackupAction::StoreTree => BackupStep::StoreTree,
            BackupAction::CreateSnapshot(id) => BackupStep::CreateSnapshot(id@),
            BackupAction::StoreSnapshot => BackupStep::StoreSnapshot,
            BackupAction::Done(id) => BackupStep::Done(id@),
        }
    }
}

/// The frame entered by descending from `parent` into its current entry.
pub open spec fn backup_child_of(parent: BackupFrame, child: BackupFrame) -> bool {
    let info = parent.listing@[parent.next as int];
    &&& info.kind == EntryKind::Dir
    &&& child.path@ == path_join(parent.path@, info.name@)
}

/// The tree entry recorded for a file stored as `blob`.
pub open spec fn file_entry(info: DirEntryInfo, blob: String) -> TreeEntry {
    TreeEntry::File { blob, size: info.size, mode: info.mode, mtime: info.mtime }
}

/// The tree entry recorded for a directory stored as `tree`.
pub open spec fn dir_entry(info: DirEntryInfo, tree: String) -> TreeEntry {
    TreeEntry::Dir { tree, mode: info.mode, mtime: info.mtime }
}

/// The tree of a directory whose first entries are `listing`, stored under
/// `ids`: each file and subdirectory is entered under its name (a later entry
/// of the same name replacing an earlier one), and anything else is left out.
pub open spec fn built_tree(listing: Seq<DirEntryInfo>, ids: Seq<Option<String>>) -> Seq<
    (String, TreeEntry),
>
    decreases listing.len(),
{
    if listing.len() == 0 {
        Seq::empty()
    } else {
        let before = built_tree(listing.drop_last(), ids.drop_last());
        let info = listing.last();
        match info.kind {
            EntryKind::File => inserted(before, info.name, file_entry(info, ids.last()->Some_0)),
            EntryKind::Dir => inserted(before, info.name, dir_entry(info, ids.last()->Some_0)),
            EntryKind::Other => before,
        }
    }
}

/// The tree of a frame is what its processed entries build; each file and
/// subdirectory among them was stored, under the content identifier of the
/// plaintext it was stored with, and nothing else was.
pub open spec fn frame_built(f: BackupFrame) -> bool {
    &&& f.ids@.len() == f.next
    &&& f.contents@.len() == f.next
    &&& f.tree.view() == built_tree(f.listing@.take(f.next as int), f.ids@)
    &&& forall|k: int|
        0 <= k < f.next ==> ((#[trigger] f.ids@[k] is Some) <==> f.listing@[k].kind
            != EntryKind::Other)
    &&& forall|k: int|
        0 <= k < f.next && (#[trigger] f.ids@[k]) is Some ==> f.ids@[k]->Some_0@ == content_id(
            f.contents@[k],
        )
}

/// `s` is the snapshot of the root tree stored with plaintext `root`, made
/// from the latest-snapshot index text `latest` (none when it could not be read).
pub open spec fn snapshot_of(s: Snapshot, root: Seq<u8>, latest: Option<Seq<char>>) -> bool {
    &&& s.root_tree@ == content_id(root)
    &&& opt_view(s.parent) == match latest {
        Some(text) => Some(trim(text)),
        None => None::<Seq<char>>,
    }
}

proof fn lemma_built_step(listing: Seq<DirEntryInfo>, n: int, ids: Seq<Option<String>>, id: Option<String>)
    requires
        0 <= n < listing.len(),
        ids.len() == n,
    ensures
        ({
            let before = built_tree(listing.take(n), ids);
            let info = listing[n];
            built_tree(listing.take(n + 1), ids.push(id)) == match info.kind {
                EntryKind::File => inserted(before, info.name, file_entry(info, id->Some_0)),
                EntryKind::Dir => inserted(before, info.name, dir_entry(info, id->Some_0)),
                EntryKind::Other => before,
            }
        }),
{
    let l = listing.take(n + 1);
    assert(l.drop_last() =~= listing.take(n));
    assert(ids.push(id).drop_last() =~= ids);
    assert(l.last() == listing[n]);
}

impl BackupWalk {
    /// The walk is consistent: frames exist exactly while walking, the
    /// outermost is the source itself, each inner frame is the directory entry
    /// its enclosing frame is at, and positions lie within their listings.
    pub open spec fn wf(&self) -> bool {
        &&& (self.stage is Walking <==> self.frames@.len() > 0)
        &&& self.frames@.len() > 0 ==> self.frames@[0].path@ == self.source@
        &&& forall|i: int|
            0 <= i < self.frames@.len() ==> (#[trigger] self.frames@[i]).next
                <= self.frames@[i].listing@.len()
        &&& forall|i: int|
            0 <= i < self.frames@.len() - 1 ==> (#[trigger] self.frames@[i]).next
                < self.frames@[i].listing@.len() && backup_child_of(
                self.frames@[i],
                self.frames@[i + 1],
            )
        &&& forall|i: int| 0 <= i < self.frames@.len() ==> frame_built(#[trigger] self.frames@[i])
        &&& (self.stage matches BackupStage::Snapshot(root) ==> root@ == content_id(
            self.root_plaintext@,
        ))
        &&& (self.stage is StoreSnapshot || self.stage is Finished) ==> (self.made matches Some(
            s,
        ) && snapshot_of(s, self.root_plaintext@, self.latest_index@))
        &&& (self.stage matches BackupStage::Finished(id) ==> id@ == content_id(
            self.snapshot_plaintext@,
        ))
    }

    /// The frame being processed.
    pub open spec fn top(&self) -> BackupFrame {
        self.frames@.last()
    }

    /// What to do next.
    pub open spec fn step(&self) -> BackupStep {
        match self.stage {
            BackupStage::ReadRoot => BackupStep::ReadDir(self.source@),
            BackupStage::Walking => {
                let f = self.top();
                if f.next < f.listing@.len() {
                    let info = f.listing@[f.next as int];
                    match info.kind {
                        EntryKind::File => BackupStep::StoreFile(path_join(f.path@, info.name@)),
                        EntryKind::Dir => BackupStep::ReadDir(path_join(f.path@, info.name@)),
                        EntryKind::Other => BackupStep::Advance,
                    }
                } else {
                    BackupStep::StoreTree
                }
            },
            BackupStage::Snapshot(id) => BackupStep::CreateSnapshot(id@),
            BackupStage::StoreSnapshot => BackupStep::StoreSnapshot,
            BackupStage::Finished(id) => BackupStep::Done(id@),
        }
    }

    /// What to do next.
    pub fn next_action(&self) -> (a: BackupAction)
        requires
            self.wf(),
        ensures
            a@ == self.step(),
            self.stage is Walking && self.top().next < self.top().listing@.len() ==> ({
                let info = self.top().listing@[self.top().next as int];
                let p = path_join(self.top().path@, info.name@);
                &&& info.kind == EntryKind::File ==> (a matches BackupAction::StoreFile(x) && x@ == p)
                &&& info.kind == EntryKind::Dir ==> (a matches BackupAction::ReadDir(x) && x@ == p)
                &&& info.kind == EntryKind::Other ==> a is Advance
            }),
            self.stage is ReadRoot ==> (a matches BackupAction::ReadDir(x) && x@ == self.source@),
    {
        match &self.stage {
            BackupStage::ReadRoot => BackupAction::ReadDir(self.source.clone()),
            BackupStage::Walking => {
                let f = &self.frames[self.frames.len() - 1];
                if f.next < f.listing.len() {
                    let info = &f.listing[f.next];
                    match info.kind {
                        EntryKind::File => BackupAction::StoreFile(
                            join_path(f.path.as_str(), info.name.as_str()),
                        ),
                        EntryKind::Dir => BackupAction::ReadDir(
                            join_path(f.path.as_str(), info.name.as_str()),
                        ),
                        EntryKind::Other => BackupAction::Advance,
                    }
                } else {
                    BackupAction::StoreTree
                }
            },
            BackupStage::Snapshot(id) => BackupAction::CreateSnapshot(id.clone()),
            BackupStage::StoreSnapshot => BackupAction::StoreSnapshot,
            BackupStage::Finished(id) => BackupAction::Done(id.clone()),
        }
    }

    /// The tree to store when the action is `StoreTree`: the finished directory's entries.
    pub fn tree(&self) -> (t: &Tree)
        requires
            self.wf(),
            self.step() is StoreTree,
        ensures
            *t == self.top().tree,
    {
        &self.frames[self.frames.len() - 1].tree
    }

    /// The directory asked for by `ReadDir` holds `listing`: its entries are
    /// processed next, starting from an empty tree.
    pub fn dir_read(&mut self, listing: Vec<DirEntryInfo>)
        requires
            old(self).wf(),
            old(self).step() is ReadDir,
        ensures
            final(self).wf(),
            final(self).stage is Walking,
            final(self).source == old(self).source,
            final(self).frames@.drop_last() == old(self).frames@,
            final(self).top().listing == listing,
            final(self).top().next == 0,
            final(self).top().tree.view().len() == 0,
            final(self).top().path@ == old(self).step()->ReadDir_0,
    {
        let ghost old_frames = self.frames@;
        let n = self.frames.len();
        let path = if n == 0 {
            self.source.clone()
        } else {
            let f = &self.frames[n - 1];
            let info = &f.listing[f.next];
            join_path(f.path.as_str(), info.name.as_str())
        };
        self.frames.push(
            BackupFrame {
                path,
                listing,
                next: 0,
                tree: Tree::new(),
                ids: Ghost(Seq::empty()),
                contents: Ghost(Seq::empty()),
            },
        );
        self.stage = BackupStage::Walking;
        proof {
            assert forall|i: int|
                0 <= i < self.frames@.len() - 1 implies (#[trigger] self.frames@[i]).next
                < self.frames@[i].listing@.len() && backup_child_of(
                self.frames@[i],
                self.frames@[i + 1],
            ) by {
                assert(self.frames@[i] == old_frames[i]);
                if i < n - 1 {
                    assert(self.frames@[i + 1] == old_frames[i + 1]);
                }
            }
            assert forall|i: int|
                0 <= i < self.frames@.len() implies (#[trigger] self.frames@[i]).next
                <= self.frames@[i].listing@.len() && frame_built(self.frames@[i]) by {
                if i < n {
                    assert(self.frames@[i] == old_frames[i]);
                } else {
                    let f = self.frames@[i];
                    assert(f.listing@.take(0) =~= Seq::<DirEntryInfo>::empty());
                }
            }
        }
    }

    /// The file asked for by `StoreFile` is stored as the blob `blob`: it is
    /// entered in the directory's tree under its name, by the blob's content
    /// identifier, with the size, mode and modification time from the listing.
    pub fn file_stored(&mut self, blob: &PendingObject)
        requires
            old(self).wf(),
            old(self).step() is StoreFile,
            blob.kind() == ObjectType::Blob,
        ensures
            final(self).wf(),
            final(self).stage is Walking,
            final(self).source == old(self).source,
            final(self).frames@.len() == old(self).frames@.len(),
            final(self).frames@.drop_last() == old(self).frames@.drop_last(),
            final(self).top().path == old(self).top().path,
            final(self).top().listing == old(self).top().listing,
            final(self).top().next == old(self).top().next + 1,
            ({
                let info = old(self).top().listing@[old(self).top().next as int];
                final(self).top().tree.view() == inserted(
                    old(self).top().tree.view(),
                    info.name,
                    file_entry(info, blob.id_string()),
                )
            }),
            ({
                let info = old(self).top().listing@[old(self).top().next as int];
                entry_map(final(self).top().tree.view()) == entry_map(
                    old(self).top().tree.view(),
                ).insert(
                    info.name@,
                    TreeEntry::File {
                        blob: blob.id_string(),
                        size: info.size,
                        mode: info.mode,
                        mtime: info.mtime,
                    },
                )
            }),
            final(self).top().ids@ == old(self).top().ids@.push(Some(blob.id_string())),
            final(self).top().contents@ == old(self).top().contents@.push(blob.plaintext()),
            final(self).made == old(self).made,
            final(self).root_plaintext == old(self).root_plaintext,
            final(self).latest_index == old(self).latest_index,
            final(self).snapshot_plaintext == old(self).snapshot_plaintext,
    {
        let ghost old_frames = self.frames@;
        let n = self.frames.len();
        let mut f = self.frames.pop().unwrap();
        let (name, size, mode, mtime) = {
            let info = &f.listing[f.next];
            (info.name.clone(), info.size, info.mode, info.mtime)
        };
        let id = blob.id().clone();
        let ghost b = id;
        proof {
            lemma_built_step(f.listing@, f.next as int, f.ids@, Some(b));
            lemma_inserted_map(f.tree.view(), name, TreeEntry::File { blob: b, size, mode, mtime });
            assert(f.next < f.listing.len());
        }
        f.tree.insert(name, TreeEntry::File { blob: id, size, mode, mtime });
        f.ids = Ghost(f.ids@.push(Some(b)));
        f.contents = Ghost(f.contents@.push(blob.plaintext()));
        f.next = f.next + 1;
        self.frames.push(f);
        proof {
            assert(self.frames@.drop_last() =~= old_frames.drop_last());
            assert forall|i: int|
                0 <= i < self.frames@.len() implies (#[trigger] self.frames@[i]).next
                <= self.frames@[i].listing@.len() && frame_built(self.frames@[i]) by {
                if i < n - 1 {
                    assert(self.frames@[i] == old_frames[i]);
                }
            }
            assert forall|i: int|
                0 <= i < self.frames@.len() - 1 implies (#[trigger] self.frames@[i]).next
                < self.frames@[i].listing@.len() && backup_child_of(
                self.frames@[i],
                self.frames@[i + 1],
            ) by {
                assert(self.frames@[i] == old_frames[i]);
                if i < n - 2 {
                    assert(self.frames@[i + 1] == old_frames[i + 1]);
                } else {
                    assert(backup_child_of(old_frames[i], old_frames[i + 1]));
                }
            }
        }
    }

    /// The entry asked about by `Advance` is neither a file nor a directory:
    /// it is left out of the backup.
    pub fn advance(&mut self)
        requires
            old(self).wf(),
            old(self).step() is Advance,
        ensures
            final(self).wf(),
            final(self).stage is Walking,
            final(self).source == old(self).source,
            final(self).frames@.len() == old(self).frames@.len(),
            final(self).frames@.drop_last() == old(self).frames@.drop_last(),
            final(self).top().path == old(self).top().path,
            final(self).top().listing == old(self).top().listing,
            final(self).top().tree == old(self).top().tree,
            final(self).top().next == old(self).top().next + 1,
            final(self).made == old(self).made,
            final(self).root_plaintext == old(self).root_plaintext,
            final(self).latest_index == old(self).latest_index,
            final(self).snapshot_plaintext == old(self).snapshot_plaintext,
    {
        let ghost old_frames = self.frames@;
        let n = self.frames.len();
        let mut f = self.frames.pop().unwrap();
        proof {
            lemma_built_step(f.listing@, f.next as int, f.ids@, None);
        }
        proof {
            assert(f.next < f.listing.len());
        }
        f.ids = Ghost(f.ids@.push(None));
        f.contents = Ghost(f.contents@.push(Seq::empty()));
        f.next = f.next + 1;
        self.frames.push(f);
        proof {
            assert(self.frames@.drop_last() =~= old_frames.drop_last());
            assert forall|i: int|
                0 <= i < self.frames@.len() implies (#[trigger] self.frames@[i]).next
                <= self.frames@[i].listing@.len() && frame_built(self.frames@[i]) by {
                if i < n - 1 {
                    assert(self.frames@[i] == old_frames[i]);
                }
            }
            assert forall|i: int|
                0 <= i < self.frames@.len() - 1 implies (#[trigger] self.frames@[i]).next
                < self.frames@[i].listing@.len() && backup_child_of(
                self.frames@[i],
                self.frames@[i + 1],
            ) by {
                assert(self.frames@[i] == old_frames[i]);
                if i < n - 2 {
                    assert(self.frames@[i + 1] == old_frames[i + 1]);
                } else {
                    assert(backup_child_of(old_frames[i], old_frames[i + 1]));
                }
            }
        }
    }

    /// The tree asked for by `StoreTree` is stored as the object `tree`. The
    /// directory is done: it is entered in its parent's tree under its name, by
    /// the tree's content identifier, with the mode and modification time from
    /// the parent's listing; for the source itself, the snapshot is made next.
    pub fn tree_stored(&mut self, tree: &PendingObject)
        requires
            old(self).wf(),
            old(self).step() is StoreTree,
            tree.kind() == ObjectType::Tree,
        ensures
            final(self).wf(),
            final(self).source == old(self).source,
            final(self).made == old(self).made,
            final(self).latest_index == old(self).latest_index,
            final(self).snapshot_plaintext == old(self).snapshot_plaintext,
            old(self).frames@.len() == 1 ==> final(self).stage == BackupStage::Snapshot(
                tree.id_string(),
            ) && final(self).frames@.len() == 0 && final(self).root_plaintext@
                == tree.plaintext(),
            old(self).frames@.len() > 1 ==> final(self).root_plaintext == old(self).root_plaintext,
            old(self).frames@.len() > 1 ==> ({
                let parent = old(self).frames@[old(self).frames@.len() - 2];
                let info = parent.listing@[parent.next as int];
                &&& final(self).stage is Walking
                &&& final(self).frames@.len() == old(self).frames@.len() - 1
                &&& final(self).frames@.drop_last() == old(self).frames@.drop_last().drop_last()
                &&& final(self).top().path == parent.path
                &&& final(self).top().listing == parent.listing
                &&& final(self).top().next == parent.next + 1
                &&& final(self).top().tree.view() == inserted(
                    parent.tree.view(),
                    info.name,
                    dir_entry(info, tree.id_string()),
                )
                &&& entry_map(final(self).top().tree.view()) == entry_map(parent.tree.view()).insert(
                    info.name@,
                    TreeEntry::Dir { tree: tree.id_string(), mode: info.mode, mtime: info.mtime },
                )
                &&& final(self).top().ids@ == parent.ids@.push(Some(tree.id_string()))
                &&& final(self).top().contents@ == parent.contents@.push(tree.plaintext())
            }),
    {
        let ghost old_frames = self.frames@;
        let n = self.frames.len();
        let id = tree.id().clone();
        let _ = self.frames.pop();
        if n == 1 {
            self.stage = BackupStage::Snapshot(id);
            self.root_plaintext = Ghost(tree.plaintext());
            return;
        }
        let mut g = self.frames.pop().unwrap();
        let (name, mode, mtime) = {
            let info = &g.listing[g.next];
            (info.name.clone(), info.mode, info.mtime)
        };
        let ghost t = id;
        proof {
            lemma_built_step(g.listing@, g.next as int, g.ids@, Some(t));
            lemma_inserted_map(g.tree.view(), name, TreeEntry::Dir { tree: t, mode, mtime });
        }
        proof {
            assert(g.next < g.listing.len());
            assert(backup_child_of(old_frames[n - 2], old_frames[n - 1]));
        }
        g.tree.insert(name, TreeEntry::Dir { tree: id, mode, mtime });
        g.ids = Ghost(g.ids@.push(Some(t)));
        g.contents = Ghost(g.contents@.push(tree.plaintext()));
        g.next = g.next + 1;
        self.frames.push(g);
        proof {
            assert(self.frames@.drop_last() =~= old_frames.drop_last().drop_last());
            assert forall|i: int|
                0 <= i < self.frames@.len() implies (#[trigger] self.frames@[i]).next
                <= self.frames@[i].listing@.len() && frame_built(self.frames@[i]) by {
                if i < n - 2 {
                    assert(self.frames@[i] == old_frames[i]);
                }
            }
            assert forall|i: int|
                0 <= i < self.frames@.len() - 1 implies (#[trigger] self.frames@[i]).next
                < self.frames@[i].listing@.len() && backup_child_of(
                self.frames@[i],
                self.frames@[i + 1],
            ) by {
                assert(self.frames@[i] == old_frames[i]);
                if i < n - 3 {
                    assert(self.frames@[i + 1] == old_frames[i + 1]);
                } else {
                    assert(backup_child_of(old_frames[i], old_frames[i + 1]));
                }
            }
        }
    }

    /// The snapshot of the root tree asked for by `CreateSnapshot` is made:
    /// its parent is the snapshot named by the latest-snapshot index text,
    /// when the index could be read.
    pub fn make_snapshot(
        &mut self,
        latest_index: Option<&str>,
        timestamp: u64,
        hostname: String,
        archivist_version: String,
    )
        requires
            old(self).wf(),
            old(self).step() is CreateSnapshot,
        ensures
            final(self).wf(),
            final(self).source == old(self).source,
            final(self).stage is StoreSnapshot,
            final(self).frames@.len() == 0,
            final(self).root_plaintext == old(self).root_plaintext,
            final(self).latest_index@ == match latest_index {
                Some(text) => Some(text@),
                None => None::<Seq<char>>,
            },
            final(self).made matches Some(s) && {
                &&& s.root_tree@ == old(self).step()->CreateSnapshot_0
                &&& opt_view(s.parent) == match latest_index {
                    Some(text) => Some(trim(text@)),
                    None => None::<Seq<char>>,
                }
                &&& s.timestamp == timestamp
                &&& s.hostname == hostname
                &&& s.archivist_version == archivist_version
            },
    {
        let root = match &self.stage {
            BackupStage::Snapshot(root) => root.clone(),
            _ => {
                proof {
                    assert(false);
                }
                String::new()
            },
        };
        let snapshot = Snapshot::create(root, latest_index, timestamp, hostname, archivist_version);
        self.made = Some(snapshot);
        self.latest_index = Ghost(
            match latest_index {
                Some(text) => Some(text@),
                None => None,
            },
        );
        self.stage = BackupStage::StoreSnapshot;
    }

    /// The snapshot to store when the action is `StoreSnapshot`.
    pub fn snapshot(&self) -> (s: &Snapshot)
        requires
            self.wf(),
            self.step() is StoreSnapshot,
        ensures
            self.made == Some(*s),
    {
        self.made.as_ref().unwrap()
    }

    /// The snapshot asked for by `StoreSnapshot` is stored as the object
    /// `snapshot` and recorded as the latest: the backup is complete, and its
    /// result is the snapshot's content identifier.
    pub fn snapshot_created(&mut self, snapshot: &PendingObject)
        requires
            old(self).wf(),
            old(self).step() is StoreSnapshot,
            snapshot.kind() == ObjectType::Snapshot,
        ensures
            final(self).wf(),
            final(self).source == old(self).source,
            final(self).stage == BackupStage::Finished(snapshot.id_string()),
            final(self).frames@.len() == 0,
            final(self).made == old(self).made,
            final(self).root_plaintext == old(self).root_plaintext,
            final(self).latest_index == old(self).latest_index,
            final(self).snapshot_plaintext@ == snapshot.plaintext(),
    {
        self.stage = BackupStage::Finished(snapshot.id().clone());
        self.snapshot_plaintext = Ghost(snapshot.plaintext());
    }
}

/// Where a backup reads: the source itself, and inside it each subdirectory at
/// the join of its parent's path and its name.
pub proof fn lemma_backup_paths(w: BackupWalk, i: int)
    requires
        w.wf(),
        0 < i < w.frames@.len(),
    ensures
        w.frames@[0].path@ == w.source@,
        ({
            let parent = w.frames@[i - 1];
            let info = parent.listing@[parent.next as int];
            info.kind == EntryKind::Dir && w.frames@[i].path@ == path_join(parent.path@, info.name@)
        }),
{
    assert(backup_child_of(w.frames@[i - 1], w.frames@[i]));
}

/// What a backup stores for a directory: when its tree is to be stored, the
/// tree holds each file and subdirectory of its listing under its name, in
/// order of name (a later entry of the same name replacing an earlier one),
/// with the identifier its content was stored under and the size, mode and
/// modification time from the listing; nothing else is in it. Each such
/// identifier is the content identifier of the plaintext stored for the entry.
pub proof fn lemma_backup_tree_reflects_listing(w: BackupWalk)
    requires
        w.wf(),
        w.step() is StoreTree,
    ensures
        w.top().tree.view() == built_tree(w.top().listing@, w.top().ids@),
        forall|k: int|
            0 <= k < w.top().listing@.len() ==> ((#[trigger] w.top().ids@[k] is Some)
                <==> w.top().listing@[k].kind != EntryKind::Other),
        forall|k: int|
            0 <= k < w.top().listing@.len() && (#[trigger] w.top().ids@[k]) is Some
                ==> w.top().ids@[k]->Some_0@ == content_id(w.top().contents@[k]),
{
    let f = w.top();
    assert(frame_built(w.frames@[w.frames@.len() - 1]));
    assert(f.listing@.take(f.next as int) =~= f.listing@);
}

/// The tree built from a listing is the ordered map of its files and
/// subdirectories: sorted by name, and mapping each name to the entry of its
/// last occurrence in the listing.
pub proof fn lemma_built_tree_map(listing: Seq<DirEntryInfo>, ids: Seq<Option<String>>)
    ensures
        names_sorted(built_tree(listing, ids)),
        listing.len() > 0 ==> entry_map(built_tree(listing, ids)) == {
            let before = entry_map(built_tree(listing.drop_last(), ids.drop_last()));
            let info = listing.last();
            match info.kind {
                EntryKind::File => before.insert(info.name@, file_entry(info, ids.last()->Some_0)),
                EntryKind::Dir => before.insert(info.name@, dir_entry(info, ids.last()->Some_0)),
                EntryKind::Other => before,
            }
        },
    decreases listing.len(),
{
    if listing.len() > 0 {
        let before = built_tree(listing.drop_last(), ids.drop_last());
        let info = listing.last();
        lemma_built_tree_map(listing.drop_last(), ids.drop_last());
        match info.kind {
            EntryKind::File => {
                lemma_inserted_sorted(before, info.name, file_entry(info, ids.last()->Some_0));
                lemma_inserted_map(before, info.name, file_entry(info, ids.last()->Some_0));
            },
            EntryKind::Dir => {
                lemma_inserted_sorted(before, info.name, dir_entry(info, ids.last()->Some_0));
                lemma_inserted_map(before, info.name, dir_entry(info, ids.last()->Some_0));
            },
            EntryKind::Other => {},
        }
    }
}

/// Each file and subdirectory of a listing is in the tree built from it,
/// under its name (unless a later entry of the listing takes that name), with
/// the identifier it was stored under and exactly the size, permission mode
/// and modification time the listing gives it.
pub proof fn lemma_built_tree_entry(listing: Seq<DirEntryInfo>, ids: Seq<Option<String>>, k: int)
    requires
        ids.len() == listing.len(),
        0 <= k < listing.len(),
        listing[k].kind != EntryKind::Other,
        forall|j: int|
            k < j < listing.len() ==> (#[trigger] listing[j]).name@ != listing[k].name@
                || listing[j].kind == EntryKind::Other,
    ensures
        entry_map(built_tree(listing, ids)).dom().contains(listing[k].name@),
        listing[k].kind == EntryKind::File ==> entry_map(built_tree(listing, ids))[listing[k].name@]
            == (TreeEntry::File {
            blob: ids[k]->Some_0,
            size: listing[k].size,
            mode: listing[k].mode,
            mtime: listing[k].mtime,
        }),
        listing[k].kind == EntryKind::Dir ==> entry_map(built_tree(listing, ids))[listing[k].name@]
            == (TreeEntry::Dir { tree: ids[k]->Some_0, mode: listing[k].mode, mtime: listing[k].mtime }),
    decreases listing.len(),
{
    lemma_built_tree_map(listing, ids);
    let n = listing.len() - 1;
    if k < n {
        let l2 = listing.drop_last();
        let i2 = ids.drop_last();
        assert(l2[k] == listing[k]);
        assert(i2[k] == ids[k]);
        assert forall|j: int| k < j < l2.len() implies (#[trigger] l2[j]).name@ != l2[k].name@
            || l2[j].kind == EntryKind::Other by {
            assert(l2[j] == listing[j]);
        }
        lemma_built_tree_entry(l2, i2, k);
        assert(listing.last() == listing[n]);
    }
}

/// What a backup stores for a directory, entry by entry: when its tree is to
/// be stored, each file and subdirectory of its listing (not overridden by a
/// later one of the same name) is in the tree under its name, by the content
/// identifier of the plaintext stored for it, with exactly the size,
/// permission mode and modification time of the listing.
pub proof fn lemma_backup_tree_entry(w: BackupWalk, k: int)
    requires
        w.wf(),
        w.step() is StoreTree,
        0 <= k < w.top().listing@.len(),
        w.top().listing@[k].kind != EntryKind::Other,
        forall|j: int|
            k < j < w.top().listing@.len() ==> (#[trigger] w.top().listing@[j]).name@
                != w.top().listing@[k].name@ || w.top().listing@[j].kind == EntryKind::Other,
    ensures
        ({
            let info = w.top().listing@[k];
            let id = w.top().ids@[k]->Some_0;
            let m = entry_map(w.top().tree.view());
            &&& id@ == content_id(w.top().contents@[k])
            &&& m.dom().contains(info.name@)
            &&& info.kind == EntryKind::File ==> m[info.name@] == (TreeEntry::File {
                blob: id,
                size: info.size,
                mode: info.mode,
                mtime: info.mtime,
            })
            &&& info.kind == EntryKind::Dir ==> m[info.name@] == (TreeEntry::Dir {
                tree: id,
                mode: info.mode,
                mtime: info.mtime,
            })
        }),
{
    lemma_backup_tree_reflects_listing(w);
    lemma_built_tree_entry(w.top().listing@, w.top().ids@, k);
}

/// The tree a backup stores for a directory does not depend on the order in
/// which the directory was read: two listings whose files and subdirectories
/// map their names to the same entries (as any two orders of one directory's
/// entries do, names being unique) build the same tree, entry for entry.
pub proof fn lemma_built_tree_order_independent(
    l1: Seq<DirEntryInfo>,
    ids1: Seq<Option<String>>,
    l2: Seq<DirEntryInfo>,
    ids2: Seq<Option<String>>,
)
    requires
        entry_map(built_tree(l1, ids1)) == entry_map(built_tree(l2, ids2)),
    ensures
        entry_pairs(built_tree(l1, ids1)) == entry_pairs(built_tree(l2, ids2)),
{
    lemma_built_tree_map(l1, ids1);
    lemma_built_tree_map(l2, ids2);
    lemma_sorted_determined(built_tree(l1, ids1), built_tree(l2, ids2));
}

/// What a finished backup made: its result is the content identifier of the
/// snapshot's stored plaintext; the snapshot's root tree is the content
/// identifier of the root tree's stored plaintext; its parent is the snapshot
/// named by the latest-snapshot index as it was read before (trimmed), and none
/// when the index could not be read; and the index text recorded for the
/// result reads back as the result.
pub proof fn lemma_backup_snapshot(w: BackupWalk)
    requires
        w.wf(),
        w.stage is Finished,
    ensures
        w.stage->Finished_0@ == content_id(w.snapshot_plaintext@),
        w.made matches Some(s) && snapshot_of(s, w.root_plaintext@, w.latest_index@),
        trim(latest_index_text(w.stage->Finished_0@)) == w.stage->Finished_0@,
{
    lemma_content_id_is_hex(w.snapshot_plaintext@);
    lemma_hex_id_trimmed(w.stage->Finished_0@);
    lemma_latest_index_roundtrip(w.stage->Finished_0@);
}

/// Starts backing up `source`, which must exist and be a directory.
pub fn run_backup(source: &str, exists: bool, is_dir: bool) -> (r: Result<BackupWalk, BackupError>)
    ensures
        !exists ==> (r matches Err(e) && e == BackupError::SourceMissing),
        exists && !is_dir ==> (r matches Err(e) && e == BackupError::SourceNotDirectory),
        exists && is_dir ==> (r matches Ok(w) && w.wf() && w.source@ == source@
            && w.stage is ReadRoot && w.frames@.len() == 0),
{
    if !exists {
        return Err(BackupError::SourceMissing);
    }
    if !is_dir {
        return Err(BackupError::SourceNotDirectory);
    }
    Ok(
        BackupWalk {
            source: source.to_owned(),
            stage: BackupStage::ReadRoot,
            frames: Vec::new(),
            made: None,
            root_plaintext: Ghost(Seq::empty()),
            latest_index: Ghost(None),
            snapshot_plaintext: Ghost(Seq::empty()),
        },
    )
}

} // verus!
