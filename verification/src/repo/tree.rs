//! Directory listings, stored as content-addressed sealed objects.

use vstd::prelude::*;
use crate::repo::backend::ObjectType;
use crate::repo::open::RepoContext;
use crate::repo::sealed::{bytes_result, open_object, open_result, ObjectError};
use crate::text::{lemma_name_order, name_before, str_before};

verus! {

/// One entry of a directory: a file (by its blob) or a subdirectory (by its
/// tree), with the permission bits and modification time to restore.
#[derive(Debug)]
pub enum TreeEntry {
    File { blob: String, size: u64, mode: u32, mtime: i64 },
    Dir { tree: String, mode: u32, mtime: i64 },
}

/// A directory: its entries in increasing order of name, each name at most once.
pub struct Tree {
    entries: Vec<(String, TreeEntry)>,
}

/// No name occurs twice.
pub open spec fn names_unique(entries: Seq<(String, TreeEntry)>) -> bool {
    forall|i: int, j: int|
        0 <= i < j < entries.len() ==> (#[trigger] entries[i]).0@ != (#[trigger] entries[j]).0@
}

/// The names increase strictly from each entry to the next, in the order of
/// their UTF-8 bytes.
pub open spec fn names_sorted(entries: Seq<(String, TreeEntry)>) -> bool {
    forall|i: int, j: int|
        0 <= i < j < entries.len() ==> name_before(
            (#[trigger] entries[i]).0@,
            (#[trigger] entries[j]).0@,
        )
}

/// Inserting `name -> entry` into sorted `entries` as an ordered map does: an
/// existing name keeps its key and takes the new entry; a new name goes in
/// before the first name that sorts after it.
pub open spec fn inserted(entries: Seq<(String, TreeEntry)>, name: String, entry: TreeEntry) -> Seq<
    (String, TreeEntry),
>
    decreases entries.len(),
{
    if entries.len() == 0 {
        seq![(name, entry)]
    } else if entries[0].0@ == name@ {
        seq![(entries[0].0, entry)] + entries.drop_first()
    } else if name_before(entries[0].0@, name@) {
        seq![entries[0]] + inserted(entries.drop_first(), name, entry)
    } else {
        seq![(name, entry)] + entries
    }
}

/// The entries as a map from name to entry; where a name occurred twice, the
/// earlier entry would win.
pub open spec fn entry_map(entries: Seq<(String, TreeEntry)>) -> Map<Seq<char>, TreeEntry>
    decreases entries.len(),
{
    if entries.len() == 0 {
        Map::empty()
    } else {
        entry_map(entries.drop_first()).insert(entries[0].0@, entries[0].1)
    }
}

/// A tree is an ordered map: inserting an entry sets the entry for its name
/// and leaves every other name's entry as it was.
pub proof fn lemma_inserted_map(entries: Seq<(String, TreeEntry)>, name: String, entry: TreeEntry)
    ensures
        entry_map(inserted(entries, name, entry)) == entry_map(entries).insert(name@, entry),
    decreases entries.len(),
{
    let r = inserted(entries, name, entry);
    if entries.len() == 0 {
        let none = Seq::<(String, TreeEntry)>::empty();
        assert(r.drop_first() =~= none);
        assert(entries =~= none);
        assert(entry_map(none) == Map::<Seq<char>, TreeEntry>::empty());
        assert(r[0] == (name, entry));
        assert(entry_map(r) =~= entry_map(entries).insert(name@, entry));
    } else if entries[0].0@ == name@ {
        assert(r.drop_first() =~= entries.drop_first());
        assert(entry_map(r) =~= entry_map(entries).insert(name@, entry));
    } else if name_before(entries[0].0@, name@) {
        let rest = entries.drop_first();
        lemma_inserted_map(rest, name, entry);
        assert(r.drop_first() =~= inserted(rest, name, entry));
        assert(entry_map(r) =~= entry_map(entries).insert(name@, entry));
    } else {
        assert(r.drop_first() =~= entries);
        assert(entry_map(r) =~= entry_map(entries).insert(name@, entry));
    }
}

/// The entries with each name taken by its characters.
pub open spec fn entry_pairs(entries: Seq<(String, TreeEntry)>) -> Seq<(Seq<char>, TreeEntry)> {
    entries.map_values(|e: (String, TreeEntry)| (e.0@, e.1))
}

proof fn lemma_entry_map_dom(entries: Seq<(String, TreeEntry)>, x: Seq<char>)
    ensures
        entry_map(entries).dom().contains(x) <==> exists|i: int|
            0 <= i < entries.len() && (#[trigger] entries[i]).0@ == x,
    decreases entries.len(),
{
    if entries.len() > 0 {
        let rest = entries.drop_first();
        lemma_entry_map_dom(rest, x);
        if exists|i: int| 0 <= i < rest.len() && (#[trigger] rest[i]).0@ == x {
            let i = choose|i: int| 0 <= i < rest.len() && (#[trigger] rest[i]).0@ == x;
            assert(entries[i + 1] == rest[i]);
        }
        if exists|i: int| 0 <= i < entries.len() && (#[trigger] entries[i]).0@ == x {
            let i = choose|i: int| 0 <= i < entries.len() && (#[trigger] entries[i]).0@ == x;
            if i > 0 {
                assert(rest[i - 1] == entries[i]);
            }
        }
    }
}

proof fn lemma_entry_map_first(entries: Seq<(String, TreeEntry)>)
    requires
        entries.len() > 0,
        names_sorted(entries),
    ensures
        entry_map(entries)[entries[0].0@] == entries[0].1,
        entry_map(entries.drop_first()) == entry_map(entries).remove(entries[0].0@),
        names_sorted(entries.drop_first()),
{
    let rest = entries.drop_first();
    let x = entries[0].0@;
    lemma_entry_map_dom(rest, x);
    if exists|i: int| 0 <= i < rest.len() && (#[trigger] rest[i]).0@ == x {
        let i = choose|i: int| 0 <= i < rest.len() && (#[trigger] rest[i]).0@ == x;
        assert(name_before(entries[0].0@, entries[i + 1].0@));
        lemma_name_order(x, x, x);
    }
    assert(entry_map(rest) =~= entry_map(entries).remove(x));
    assert forall|i: int, j: int| 0 <= i < j < rest.len() implies name_before(
        (#[trigger] rest[i]).0@,
        (#[trigger] rest[j]).0@,
    ) by {
        assert(name_before(entries[i + 1].0@, entries[j + 1].0@));
    }
}

/// A directory's entries depend only on which name maps to which entry: two
/// sorted listings with the same names and entries are the same listing, in
/// whatever order their entries were inserted.
pub proof fn lemma_sorted_determined(a: Seq<(String, TreeEntry)>, b: Seq<(String, TreeEntry)>)
    requires
        names_sorted(a),
        names_sorted(b),
        entry_map(a) == entry_map(b),
    ensures
        entry_pairs(a) == entry_pairs(b),
    decreases a.len(),
{
    if a.len() == 0 || b.len() == 0 {
        if a.len() > 0 {
            lemma_entry_map_dom(a, a[0].0@);
            lemma_entry_map_dom(b, a[0].0@);
        }
        if b.len() > 0 {
            lemma_entry_map_dom(a, b[0].0@);
            lemma_entry_map_dom(b, b[0].0@);
        }
        assert(entry_pairs(a) =~= entry_pairs(b));
    } else {
        let x = a[0].0@;
        let y = b[0].0@;
        lemma_entry_map_dom(a, x);
        lemma_entry_map_dom(b, x);
        lemma_entry_map_dom(a, y);
        lemma_entry_map_dom(b, y);
        if x != y {
            let j = choose|j: int| 0 <= j < b.len() && (#[trigger] b[j]).0@ == x;
            let i = choose|i: int| 0 <= i < a.len() && (#[trigger] a[i]).0@ == y;
            assert(j > 0);
            assert(i > 0);
            assert(name_before(y, x));
            assert(name_before(x, y));
            lemma_name_order(x, y, x);
        }
        lemma_entry_map_first(a);
        lemma_entry_map_first(b);
        lemma_sorted_determined(a.drop_first(), b.drop_first());
        let pa = entry_pairs(a);
        let pb = entry_pairs(b);
        assert(entry_pairs(a.drop_first()) =~= pa.drop_first());
        assert(entry_pairs(b.drop_first()) =~= pb.drop_first());
        assert(pa[0] == pb[0]);
        assert(pa =~= seq![pa[0]] + pa.drop_first());
        assert(pb =~= seq![pb[0]] + pb.drop_first());
    }
}

/// Inserting into sorted entries keeps them sorted.
pub proof fn lemma_inserted_sorted(entries: Seq<(String, TreeEntry)>, name: String, entry: TreeEntry)
    requires
        names_sorted(entries),
    ensures
        names_sorted(inserted(entries, name, entry)),
    decreases entries.len(),
{
    let r = inserted(entries, name, entry);
    if entries.len() == 0 {
    } else if entries[0].0@ == name@ {
        assert forall|i: int, j: int| 0 <= i < j < r.len() implies name_before(
            (#[trigger] r[i]).0@,
            (#[trigger] r[j]).0@,
        ) by {
            assert(name_before(entries[i].0@, entries[j].0@));
        }
    } else if name_before(entries[0].0@, name@) {
        let rest = entries.drop_first();
        lemma_entry_map_first(entries);
        lemma_inserted_sorted(rest, name, entry);
        let t = inserted(rest, name, entry);
        lemma_inserted_map(rest, name, entry);
        assert forall|j: int| 0 <= j < t.len() implies name_before(
            entries[0].0@,
            (#[trigger] t[j]).0@,
        ) by {
            let y = t[j].0@;
            lemma_entry_map_dom(t, y);
            lemma_entry_map_dom(rest, y);
            if y != name@ {
                let k = choose|k: int| 0 <= k < rest.len() && (#[trigger] rest[k]).0@ == y;
                assert(name_before(entries[0].0@, entries[k + 1].0@));
            }
        }
        assert forall|i: int, j: int| 0 <= i < j < r.len() implies name_before(
            (#[trigger] r[i]).0@,
            (#[trigger] r[j]).0@,
        ) by {
            if i > 0 {
                assert(r[i] == t[i - 1]);
            }
            assert(r[j] == t[j - 1]);
        }
    } else {
        lemma_name_order(entries[0].0@, name@, name@);
        assert forall|i: int, j: int| 0 <= i < j < r.len() implies name_before(
            (#[trigger] r[i]).0@,
            (#[trigger] r[j]).0@,
        ) by {
            if i > 0 {
                assert(name_before(entries[i - 1].0@, entries[j - 1].0@));
            } else if j > 1 {
                assert(name_before(entries[0].0@, entries[j - 1].0@));
                lemma_name_order(name@, entries[0].0@, entries[j - 1].0@);
            }
        }
    }
}

/// Sorted names are unique.
pub proof fn lemma_sorted_unique(entries: Seq<(String, TreeEntry)>)
    requires
        names_sorted(entries),
    ensures
        names_unique(entries),
{
    assert forall|i: int, j: int| 0 <= i < j < entries.len() implies (#[trigger] entries[i]).0@
        != (#[trigger] entries[j]).0@ by {
        lemma_name_order(entries[i].0@, entries[j].0@, entries[j].0@);
    }
}

/// Where the first name not before `name` stands at `p`, inserting replaces
/// the entry there if it has that name, and otherwise puts the new entry at `p`.
proof fn lemma_inserted_at(
    entries: Seq<(String, TreeEntry)>,
    name: String,
    entry: TreeEntry,
    p: int,
)
    requires
        0 <= p <= entries.len(),
        forall|j: int| 0 <= j < p ==> name_before((#[trigger] entries[j]).0@, name@),
        p < entries.len() ==> !name_before(entries[p].0@, name@),
    ensures
        inserted(entries, name, entry) == (if p < entries.len() && entries[p].0@ == name@ {
            entries.update(p, (entries[p].0, entry))
        } else {
            entries.insert(p, (name, entry))
        }),
    decreases p,
{
    if p == 0 {
        if entries.len() == 0 {
            assert(entries.insert(0, (name, entry)) =~= seq![(name, entry)]);
        } else if entries[0].0@ == name@ {
            assert(entries.update(0, (entries[0].0, entry)) =~= seq![(entries[0].0, entry)]
                + entries.drop_first());
        } else {
            assert(entries.insert(0, (name, entry)) =~= seq![(name, entry)] + entries);
        }
    } else {
        let rest = entries.drop_first();
        lemma_name_order(entries[0].0@, name@, name@);
        assert(name_before(entries[0].0@, name@));
        assert forall|j: int| 0 <= j < p - 1 implies name_before((#[trigger] rest[j]).0@, name@) by {
            assert(rest[j] == entries[j + 1]);
        }
        lemma_inserted_at(rest, name, entry, p - 1);
        if p < entries.len() && entries[p].0@ == name@ {
            assert(entries.update(p, (entries[p].0, entry)) =~= seq![entries[0]] + rest.update(
                p - 1,
                (rest[p - 1].0, entry),
            ));
        } else {
            assert(entries.insert(p, (name, entry)) =~= seq![entries[0]] + rest.insert(
                p - 1,
                (name, entry),
            ));
        }
    }
}

impl Tree {
    #[verifier::type_invariant]
    spec fn inv(self) -> bool {
        names_sorted(self.entries@)
    }

    /// The entries of this directory, in order.
    pub closed spec fn view(&self) -> Seq<(String, TreeEntry)> {
        self.entries@
    }

    /// A directory holds at most `usize::MAX` entries.
    pub proof fn lemma_len_fits(self)
        ensures
            self.view().len() <= usize::MAX,
    {
        assert(self.entries.len() == self.entries@.len());
    }

    /// An empty directory.
    pub fn new() -> (t: Tree)
        ensures
            t.view() == Seq::<(String, TreeEntry)>::empty(),
    {
        Tree { entries: Vec::new() }
    }

    /// The entries of this directory, in increasing order of name.
    pub fn entries(&self) -> (e: &Vec<(String, TreeEntry)>)
        ensures
            e@ == self.view(),
            names_sorted(e@),
            names_unique(e@),
    {
        proof {
            use_type_invariant(self);
            lemma_sorted_unique(self.entries@);
        }
        &self.entries
    }

    /// Sets the entry for `name`, replacing any entry already under that name
    /// and keeping the entries in order of name.
    pub fn insert(&mut self, name: String, entry: TreeEntry)
        ensures
            final(self).view() == inserted(old(self).view(), name, entry),
            entry_map(final(self).view()) == entry_map(old(self).view()).insert(name@, entry),
    {
        proof {
            use_type_invariant(&*self);
        }
        let ghost orig = self.entries@;
        let n = self.entries.len();
        let mut i: usize = 0;
        while i < n
            invariant
                self.entries@ == orig,
                orig == old(self).view(),
                names_sorted(orig),
                n == orig.len(),
                i <= n,
                forall|j: int| 0 <= j < i ==> name_before((#[trigger] orig[j]).0@, name@),
            ensures
                self.entries@ == orig,
                i <= n,
                forall|j: int| 0 <= j < i ==> name_before((#[trigger] orig[j]).0@, name@),
                i < n ==> !name_before(orig[i as int].0@, name@),
            decreases n - i,
        {
            if !str_before(self.entries[i].0.as_str(), name.as_str()) {
                break;
            }
            i = i + 1;
        }
        proof {
            lemma_inserted_at(orig, name, entry, i as int);
            lemma_inserted_sorted(orig, name, entry);
            lemma_inserted_map(orig, name, entry);
        }
        let mut entries: Vec<(String, TreeEntry)> = Vec::new();
        std::mem::swap(&mut entries, &mut self.entries);
        if i < n && entries[i].0 == name {
            let key = entries[i].0.clone();
            entries.set(i, (key, entry));
        } else {
            entries.insert(i, (name, entry));
        }
        self.entries = entries;
    }

    /// Opens the stored bytes of tree `hash`: decrypts them with the
    /// repository key and checks that the listing hashes to `hash`.
    pub fn load(ctx: &RepoContext, hash: &str, stored: &[u8]) -> (r: Result<Vec<u8>, ObjectError>)
        ensures
            bytes_result(r) == open_result(ctx.repo_key@, ObjectType::Tree, hash@, stored@),
    {
        open_object(&ctx.repo_key, ObjectType::Tree, hash, stored)
    }
}

} // verus!
