//! Where objects live on disk: `objects/<kind>/<first two bytes>/<rest>/<id>`
//! below the repository directory, with paths composed as `Path::join` does on Unix.

use vstd::prelude::*;
use vstd::string::{StrSliceExecFns, StringExecFns, StringSliceAdditionalSpecFns};
use vstd::utf8::*;
use crate::crypto::hash::is_hex_id;
use crate::repo::backend::{object_dir, ObjectType};

verus! {

/// `base.join(comp)` on Unix: an absolute component replaces the path; otherwise
/// the component is appended, with a `/` separator unless `base` is empty or
/// already ends in one.
pub open spec fn path_join(base: Seq<char>, comp: Seq<char>) -> Seq<char> {
    if comp.len() > 0 && comp[0] == '/' {
        comp
    } else if base.len() == 0 {
        comp
    } else if base.last() == '/' {
        base + comp
    } else {
        base + seq!['/'] + comp
    }
}

/// Joins a path component onto a path, as `Path::join` does on Unix.
pub fn join_path(base: &str, comp: &str) -> (p: String)
    ensures
        p@ == path_join(base@, comp@),
{
    proof {
        reveal_strlit("/");
    }
    if !comp.is_empty() && comp.get_char(0) == '/' {
        return comp.to_owned();
    }
    if base.is_empty() {
        return comp.to_owned();
    }
    let n = base.unicode_len();
    if base.get_char(n - 1) == '/' {
        let mut p = base.to_owned();
        p.append(comp);
        p
    } else {
        let mut p = base.to_owned();
        p.append("/");
        p.append(comp);
        proof {
            assert(p@ =~= base@ + seq!['/'] + comp@);
        }
        p
    }
}

/// How many characters of an identifier make up its first two bytes, the
/// point at which `str::split_at(2)` divides it.
pub open spec fn id_split_point(id: Seq<char>) -> int {
    decode_utf8(encode_utf8(id).take(2)).len() as int
}

/// `split_at(2)` is defined on `id`: byte 2 is a character boundary.
pub open spec fn id_splittable(id: Seq<char>) -> bool {
    is_char_boundary(encode_utf8(id), 2)
}

/// The path of object `id` of kind `t` below the objects directory `root`.
pub open spec fn object_path_of(root: Seq<char>, t: ObjectType, id: Seq<char>) -> Seq<char> {
    let k = id_split_point(id);
    path_join(path_join(path_join(path_join(root, object_dir(t)), id.take(k)), id.skip(k)), id)
}

/// Splits an identifier into its first two bytes and the rest.
fn split_id(id: &str) -> (parts: (&str, &str))
    requires
        id_splittable(id@),
    ensures
        parts.0@ == id@.take(id_split_point(id@)),
        parts.1@ == id@.skip(id_split_point(id@)),
{
    proof {
        encode_utf8_valid_utf8(id@);
    }
    let (a, b) = id.split_at(2);
    proof {
        let bytes = encode_utf8(id@);
        assert(id.spec_bytes() == bytes);
        encode_utf8_decode_utf8(a@);
        encode_utf8_decode_utf8(b@);
        encode_utf8_decode_utf8(id@);
        decode_utf8_split(bytes, 2);
        assert(bytes.take(2) =~= bytes.subrange(0, 2));
        assert(a@ == decode_utf8(bytes.subrange(0, 2)));
        assert(b@ == decode_utf8(bytes.subrange(2, bytes.len() as int)));
        assert(id@ =~= a@ + b@);
        assert(a@ =~= id@.take(id_split_point(id@)));
        assert(b@ =~= id@.skip(id_split_point(id@)));
    }
    (a, b)
}

/// The local file-system layout of a repository's objects.
pub struct LocalBackend {
    root: String,
}

impl LocalBackend {
    /// The objects directory of this backend.
    pub closed spec fn root_path(&self) -> Seq<char> {
        self.root@
    }

    /// A backend for the repository directory `repo_root`: its objects live
    /// in `repo_root/objects`.
    pub fn new(repo_root: &str) -> (b: Self)
        ensures
            b.root_path() == path_join(repo_root@, "objects"@),
    {
        LocalBackend { root: join_path(repo_root, "objects") }
    }

    /// The objects directory.
    pub fn root(&self) -> (r: &str)
        ensures
            r@ == self.root_path(),
    {
        self.root.as_str()
    }

    /// The path at which object `id` of kind `t` is stored.
    pub fn object_path(&self, obj_type: ObjectType, id: &str) -> (p: String)
        requires
            id_splittable(id@),
        ensures
            p@ == object_path_of(self.root_path(), obj_type, id@),
    {
        let (a, b) = split_id(id);
        let dir = join_path(self.root.as_str(), obj_type.dir_name());
        let dir = join_path(dir.as_str(), a);
        let dir = join_path(dir.as_str(), b);
        join_path(dir.as_str(), id)
    }
}

/// The file holding a repository's format version, in its directory.
pub fn version_file(repo_dir: &str) -> (p: String)
    ensures
        p@ == path_join(repo_dir@, "version"@),
{
    join_path(repo_dir, "version")
}

/// The file holding a repository's configuration, in its directory.
pub fn config_file(repo_dir: &str) -> (p: String)
    ensures
        p@ == path_join(repo_dir@, "config.enc"@),
{
    join_path(repo_dir, "config.enc")
}

/// The directory holding the latest-snapshot index, in a repository directory.
pub fn index_dir(repo_dir: &str) -> (p: String)
    ensures
        p@ == path_join(repo_dir@, "index"@),
{
    join_path(repo_dir, "index")
}

/// The latest-snapshot index, in a repository directory.
pub fn latest_index_file(repo_dir: &str) -> (p: String)
    ensures
        p@ == path_join(repo_dir@, "index/latest"@),
{
    join_path(repo_dir, "index/latest")
}

/// The file a new latest-snapshot index is written to before it is renamed
/// over the index, in the index directory.
pub fn latest_index_temp_file(index_dir: &str) -> (p: String)
    ensures
        p@ == path_join(index_dir@, "latest.tmp"@),
{
    join_path(index_dir, "latest.tmp")
}

/// The file the new latest-snapshot index is renamed to, in the index directory.
pub fn latest_index_final_file(index_dir: &str) -> (p: String)
    ensures
        p@ == path_join(index_dir@, "latest"@),
{
    join_path(index_dir, "latest")
}

/// The lock file that marks a repository path as held by a writer.
pub fn lock_file(repo_path: &str) -> (p: String)
    ensures
        p@ == path_join(repo_path@, ".lock"@),
{
    join_path(repo_path, ".lock")
}

/// An identifier made of ASCII characters with no `/` among them, as every
/// hexadecimal content identifier is.
pub open spec fn is_plain_id(id: Seq<char>) -> bool {
    is_ascii_chars(id) && forall|i: int| 0 <= i < id.len() ==> #[trigger] id[i] != '/'
}

/// Content identifiers are plain.
pub proof fn lemma_hex_id_plain(id: Seq<char>)
    requires
        is_hex_id(id),
    ensures
        is_plain_id(id),
{
    assert forall|i: int| 0 <= i < id.len() implies '\0' <= #[trigger] id[i] <= '\u{7f}' by {}
}

/// Every ASCII identifier of two or more characters can be placed (content
/// identifiers among them): it splits after its first two characters, so its
/// object lives under `<kind>/<first two>/<rest>/<id>`.
pub proof fn lemma_ascii_id_layout(id: Seq<char>)
    requires
        is_ascii_chars(id),
        id.len() >= 2,
    ensures
        id_splittable(id),
        id_split_point(id) == 2,
{
    is_ascii_chars_encode_utf8(id);
    let bytes = encode_utf8(id);
    assert(bytes.len() == id.len());
    assert(bytes[0] < 128 && bytes[1] < 128);
    encode_utf8_valid_utf8(id);
    let pre = id.take(2);
    assert(is_ascii_chars(pre));
    is_ascii_chars_encode_utf8(pre);
    assert(encode_utf8(pre) =~= bytes.take(2));
    encode_utf8_decode_utf8(pre);
    let b1 = pop_first_scalar(bytes);
    assert(length_of_first_scalar(bytes) == 1);
    assert(valid_utf8(b1));
    assert(b1.len() == bytes.len() - 1);
    assert(b1[0] == bytes[1]);
    assert(length_of_first_scalar(b1) == 1);
    let b2 = pop_first_scalar(b1);
    assert(valid_utf8(b2));
    assert(is_char_boundary(b2, 0));
    assert(is_char_boundary(b1, 1));
    assert(is_char_boundary(bytes, 2));
}

/// What `path_join(base, comp)` puts before a component that does not start
/// with `/`: nothing for an empty base, else the base ending in one `/`.
pub open spec fn join_prefix(base: Seq<char>) -> Seq<char> {
    if base.len() == 0 || base.last() == '/' {
        base
    } else {
        base + seq!['/']
    }
}

proof fn lemma_join_relative(base: Seq<char>, comp: Seq<char>)
    requires
        comp.len() == 0 || comp[0] != '/',
    ensures
        path_join(base, comp) == join_prefix(base) + comp,
{
    if base.len() == 0 {
        assert(base + comp =~= comp);
    }
}

/// The part of an object's path after its kind's directory, for an identifier
/// that splits after two characters.
pub open spec fn object_tail(id: Seq<char>) -> Seq<char> {
    seq!['/'] + id.take(2) + seq!['/'] + id.skip(2) + (if id.len() > 2 {
        seq!['/']
    } else {
        Seq::<char>::empty()
    }) + id
}

proof fn lemma_object_path_shape(root: Seq<char>, t: ObjectType, id: Seq<char>)
    requires
        is_plain_id(id),
        id.len() >= 2,
    ensures
        object_path_of(root, t, id) == join_prefix(root) + object_dir(t) + object_tail(id),
{
    reveal_strlit("blobs");
    reveal_strlit("trees");
    reveal_strlit("snapshots");
    lemma_ascii_id_layout(id);
    let d = object_dir(t);
    assert(d.len() > 0 && d[0] != '/' && d.last() != '/');
    let a = id.take(2);
    let b = id.skip(2);
    lemma_join_relative(root, d);
    let p1 = join_prefix(root) + d;
    assert(p1.last() == d.last());
    assert(a[0] == id[0]);
    lemma_join_relative(p1, a);
    let p2 = p1 + seq!['/'] + a;
    assert(join_prefix(p1) == p1 + seq!['/']);
    assert(p2.last() == id[1]);
    if b.len() > 0 {
        assert(b[0] == id[2]);
    }
    lemma_join_relative(p2, b);
    assert(join_prefix(p2) == p2 + seq!['/']);
    let p3 = p2 + seq!['/'] + b;
    assert(p3.len() > 0);
    if id.len() > 2 {
        assert(p3.last() == id.last());
        assert(join_prefix(p3) == p3 + seq!['/']);
    } else {
        assert(p3.last() == '/');
        assert(join_prefix(p3) == p3);
    }
    lemma_join_relative(p3, id);
    assert(object_path_of(root, t, id) =~= join_prefix(root) + d + object_tail(id));
}

proof fn lemma_object_tail(id: Seq<char>)
    requires
        id.len() >= 2,
    ensures
        object_tail(id).len() == 2 * id.len() + 2 + (if id.len() > 2 {
            1int
        } else {
            0int
        }),
        object_tail(id)[0] == '/',
        object_tail(id).skip(object_tail(id).len() - id.len()) == id,
{
    let r = object_tail(id);
    assert(r.skip(r.len() - id.len()) =~= id);
}

proof fn lemma_kind_dirs_distinct(t1: ObjectType, r1: Seq<char>, t2: ObjectType, r2: Seq<char>)
    requires
        r1.len() > 0 && r1[0] == '/',
        r2.len() > 0 && r2[0] == '/',
        object_dir(t1) + r1 == object_dir(t2) + r2,
    ensures
        t1 == t2,
        r1 == r2,
{
    reveal_strlit("blobs");
    reveal_strlit("trees");
    reveal_strlit("snapshots");
    let d1 = object_dir(t1);
    let d2 = object_dir(t2);
    let q1 = d1 + r1;
    let q2 = d2 + r2;
    if t1 != t2 {
        if d1.len() == d2.len() {
            assert(q1[0] != q2[0]);
        } else if d1.len() < d2.len() {
            assert(q1[5] == '/');
            assert(q2[5] == 'h');
        } else {
            assert(q2[5] == '/');
            assert(q1[5] == 'h');
        }
    }
    assert(q1.skip(d1.len() as int) =~= r1);
    assert(q2.skip(d2.len() as int) =~= r2);
}

proof fn lemma_prefixed_paths_distinct(
    j: Seq<char>,
    t1: ObjectType,
    id1: Seq<char>,
    t2: ObjectType,
    id2: Seq<char>,
)
    requires
        id1.len() >= 2,
        id2.len() >= 2,
        j + object_dir(t1) + object_tail(id1) == j + object_dir(t2) + object_tail(id2),
    ensures
        t1 == t2,
        id1 == id2,
{
    lemma_object_tail(id1);
    lemma_object_tail(id2);
    let r1 = object_tail(id1);
    let r2 = object_tail(id2);
    let p1 = j + object_dir(t1) + r1;
    let p2 = j + object_dir(t2) + r2;
    assert(p1.skip(j.len() as int) =~= object_dir(t1) + r1);
    assert(p2.skip(j.len() as int) =~= object_dir(t2) + r2);
    lemma_kind_dirs_distinct(t1, r1, t2, r2);
    assert(id1.len() == id2.len());
}

/// Distinct objects never share a file: below one objects directory, the
/// paths of two identifiers of at least two ASCII characters other than `/`
/// (hexadecimal content identifiers, in either case, among them), of two
/// kinds, agree exactly when kind and identifier agree; and every object path
/// lies strictly below the objects directory.
pub proof fn lemma_object_paths_distinct(
    root: Seq<char>,
    t1: ObjectType,
    id1: Seq<char>,
    t2: ObjectType,
    id2: Seq<char>,
)
    requires
        is_plain_id(id1),
        id1.len() >= 2,
        is_plain_id(id2),
        id2.len() >= 2,
    ensures
        object_path_of(root, t1, id1) == object_path_of(root, t2, id2) <==> t1 == t2 && id1 == id2,
        object_path_of(root, t1, id1).len() > root.len(),
        object_path_of(root, t1, id1).take(root.len() as int) == root,
{
    lemma_object_path_shape(root, t1, id1);
    lemma_object_path_shape(root, t2, id2);
    let j = join_prefix(root);
    let p1 = j + object_dir(t1) + object_tail(id1);
    assert(p1.take(root.len() as int) =~= root);
    if object_path_of(root, t1, id1) == object_path_of(root, t2, id2) {
        lemma_prefixed_paths_distinct(j, t1, id1, t2, id2);
    }
}

} // verus!
