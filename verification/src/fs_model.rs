//! An in-memory model of a filesystem tree.
//!
//! A node is a regular file (its full byte contents), a symbolic link (its
//! raw target string, never resolved), a directory (a list of named
//! children), or an entry of some other, unsupported kind. Paths into a
//! tree are sequences of component names.

use vstd::prelude::*;
use crate::EntryKind;
use crate::InstallError;
use crate::paths::RelPath;

verus! {

/// One named child of a directory.
pub struct DirEntry {
    pub name: String,
    pub node: FsNode,
}

/// A filesystem tree.
pub enum FsNode {
    /// A regular file with its byte contents.
    File { contents: Vec<u8> },
    /// A symbolic link with its raw target string.
    Symlink { target: String },
    /// A directory with its immediate children.
    Dir { entries: Vec<DirEntry> },
    /// An entry of a kind the engine refuses to reason about
    /// (device node, socket, ...).
    Other,
}

/// A path, as a sequence of component names.
pub type PathSeq = Seq<Seq<char>>;

impl FsNode {
    /// The kind of this node.
    pub open spec fn kind(self) -> EntryKind {
        match self {
            FsNode::File { .. } => EntryKind::File,
            FsNode::Symlink { .. } => EntryKind::Symlink,
            FsNode::Dir { .. } => EntryKind::Dir,
            FsNode::Other => EntryKind::Other,
        }
    }

    /// Well-formed: every directory's child names are distinct, recursively.
    pub open spec fn wf(self) -> bool
        decreases self,
    {
        match self {
            FsNode::Dir { entries } => {
                &&& (forall|i: int, j: int|
                    0 <= i < j < entries@.len() ==> entries@[i].name@ != entries@[j].name@)
                &&& (forall|i: int| #![trigger entries@[i]]
                    0 <= i < entries@.len() ==> entries@[i].node.wf())
            },
            _ => true,
        }
    }
}

/// The index of the first child named `name`, or -1 if there is none.
pub open spec fn find_idx(entries: Seq<DirEntry>, name: Seq<char>) -> int
    decreases entries.len(),
{
    if entries.len() == 0 {
        -1
    } else if entries[0].name@ == name {
        0
    } else {
        let r = find_idx(entries.drop_first(), name);
        if r == -1 {
            -1
        } else {
            r + 1
        }
    }
}

pub proof fn lemma_find_idx(entries: Seq<DirEntry>, name: Seq<char>)
    ensures
        find_idx(entries, name) == -1 ==> forall|i: int|
            0 <= i < entries.len() ==> entries[i].name@ != name,
        find_idx(entries, name) != -1 ==> {
            let k = find_idx(entries, name);
            &&& 0 <= k < entries.len()
            &&& entries[k].name@ == name
            &&& forall|i: int| 0 <= i < k ==> entries[i].name@ != name
        },
    decreases entries.len(),
{
    if entries.len() > 0 && entries[0].name@ != name {
        lemma_find_idx(entries.drop_first(), name);
        assert forall|i: int| 1 <= i < entries.len() implies entries[i] == entries.drop_first()[i
            - 1] by {}
    }
}

/// The node reached by descending `path` from `n`, or `None` when some
/// component is missing or an inner node is not a directory.
pub open spec fn lookup(n: FsNode, path: PathSeq) -> Option<FsNode>
    decreases path.len(),
{
    if path.len() == 0 {
        Some(n)
    } else {
        match n {
            FsNode::Dir { entries } => {
                let k = find_idx(entries@, path[0]);
                if k == -1 {
                    None
                } else {
                    lookup(entries@[k].node, path.drop_first())
                }
            },
            _ => None,
        }
    }
}

/// The kind found at `path`, `Absent` when nothing is there.
pub open spec fn kind_at(n: FsNode, path: PathSeq) -> EntryKind {
    match lookup(n, path) {
        Some(m) => m.kind(),
        None => EntryKind::Absent,
    }
}

/// All leaf (non-directory) entries under `n`, as paths relative to `n`.
/// A non-directory node is itself a single leaf at the empty path.
pub open spec fn leaves(n: FsNode) -> Seq<PathSeq>
    decreases n, 1nat,
{
    match n {
        FsNode::Dir { entries } => leaves_of(entries@),
        _ => seq![Seq::empty()],
    }
}

impl FsNode {
    /// The kind of this node, as a value.
    pub fn entry_kind(&self) -> (k: EntryKind)
        ensures
            k == self.kind(),
    {
        match self {
            FsNode::File { .. } => EntryKind::File,
            FsNode::Symlink { .. } => EntryKind::Symlink,
            FsNode::Dir { .. } => EntryKind::Dir,
            FsNode::Other => EntryKind::Other,
        }
    }
}

/// The index of the first child named `name`, if any.
pub fn find_entry(entries: &Vec<DirEntry>, name: &String) -> (r: Option<usize>)
    ensures
        match r {
            Some(j) => j < entries@.len() && find_idx(entries@, name@) == j as int,
            None => find_idx(entries@, name@) == -1,
        },
{
    let mut i: usize = 0;
    while i < entries.len()
        invariant
            i <= entries@.len(),
            forall|k: int| 0 <= k < i ==> #[trigger] entries@[k].name@ != name@,
        decreases entries@.len() - i,
    {
        if entries[i].name == *name {
            proof {
                lemma_find_idx(entries@, name@);
            }
            return Some(i);
        }
        i += 1;
    }
    proof {
        lemma_find_idx(entries@, name@);
    }
    None
}

/// The node reached by descending `path` from `root`.
pub fn lookup_node<'a>(root: &'a FsNode, path: &RelPath) -> (r: Option<&'a FsNode>)
    ensures
        match r {
            Some(m) => lookup(*root, path@) == Some(*m),
            None => lookup(*root, path@) is None,
        },
{
    let mut cur: &FsNode = root;
    let mut i: usize = 0;
    proof {
        assert(path@.skip(0) =~= path@);
    }
    while i < path.components.len()
        invariant
            i <= path.components.len(),
            path@ == path.components.deep_view(),
            lookup(*root, path@) == lookup(*cur, path@.skip(i as int)),
        decreases path.components.len() - i,
    {
        let ghost rest = path@.skip(i as int);
        proof {
            assert(rest.len() > 0);
            assert(rest[0] == path@[i as int]);
            assert(rest.drop_first() =~= path@.skip(i + 1));
        }
        match cur {
            FsNode::Dir { entries } => {
                match find_entry(entries, &path.components[i]) {
                    Some(j) => {
                        proof {
                            assert(path.components@[i as int]@ == path@[i as int]);
                        }
                        cur = &entries[j].node;
                    },
                    None => {
                        proof {
                            assert(path.components@[i as int]@ == path@[i as int]);
                            assert(lookup(*cur, rest) is None);
                        }
                        return None;
                    },
                }
            },
            _ => {
                proof {
                    assert(lookup(*cur, rest) is None);
                }
                return None;
            },
        }
        i += 1;
    }
    proof {
        assert(path@.skip(path.components.len() as int) =~= Seq::<Seq<char>>::empty());
    }
    Some(cur)
}

/// The kind of the entry at `path`, determined without following
/// symlinks; `Absent` when nothing is there.
pub fn classify(root: &FsNode, path: &RelPath) -> (k: EntryKind)
    ensures
        k == kind_at(*root, path@),
{
    match lookup_node(root, path) {
        Some(m) => m.entry_kind(),
        None => EntryKind::Absent,
    }
}

/// Whether an entry exists at `path`. Like the on-disk probe, this does
/// not follow symlinks: a dangling symlink still exists.
pub fn file_exists(root: &FsNode, path: &RelPath) -> (r: bool)
    ensures
        r <==> lookup(*root, path@) is Some,
{
    lookup_node(root, path).is_some()
}

/// Whether the entry at `path` is a symbolic link.
pub fn is_symlink(root: &FsNode, path: &RelPath) -> (r: bool)
    ensures
        r <==> kind_at(*root, path@) == EntryKind::Symlink,
{
    match lookup_node(root, path) {
        Some(m) => match m {
            FsNode::Symlink { .. } => true,
            _ => false,
        },
        None => false,
    }
}

/// The kind of the entry at `path`; a missing entry is an error, as the
/// on-disk metadata query fails on one.
pub fn get_file_type(root: &FsNode, path: &RelPath) -> (r: Result<EntryKind, InstallError>)
    ensures
        match r {
            Ok(k) => lookup(*root, path@) is Some && k == kind_at(*root, path@),
            Err(e) => lookup(*root, path@) is None && e == InstallError::Missing,
        },
{
    match lookup_node(root, path) {
        Some(m) => Ok(m.entry_kind()),
        None => Err(InstallError::Missing),
    }
}

/// Every path of `ps` with `name` put in front.
pub open spec fn prepend_all(name: Seq<char>, ps: Seq<PathSeq>) -> Seq<PathSeq> {
    ps.map_values(|p: PathSeq| seq![name] + p)
}

/// The leaves of a directory's children, in order of the child list.
pub open spec fn leaves_of(entries: Seq<DirEntry>) -> Seq<PathSeq>
    decreases entries, 0nat,
{
    if entries.len() == 0 {
        Seq::empty()
    } else {
        prepend_all(entries[0].name@, leaves(entries[0].node)) + leaves_of(entries.drop_first())
    }
}

/// The paths a list of `RelPath` values denotes.
pub open spec fn paths_view(s: Seq<RelPath>) -> Seq<PathSeq> {
    s.map_values(|rp: RelPath| rp@)
}

/// Appending a child at the end of a directory appends its leaves.
pub proof fn lemma_leaves_of_push(s: Seq<DirEntry>, e: DirEntry)
    ensures
        leaves_of(s.push(e)) == leaves_of(s) + prepend_all(e.name@, leaves(e.node)),
    decreases s.len(),
{
    if s.len() == 0 {
        assert(s.push(e)[0] == e);
        assert(s.push(e).drop_first() =~= Seq::<DirEntry>::empty());
        assert(leaves_of(Seq::<DirEntry>::empty()) =~= Seq::<PathSeq>::empty());
        assert(leaves_of(s.push(e)) == prepend_all(e.name@, leaves(e.node)) + leaves_of(
            s.push(e).drop_first(),
        ));
        assert(leaves_of(s.push(e)) =~= leaves_of(s) + prepend_all(e.name@, leaves(e.node)));
    } else {
        assert(s.push(e)[0] == s[0]);
        assert(s.push(e).drop_first() =~= s.drop_first().push(e));
        lemma_leaves_of_push(s.drop_first(), e);
        let p0 = prepend_all(s[0].name@, leaves(s[0].node));
        let rest = leaves_of(s.drop_first());
        let pe = prepend_all(e.name@, leaves(e.node));
        assert(leaves_of(s.push(e)) == p0 + (rest + pe));
        assert(leaves_of(s) == p0 + rest);
        assert(p0 + (rest + pe) =~= (p0 + rest) + pe);
    }
}

/// `name` followed by the components of `p`, as one relative path.
pub fn prepend_rel(name: &String, p: &RelPath) -> (r: RelPath)
    ensures
        r@ == seq![name@] + p@,
{
    let mut c: Vec<String> = Vec::new();
    c.push(name.clone());
    let mut k: usize = 0;
    while k < p.components.len()
        invariant
            k <= p.components.len(),
            c@.len() == k + 1,
            c@[0]@ == name@,
            forall|j: int| 0 <= j < k ==> #[trigger] c@[j + 1]@ == p.components@[j]@,
        decreases p.components.len() - k,
    {
        c.push(p.components[k].clone());
        k += 1;
    }
    let r = RelPath { components: c };
    proof {
        assert forall|j: int| 0 <= j < r@.len() implies r@[j] == (seq![name@] + p@)[j] by {
            if j > 0 {
                assert(c@[(j - 1) + 1]@ == p.components@[j - 1]@);
            }
        }
        assert(r@ =~= seq![name@] + p@);
    }
    r
}

/// All leaves under `n`, as relative paths.
#[verifier::loop_isolation(false)]
fn node_leaves(n: &FsNode) -> (r: Vec<RelPath>)
    ensures
        paths_view(r@) == leaves(*n),
    decreases *n,
{
    match n {
        FsNode::Dir { entries } => {
            let mut r: Vec<RelPath> = Vec::new();
            let mut i: usize = 0;
            proof {
                assert(paths_view(r@) =~= leaves_of(entries@.subrange(0, 0)));
            }
            while i < entries.len()
                invariant
                    i <= entries.len(),
                    paths_view(r@) == leaves_of(entries@.subrange(0, i as int)),
                decreases entries.len() - i,
            {
                let ghost base = leaves_of(entries@.subrange(0, i as int));
                proof {
                    assert(decreases_to!(*n => n->Dir_entries));
                    assert(decreases_to!(n->Dir_entries => entries@));
                    assert(decreases_to!(entries@ => entries@[i as int]));
                    assert(decreases_to!(entries@[i as int] => entries@[i as int].node));
                    assert(decreases_to!(*n => entries@[i as int].node));
                }
                let sub = node_leaves(&entries[i].node);
                let ghost pre = prepend_all(entries@[i as int].name@, leaves(entries@[i as int].node));
                let mut j: usize = 0;
                proof {
                    assert(paths_view(r@) =~= base + pre.subrange(0, 0));
                }
                while j < sub.len()
                    invariant
                        j <= sub.len(),
                        pre.len() == sub.len(),
                        pre == prepend_all(entries@[i as int].name@, paths_view(sub@)),
                        i < entries.len(),
                        paths_view(r@) == base + pre.subrange(0, j as int),
                    decreases sub.len() - j,
                {
                    let ghost r0 = r@;
                    r.push(prepend_rel(&entries[i].name, &sub[j]));
                    proof {
                        assert(pre[j as int] == seq![entries@[i as int].name@] + sub@[j as int]@);
                        assert(paths_view(r@) =~= paths_view(r0).push(r@[r0.len() as int]@));
                        assert(paths_view(r@) =~= base + pre.subrange(0, j + 1));
                    }
                    j += 1;
                }
                proof {
                    assert(pre.subrange(0, pre.len() as int) =~= pre);
                    lemma_leaves_of_push(entries@.subrange(0, i as int), entries@[i as int]);
                    assert(entries@.subrange(0, i + 1) =~= entries@.subrange(0, i as int).push(
                        entries@[i as int],
                    ));
                    assert(paths_view(r@) =~= leaves_of(entries@.subrange(0, i + 1)));
                }
                i += 1;
            }
            proof {
                assert(entries@.subrange(0, entries@.len() as int) =~= entries@);
            }
            r
        },
        _ => {
            let mut r: Vec<RelPath> = Vec::new();
            r.push(RelPath { components: Vec::new() });
            proof {
                assert(r@[0]@ =~= Seq::<Seq<char>>::empty());
                assert(paths_view(r@) =~= seq![Seq::<Seq<char>>::empty()]);
            }
            r
        },
    }
}

/// `p` is a prefix of `q` (`p == q` included).
pub open spec fn is_prefix_of(p: PathSeq, q: PathSeq) -> bool {
    p.len() <= q.len() && p == q.subrange(0, p.len() as int)
}

/// Looking up a concatenated path descends in two steps.
pub proof fn lemma_lookup_append(n: FsNode, p: PathSeq, q: PathSeq)
    ensures
        lookup(n, p + q) == (match lookup(n, p) {
            Some(m) => lookup(m, q),
            None => None::<FsNode>,
        }),
    decreases p.len(),
{
    if p.len() == 0 {
        assert(p + q =~= q);
    } else {
        assert((p + q)[0] == p[0]);
        assert((p + q).len() > 0);
        match n {
            FsNode::Dir { entries } => {
                let k = find_idx(entries@, p[0]);
                if k == -1 {
                } else {
                    assert((p + q).drop_first() =~= p.drop_first() + q);
                    lemma_lookup_append(entries@[k].node, p.drop_first(), q);
                }
            },
            _ => {},
        }
    }
}

/// Two nonempty paths with different first components are prefix-unrelated.
pub proof fn lemma_prefix_diff(p: PathSeq, q: PathSeq)
    requires
        p.len() > 0,
        q.len() > 0,
        p[0] != q[0],
    ensures
        !is_prefix_of(p, q),
        !is_prefix_of(q, p),
{
    if p.len() <= q.len() {
        assert(q.subrange(0, p.len() as int)[0] == q[0]);
    }
    if q.len() <= p.len() {
        assert(p.subrange(0, q.len() as int)[0] == p[0]);
    }
}

/// Dropping a shared first component preserves the prefix relation.
pub proof fn lemma_prefix_drop(p: PathSeq, q: PathSeq)
    requires
        p.len() > 0,
        q.len() > 0,
        p[0] == q[0],
    ensures
        is_prefix_of(p, q) <==> is_prefix_of(p.drop_first(), q.drop_first()),
{
    if p.len() <= q.len() {
        if p == q.subrange(0, p.len() as int) {
            assert forall|m: int| 0 <= m < p.len() - 1 implies p.drop_first()[m]
                == q.drop_first().subrange(0, p.len() - 1)[m] by {
                assert(p[m + 1] == q.subrange(0, p.len() as int)[m + 1]);
            }
            assert(p.drop_first() =~= q.drop_first().subrange(0, p.len() - 1));
        } else if p.drop_first() == q.drop_first().subrange(0, p.len() - 1) {
            assert forall|m: int| 0 <= m < p.len() implies p[m] == q.subrange(
                0,
                p.len() as int,
            )[m] by {
                if m > 0 {
                    assert(p.drop_first()[m - 1] == q.drop_first().subrange(0, p.len() - 1)[m - 1]);
                }
            }
            assert(p =~= q.subrange(0, p.len() as int));
        }
    }
}

/// Whether a leaf may be placed at `path` below `n`: every inner node on
/// the way must be a directory or absent, and the final slot must be
/// empty — except that a regular file may overwrite an existing
/// non-directory entry, as an on-disk copy does.
pub open spec fn can_place(n: FsNode, path: PathSeq, leaf: FsNode) -> bool
    decreases path.len(),
{
    if path.len() == 0 {
        false
    } else {
        match n {
            FsNode::Dir { entries } => {
                let k = find_idx(entries@, path[0]);
                if k == -1 {
                    true
                } else if path.len() == 1 {
                    leaf is File && !(entries@[k].node is Dir)
                } else {
                    can_place(entries@[k].node, path.drop_first(), leaf)
                }
            },
            _ => false,
        }
    }
}

/// Updating one child in place, keeping its name, leaves every first-match
/// index as it was.
proof fn lemma_find_idx_update(s: Seq<DirEntry>, j: int, e: DirEntry, c: Seq<char>)
    requires
        0 <= j < s.len(),
        e.name@ == s[j].name@,
    ensures
        find_idx(s.update(j, e), c) == find_idx(s, c),
    decreases s.len(),
{
    let s2 = s.update(j, e);
    assert(s2[0].name@ == s[0].name@);
    if s[0].name@ == c {
    } else {
        if j == 0 {
            assert(s2.drop_first() =~= s.drop_first());
        } else {
            assert(s2.drop_first() =~= s.drop_first().update(j - 1, e));
            lemma_find_idx_update(s.drop_first(), j - 1, e, c);
        }
    }
}

/// Appending a child with a fresh name: the new name is found at the end,
/// all other names as before.
proof fn lemma_find_idx_push(s: Seq<DirEntry>, e: DirEntry, c: Seq<char>)
    ensures
        c != e.name@ ==> find_idx(s.push(e), c) == find_idx(s, c),
        c == e.name@ && find_idx(s, c) == -1 ==> find_idx(s.push(e), c) == s.len(),
        c == e.name@ && find_idx(s, c) != -1 ==> find_idx(s.push(e), c) == find_idx(s, c),
    decreases s.len(),
{
    if s.len() == 0 {
        assert(s.push(e)[0] == e);
        assert(s.push(e).drop_first() =~= Seq::<DirEntry>::empty());
        assert(find_idx(s, c) == -1);
        assert(find_idx(Seq::<DirEntry>::empty(), c) == -1);
        if c == e.name@ {
            assert(find_idx(s.push(e), c) == 0);
        } else {
            assert(find_idx(s.push(e), c) == -1);
        }
    } else {
        assert(s.push(e)[0] == s[0]);
        assert(s.push(e).drop_first() =~= s.drop_first().push(e));
        lemma_find_idx_push(s.drop_first(), e, c);
        lemma_find_idx(s, c);
        lemma_find_idx(s.drop_first(), c);
        lemma_find_idx(s.push(e), c);
        lemma_find_idx(s.drop_first().push(e), c);
        if s[0].name@ == c {
            assert(find_idx(s, c) == 0);
            assert(find_idx(s.push(e), c) == 0);
        } else {
            let r1 = find_idx(s.drop_first().push(e), c);
            assert(find_idx(s.push(e), c) == (if r1 == -1 {
                -1
            } else {
                r1 + 1
            }));
            let r0 = find_idx(s.drop_first(), c);
            assert(find_idx(s, c) == (if r0 == -1 {
                -1
            } else {
                r0 + 1
            }));
        }
    }
}

/// Removing the first match of a name: other names keep their first-match
/// entry, though its index may shift down by one.
proof fn lemma_find_idx_remove(s: Seq<DirEntry>, j: int, c: Seq<char>)
    requires
        0 <= j < s.len(),
        find_idx(s, s[j].name@) == j,
        c != s[j].name@,
    ensures
        find_idx(s, c) == -1 ==> find_idx(s.remove(j), c) == -1,
        find_idx(s, c) != -1 && find_idx(s, c) < j ==> find_idx(s.remove(j), c) == find_idx(s, c)
            && s.remove(j)[find_idx(s, c)] == s[find_idx(s, c)],
        find_idx(s, c) != -1 && find_idx(s, c) > j ==> find_idx(s.remove(j), c) == find_idx(s, c)
            - 1 && s.remove(j)[find_idx(s, c) - 1] == s[find_idx(s, c)],
    decreases s.len(),
{
    lemma_find_idx(s, c);
    let s2 = s.remove(j);
    if j == 0 {
        assert(s2 =~= s.drop_first());
        lemma_find_idx(s.drop_first(), c);
        assert forall|i: int| 0 <= i < s.drop_first().len() implies s.drop_first()[i] == s[i
            + 1] by {}
    } else {
        assert(s2[0] == s[0]);
        assert(s2.drop_first() =~= s.drop_first().remove(j - 1));
        assert(find_idx(s, s[j].name@) == j);
        assert(s[0].name@ != s[j].name@) by {
            lemma_find_idx(s, s[j].name@);
        }
        assert(s.drop_first()[j - 1] == s[j]);
        assert(find_idx(s.drop_first(), s[j].name@) == j - 1) by {
            lemma_find_idx(s.drop_first(), s[j].name@);
            lemma_find_idx(s, s[j].name@);
            if find_idx(s.drop_first(), s[j].name@) != j - 1 {
                let k = find_idx(s.drop_first(), s[j].name@);
                if k == -1 {
                    lemma_find_idx(s.drop_first(), s[j].name@);
                    assert(s.drop_first()[j - 1].name@ == s[j].name@);
                } else {
                    assert(s[k + 1].name@ == s[j].name@);
                    assert(k + 1 != j ==> k + 1 > j || k + 1 < j);
                }
            }
        }
        if s[0].name@ == c {
        } else {
            lemma_find_idx_remove(s.drop_first(), j - 1, c);
        }
    }
}

/// With distinct names, removing an entry removes its name entirely.
proof fn lemma_find_idx_remove_same(s: Seq<DirEntry>, j: int)
    requires
        0 <= j < s.len(),
        forall|i1: int, i2: int| 0 <= i1 < i2 < s.len() ==> s[i1].name@ != s[i2].name@,
    ensures
        find_idx(s.remove(j), s[j].name@) == -1,
{
    lemma_find_idx(s.remove(j), s[j].name@);
    let k = find_idx(s.remove(j), s[j].name@);
    if k != -1 {
        assert(s.remove(j)[k] == (if k < j {
            s[k]
        } else {
            s[k + 1]
        }));
    }
}

/// With distinct names, an entry's index is its first-match index.
pub proof fn lemma_find_idx_of_member(s: Seq<DirEntry>, j: int)
    requires
        0 <= j < s.len(),
        forall|i1: int, i2: int| 0 <= i1 < i2 < s.len() ==> s[i1].name@ != s[i2].name@,
    ensures
        find_idx(s, s[j].name@) == j,
{
    lemma_find_idx(s, s[j].name@);
    let k = find_idx(s, s[j].name@);
    if k == -1 {
    } else {
        if k < j {
            assert(s[k].name@ == s[j].name@);
        } else if k > j {
            assert(s[j].name@ != s[k].name@);
        }
    }
}

/// Whether `leaf` could be placed at the remaining path below `n`.
fn placeable(n: &FsNode, path: &RelPath, i: usize, leaf_is_file: bool, Ghost(leaf): Ghost<FsNode>)
    -> (r: bool)
    requires
        i < path@.len(),
        leaf_is_file == leaf is File,
    ensures
        r == can_place(*n, path@.skip(i as int), leaf),
    decreases path@.len() - i,
{
    let ghost rest = path@.skip(i as int);
    proof {
        assert(path@.len() == path.components.len());
        assert(rest[0] == path@[i as int]);
        assert(rest.drop_first() =~= path@.skip(i + 1));
        assert(path.components@[i as int]@ == path@[i as int]);
    }
    match n {
        FsNode::Dir { entries } => {
            match find_entry(entries, &path.components[i]) {
                None => true,
                Some(j) => {
                    if i + 1 == path.components.len() {
                        let is_dir = match &entries[j].node {
                            FsNode::Dir { .. } => true,
                            _ => false,
                        };
                        leaf_is_file && !is_dir
                    } else {
                        placeable(&entries[j].node, path, i + 1, leaf_is_file, Ghost(leaf))
                    }
                },
            }
        },
        _ => false,
    }
}

/// A fresh chain of directories for the remaining components, ending in
/// `leaf`.
fn make_chain(path: &RelPath, i: usize, leaf: FsNode) -> (c: FsNode)
    requires
        i <= path@.len(),
        leaf.wf(),
        !(leaf is Dir),
    ensures
        c.wf(),
        lookup(c, path@.skip(i as int)) == Some(leaf),
        forall|q: PathSeq|
            !is_prefix_of(q, path@.skip(i as int)) && !is_prefix_of(path@.skip(i as int), q)
                ==> lookup(c, q) is None,
        forall|q: PathSeq|
            is_prefix_of(q, path@.skip(i as int)) && q.len() < path@.skip(i as int).len()
                ==> kind_at(c, q) == EntryKind::Dir,
        i < path@.len() ==> c is Dir,
        i == path@.len() ==> c == leaf,
    decreases path@.len() - i,
{
    if i == path.components.len() {
        proof {
            assert(path@.skip(i as int) =~= Seq::<Seq<char>>::empty());
            assert forall|q: PathSeq|
                !is_prefix_of(q, path@.skip(i as int)) && !is_prefix_of(path@.skip(i as int), q)
                implies lookup(leaf, q) is None by {
                if q.len() == 0 {
                    assert(q =~= path@.skip(i as int).subrange(0, 0));
                    assert(is_prefix_of(q, path@.skip(i as int)));
                }
            }
        }
        leaf
    } else {
        let ghost rest = path@.skip(i as int);
        proof {
            assert(path@.len() == path.components.len());
        }
        let sub = make_chain(path, i + 1, leaf);
        let name = path.components[i].clone();
        let mut entries: Vec<DirEntry> = Vec::new();
        entries.push(DirEntry { name, node: sub });
        let c = FsNode::Dir { entries };
        proof {
            let es = c->Dir_entries@;
            assert(es.len() == 1);
            assert(es[0].name@ == path@[i as int]);
            assert(rest[0] == path@[i as int]);
            assert(rest.drop_first() =~= path@.skip(i + 1));
            assert(find_idx(es, rest[0]) == 0);
            assert(lookup(c, rest) == lookup(sub, path@.skip(i + 1)));
            assert forall|q: PathSeq| !is_prefix_of(q, rest) && !is_prefix_of(rest, q) implies
                lookup(c, q) is None by {
                if q.len() == 0 {
                    assert(q =~= rest.subrange(0, 0));
                    assert(is_prefix_of(q, rest));
                } else {
                    if q[0] != rest[0] {
                        lemma_find_idx(es, q[0]);
                        assert(find_idx(es, q[0]) == -1);
                    } else {
                        lemma_prefix_drop(q, rest);
                        lemma_prefix_drop(rest, q);
                        assert(lookup(c, q) == lookup(sub, q.drop_first()));
                    }
                }
            }
            assert forall|q: PathSeq| is_prefix_of(q, rest) && q.len() < rest.len() implies
                kind_at(c, q) == EntryKind::Dir by {
                if q.len() == 0 {
                    assert(lookup(c, q) == Some(c));
                } else {
                    assert(q[0] == rest[0]) by {
                        assert(q == rest.subrange(0, q.len() as int));
                        assert(rest.subrange(0, q.len() as int)[0] == rest[0]);
                    }
                    assert(lookup(c, q) == lookup(sub, q.drop_first()));
                    lemma_prefix_drop(q, rest);
                    assert(is_prefix_of(q.drop_first(), path@.skip(i + 1)));
                    assert(kind_at(sub, q.drop_first()) == EntryKind::Dir);
                }
            }
        }
        c
    }
}

/// Places `leaf` at `path[i..]` below `n`, creating missing intermediate
/// directories; `n` must admit the placement.
fn do_set(n: &mut FsNode, path: &RelPath, i: usize, leaf: FsNode)
    requires
        i < path@.len(),
        old(n).wf(),
        leaf.wf(),
        !(leaf is Dir),
        can_place(*old(n), path@.skip(i as int), leaf),
    ensures
        final(n).wf(),
        final(n).kind() == old(n).kind(),
        lookup(*final(n), path@.skip(i as int)) == Some(leaf),
        forall|q: PathSeq|
            !is_prefix_of(q, path@.skip(i as int)) && !is_prefix_of(path@.skip(i as int), q)
                ==> lookup(*final(n), q) == lookup(*old(n), q),
        forall|q: PathSeq|
            is_prefix_of(q, path@.skip(i as int)) && q.len() < path@.skip(i as int).len()
                ==> kind_at(*final(n), q) == EntryKind::Dir,
    decreases path@.len() - i,
{
    let ghost n0 = *n;
    let ghost leafg = leaf;
    let ghost rest = path@.skip(i as int);
    proof {
        assert(path@.len() == path.components.len());
        assert(rest[0] == path@[i as int]);
        assert(rest.drop_first() =~= path@.skip(i + 1));
        assert(path.components@[i as int]@ == path@[i as int]);
    }
    let mut taken = FsNode::Other;
    core::mem::swap(n, &mut taken);
    match taken {
        FsNode::Dir { mut entries } => {
            let ghost es0 = entries@;
            proof {
                assert(n0 == (FsNode::Dir { entries }));
            }
            match find_entry(&entries, &path.components[i]) {
                None => {
                    let sub = make_chain(path, i + 1, leaf);
                    let ghost subg = sub;
                    let name = path.components[i].clone();
                    entries.push(DirEntry { name, node: sub });
                    let ghost es1 = entries@;
                    *n = FsNode::Dir { entries };
                    proof {
                        let pe = es1[es0.len() as int];
                        assert(es1 == es0.push(pe));
                        assert(pe.name@ == rest[0]);
                        assert(pe.node == subg);
                        lemma_find_idx(es0, rest[0]);
                        assert forall|c: Seq<char>|
                            #[trigger] find_idx(es1, c) == (if c == rest[0] {
                                es0.len() as int
                            } else {
                                find_idx(es0, c)
                            }) by {
                            lemma_find_idx_push(es0, pe, c);
                        }
                        assert forall|i1: int, i2: int| 0 <= i1 < i2 < es1.len() implies es1[i1].name@
                            != es1[i2].name@ by {
                            if i2 < es0.len() {
                                assert(es1[i1] == es0[i1]);
                                assert(es1[i2] == es0[i2]);
                            } else {
                                assert(es1[i1] == es0[i1]);
                            }
                        }
                        assert forall|k: int| 0 <= k < es1.len() implies #[trigger] es1[k].node.wf() by {
                            if k < es0.len() {
                                assert(es1[k] == es0[k]);
                                assert(es0[k].node.wf());
                            }
                        }
                        assert((*n).wf());
                        assert((*n)->Dir_entries@ == es1);
                        assert(find_idx(es1, rest[0]) == es0.len());
                        assert(es1[es0.len() as int].node == subg);
                        assert(lookup(*n, rest) == lookup(subg, rest.drop_first()));
                        assert(lookup(subg, path@.skip(i + 1)) == Some(leafg));
                        assert forall|q: PathSeq|
                            !is_prefix_of(q, rest) && !is_prefix_of(rest, q) implies lookup(*n, q)
                            == lookup(n0, q) by {
                            if q.len() == 0 {
                                assert(q =~= rest.subrange(0, 0));
                                assert(is_prefix_of(q, rest));
                            } else if q[0] == rest[0] {
                                assert(lookup(n0, q) is None);
                                assert(lookup(*n, q) == lookup(subg, q.drop_first()));
                                lemma_prefix_drop(q, rest);
                                lemma_prefix_drop(rest, q);
                                assert(lookup(subg, q.drop_first()) is None);
                            } else {
                                let k = find_idx(es0, q[0]);
                                assert(find_idx(es1, q[0]) == k);
                                if k != -1 {
                                    lemma_find_idx(es0, q[0]);
                                    assert(es1[k] == es0[k]);
                                }
                            }
                        }
                        assert forall|q: PathSeq|
                            is_prefix_of(q, rest) && q.len() < rest.len() implies kind_at(*n, q)
                            == EntryKind::Dir by {
                            if q.len() == 0 {
                                assert(lookup(*n, q) == Some(*n));
                            } else {
                                assert(q[0] == rest[0]) by {
                                    assert(q == rest.subrange(0, q.len() as int));
                                    assert(rest.subrange(0, q.len() as int)[0] == rest[0]);
                                }
                                assert(lookup(*n, q) == lookup(subg, q.drop_first()));
                                lemma_prefix_drop(q, rest);
                                assert(is_prefix_of(q.drop_first(), path@.skip(i + 1)));
                                assert(kind_at(subg, q.drop_first()) == EntryKind::Dir);
                            }
                        }
                    }
                },
                Some(j) => {
                    proof {
                        lemma_find_idx(es0, rest[0]);
                        assert(es0[j as int].name@ == rest[0]);
                    }
                    if i + 1 == path.components.len() {
                        let e = &mut entries[j];
                        e.node = leaf;
                        let ghost es1 = entries@;
                        *n = FsNode::Dir { entries };
                        proof {
                            assert(rest.len() == 1);
                            assert(rest.drop_first() =~= Seq::<Seq<char>>::empty());
                            assert(es1 == es0.update(j as int, es1[j as int]));
                            assert(es1[j as int].name@ == es0[j as int].name@);
                            assert(es1[j as int].node == leafg);
                            assert forall|c: Seq<char>| #[trigger] find_idx(es1, c) == find_idx(
                                es0,
                                c,
                            ) by {
                                lemma_find_idx_update(es0, j as int, es1[j as int], c);
                            }
                            assert forall|i1: int, i2: int| 0 <= i1 < i2 < es1.len() implies es1[i1].name@
                                != es1[i2].name@ by {
                                assert(es1[i1].name@ == es0[i1].name@);
                                assert(es1[i2].name@ == es0[i2].name@);
                            }
                            assert forall|k: int| 0 <= k < es1.len() implies #[trigger] es1[k].node.wf() by {
                                if k != j {
                                    assert(es1[k] == es0[k]);
                                    assert(es0[k].node.wf());
                                }
                            }
                            assert((*n).wf());
                            assert((*n)->Dir_entries@ == es1);
                            assert(find_idx(es1, rest[0]) == j as int);
                            assert(lookup(*n, rest) == lookup(es1[j as int].node,
                                rest.drop_first()));
                            assert(lookup(leafg, rest.drop_first()) == Some(leafg));
                            assert(lookup(*n, rest) == Some(leafg));
                            assert forall|q: PathSeq|
                                !is_prefix_of(q, rest) && !is_prefix_of(rest, q) implies lookup(
                                *n,
                                q,
                            ) == lookup(n0, q) by {
                                if q.len() == 0 {
                                    assert(q =~= rest.subrange(0, 0));
                                    assert(is_prefix_of(q, rest));
                                } else if q[0] == rest[0] {
                                    assert(rest =~= q.subrange(0, 1));
                                    assert(is_prefix_of(rest, q));
                                } else {
                                    let k = find_idx(es0, q[0]);
                                    if k != -1 {
                                        lemma_find_idx(es0, q[0]);
                                        assert(es1[k] == es0[k]);
                                    }
                                }
                            }
                            assert forall|q: PathSeq|
                                is_prefix_of(q, rest) && q.len() < rest.len() implies kind_at(
                                *n,
                                q,
                            ) == EntryKind::Dir by {
                                assert(q.len() == 0);
                                assert(lookup(*n, q) == Some(*n));
                            }
                        }
                    } else {
                        let ghost child0 = es0[j as int].node;
                        proof {
                            assert(child0.wf());
                            assert(can_place(child0, rest.drop_first(), leafg));
                        }
                        let e = &mut entries[j];
                        do_set(&mut e.node, path, i + 1, leaf);
                        let ghost es1 = entries@;
                        let ghost child1 = es1[j as int].node;
                        *n = FsNode::Dir { entries };
                        proof {
                            assert(es1 == es0.update(j as int, es1[j as int]));
                            assert(es1[j as int].name@ == es0[j as int].name@);
                            assert forall|c: Seq<char>| #[trigger] find_idx(es1, c) == find_idx(
                                es0,
                                c,
                            ) by {
                                lemma_find_idx_update(es0, j as int, es1[j as int], c);
                            }
                            assert forall|i1: int, i2: int| 0 <= i1 < i2 < es1.len() implies es1[i1].name@
                                != es1[i2].name@ by {
                                assert(es1[i1].name@ == es0[i1].name@);
                                assert(es1[i2].name@ == es0[i2].name@);
                            }
                            assert forall|k: int| 0 <= k < es1.len() implies #[trigger] es1[k].node.wf() by {
                                if k != j {
                                    assert(es1[k] == es0[k]);
                                    assert(es0[k].node.wf());
                                }
                            }
                            assert((*n).wf());
                            assert(lookup(*n, rest) == lookup(child1, rest.drop_first()));
                            assert forall|q: PathSeq|
                                !is_prefix_of(q, rest) && !is_prefix_of(rest, q) implies lookup(
                                *n,
                                q,
                            ) == lookup(n0, q) by {
                                if q.len() == 0 {
                                    assert(q =~= rest.subrange(0, 0));
                                    assert(is_prefix_of(q, rest));
                                } else if q[0] == rest[0] {
                                    assert(lookup(*n, q) == lookup(child1, q.drop_first()));
                                    assert(lookup(n0, q) == lookup(child0, q.drop_first()));
                                    lemma_prefix_drop(q, rest);
                                    lemma_prefix_drop(rest, q);
                                } else {
                                    let k = find_idx(es0, q[0]);
                                    if k != -1 {
                                        lemma_find_idx(es0, q[0]);
                                        assert(es1[k] == es0[k]);
                                    }
                                }
                            }
                            assert forall|q: PathSeq|
                                is_prefix_of(q, rest) && q.len() < rest.len() implies kind_at(
                                *n,
                                q,
                            ) == EntryKind::Dir by {
                                if q.len() == 0 {
                                    assert(lookup(*n, q) == Some(*n));
                                } else {
                                    assert(q[0] == rest[0]) by {
                                        assert(q == rest.subrange(0, q.len() as int));
                                        assert(rest.subrange(0, q.len() as int)[0] == rest[0]);
                                    }
                                    assert(lookup(*n, q) == lookup(child1, q.drop_first()));
                                    lemma_prefix_drop(q, rest);
                                    assert(is_prefix_of(q.drop_first(), path@.skip(i + 1)));
                                    assert(kind_at(child1, q.drop_first()) == EntryKind::Dir);
                                }
                            }
                        }
                    }
                },
            }
        },
        _ => {
            proof {
                assert(false);
            }
        },
    }
}

/// Removes the entry at `path[i..]` below `n`; descendants go with it.
fn do_remove(n: &mut FsNode, path: &RelPath, i: usize)
    requires
        i < path@.len(),
        old(n).wf(),
        lookup(*old(n), path@.skip(i as int)) is Some,
    ensures
        final(n).wf(),
        final(n).kind() == old(n).kind(),
        lookup(*final(n), path@.skip(i as int)) is None,
        forall|q: PathSeq|
            !is_prefix_of(q, path@.skip(i as int)) && !is_prefix_of(path@.skip(i as int), q)
                ==> lookup(*final(n), q) == lookup(*old(n), q),
        forall|q: PathSeq|
            is_prefix_of(q, path@.skip(i as int)) && q.len() < path@.skip(i as int).len()
                ==> kind_at(*final(n), q) == kind_at(*old(n), q),
    decreases path@.len() - i,
{
    let ghost n0 = *n;
    let ghost rest = path@.skip(i as int);
    proof {
        assert(path@.len() == path.components.len());
        assert(rest[0] == path@[i as int]);
        assert(rest.drop_first() =~= path@.skip(i + 1));
        assert(path.components@[i as int]@ == path@[i as int]);
    }
    let mut taken = FsNode::Other;
    core::mem::swap(n, &mut taken);
    match taken {
        FsNode::Dir { mut entries } => {
            let ghost es0 = entries@;
            proof {
                assert(n0 == (FsNode::Dir { entries }));
            }
            match find_entry(&entries, &path.components[i]) {
                None => {
                    proof {
                        assert(false);
                    }
                },
                Some(j) => {
                    proof {
                        lemma_find_idx(es0, rest[0]);
                        assert(es0[j as int].name@ == rest[0]);
                    }
                    if i + 1 == path.components.len() {
                        entries.remove(j);
                        let ghost es1 = entries@;
                        *n = FsNode::Dir { entries };
                        proof {
                            assert(rest.len() == 1);
                            assert(es1 == es0.remove(j as int));
                            es0.remove_ensures(j as int);
                            assert forall|i1: int, i2: int| 0 <= i1 < i2 < es1.len() implies es1[i1].name@
                                != es1[i2].name@ by {
                                let m1: int = if i1 < j { i1 } else { i1 + 1 };
                                let m2: int = if i2 < j { i2 } else { i2 + 1 };
                                assert(es1[i1] == es0[m1]);
                                assert(es1[i2] == es0[m2]);
                            }
                            assert forall|k: int| 0 <= k < es1.len() implies #[trigger] es1[k].node.wf() by {
                                let m: int = if k < j { k } else { k + 1 };
                                assert(es1[k] == es0[m]);
                                assert(es0[m].node.wf());
                            }
                            assert((*n).wf());
                            lemma_find_idx_remove_same(es0, j as int);
                            assert(lookup(*n, rest) is None);
                            lemma_find_idx_of_member(es0, j as int);
                            assert forall|q: PathSeq|
                                !is_prefix_of(q, rest) && !is_prefix_of(rest, q) implies lookup(
                                *n,
                                q,
                            ) == lookup(n0, q) by {
                                if q.len() == 0 {
                                    assert(q =~= rest.subrange(0, 0));
                                    assert(is_prefix_of(q, rest));
                                } else if q[0] == rest[0] {
                                    assert(rest =~= q.subrange(0, 1));
                                    assert(is_prefix_of(rest, q));
                                } else {
                                    lemma_find_idx_remove(es0, j as int, q[0]);
                                    lemma_find_idx(es0, q[0]);
                                    es0.remove_ensures(j as int);
                                    let k = find_idx(es0, q[0]);
                                    if k == -1 {
                                        assert(find_idx(es1, q[0]) == -1);
                                    } else if k < j {
                                        assert(es0.remove(j as int)[k] == es0[k]);
                                        assert(es1[k] == es0[k]);
                                    } else {
                                        assert(es0.remove(j as int)[k - 1] == es0[k]);
                                        assert(es1[k - 1] == es0[k]);
                                    }
                                }
                            }
                            assert forall|q: PathSeq|
                                is_prefix_of(q, rest) && q.len() < rest.len() implies kind_at(
                                *n,
                                q,
                            ) == kind_at(n0, q) by {
                                assert(q.len() == 0);
                                assert(lookup(*n, q) == Some(*n));
                                assert(lookup(n0, q) == Some(n0));
                            }
                        }
                    } else {
                        let ghost child0 = es0[j as int].node;
                        proof {
                            assert(child0.wf());
                            assert(lookup(child0, rest.drop_first()) is Some);
                        }
                        let e = &mut entries[j];
                        do_remove(&mut e.node, path, i + 1);
                        let ghost es1 = entries@;
                        let ghost child1 = es1[j as int].node;
                        *n = FsNode::Dir { entries };
                        proof {
                            assert(es1 == es0.update(j as int, es1[j as int]));
                            assert(es1[j as int].name@ == es0[j as int].name@);
                            assert forall|c: Seq<char>| #[trigger] find_idx(es1, c) == find_idx(
                                es0,
                                c,
                            ) by {
                                lemma_find_idx_update(es0, j as int, es1[j as int], c);
                            }
                            assert forall|i1: int, i2: int| 0 <= i1 < i2 < es1.len() implies es1[i1].name@
                                != es1[i2].name@ by {
                                assert(es1[i1].name@ == es0[i1].name@);
                                assert(es1[i2].name@ == es0[i2].name@);
                            }
                            assert forall|k: int| 0 <= k < es1.len() implies #[trigger] es1[k].node.wf() by {
                                if k != j {
                                    assert(es1[k] == es0[k]);
                                    assert(es0[k].node.wf());
                                }
                            }
                            assert((*n).wf());
                            assert(lookup(*n, rest) == lookup(child1, rest.drop_first()));
                            assert forall|q: PathSeq|
                                !is_prefix_of(q, rest) && !is_prefix_of(rest, q) implies lookup(
                                *n,
                                q,
                            ) == lookup(n0, q) by {
                                if q.len() == 0 {
                                    assert(q =~= rest.subrange(0, 0));
                                    assert(is_prefix_of(q, rest));
                                } else if q[0] == rest[0] {
                                    assert(lookup(*n, q) == lookup(child1, q.drop_first()));
                                    assert(lookup(n0, q) == lookup(child0, q.drop_first()));
                                    lemma_prefix_drop(q, rest);
                                    lemma_prefix_drop(rest, q);
                                } else {
                                    let k = find_idx(es0, q[0]);
                                    if k != -1 {
                                        lemma_find_idx(es0, q[0]);
                                        assert(es1[k] == es0[k]);
                                    }
                                }
                            }
                            assert forall|q: PathSeq|
                                is_prefix_of(q, rest) && q.len() < rest.len() implies kind_at(
                                *n,
                                q,
                            ) == kind_at(n0, q) by {
                                if q.len() == 0 {
                                    assert(lookup(*n, q) == Some(*n));
                                    assert(lookup(n0, q) == Some(n0));
                                } else {
                                    assert(q[0] == rest[0]) by {
                                        assert(q == rest.subrange(0, q.len() as int));
                                        assert(rest.subrange(0, q.len() as int)[0] == rest[0]);
                                    }
                                    assert(lookup(*n, q) == lookup(child1, q.drop_first()));
                                    assert(lookup(n0, q) == lookup(child0, q.drop_first()));
                                    lemma_prefix_drop(q, rest);
                                    assert(is_prefix_of(q.drop_first(), path@.skip(i + 1)));
                                    assert(kind_at(child1, q.drop_first()) == kind_at(
                                        child0,
                                        q.drop_first(),
                                    ));
                                }
                            }
                        }
                    }
                },
            }
        },
        _ => {
            proof {
                assert(false);
            }
        },
    }
}

/// Places a file or symlink copy at `path` below `root`, creating missing
/// parent directories, as a copy onto that path would on disk. Fails,
/// changing nothing, when an inner node on the way is not a directory,
/// or the slot is taken and the new leaf is not a regular file, or the
/// slot holds a directory.
pub fn set_at(root: &mut FsNode, path: &RelPath, leaf: FsNode) -> (r: Result<(), InstallError>)
    requires
        old(root).wf(),
        leaf.wf(),
        !(leaf is Dir),
        path@.len() > 0,
    ensures
        r is Ok <==> can_place(*old(root), path@, leaf),
        r is Err ==> *final(root) == *old(root) && r == Err::<(), InstallError>(
            InstallError::Conflict,
        ),
        final(root).wf(),
        final(root).kind() == old(root).kind(),
        r is Ok ==> lookup(*final(root), path@) == Some(leaf),
        r is Ok ==> forall|q: PathSeq|
            !is_prefix_of(q, path@) && !is_prefix_of(path@, q) ==> lookup(*final(root), q)
                == lookup(*old(root), q),
        r is Ok ==> forall|q: PathSeq|
            is_prefix_of(q, path@) && q.len() < path@.len() ==> kind_at(*final(root), q)
                == EntryKind::Dir,
{
    proof {
        assert(path@.skip(0) =~= path@);
    }
    let leaf_is_file = match &leaf {
        FsNode::File { .. } => true,
        _ => false,
    };
    if !placeable(root, path, 0, leaf_is_file, Ghost(leaf)) {
        return Err(InstallError::Conflict);
    }
    do_set(root, path, 0, leaf);
    Ok(())
}

/// Removes the entry at `path` below `root`, with everything beneath it,
/// as removing a file or a directory tree does on disk. Fails, changing
/// nothing, when no entry is there.
pub fn remove_at(root: &mut FsNode, path: &RelPath) -> (r: Result<(), InstallError>)
    requires
        old(root).wf(),
        path@.len() > 0,
    ensures
        r is Ok <==> lookup(*old(root), path@) is Some,
        r is Err ==> *final(root) == *old(root) && r == Err::<(), InstallError>(
            InstallError::Missing,
        ),
        final(root).wf(),
        final(root).kind() == old(root).kind(),
        r is Ok ==> lookup(*final(root), path@) is None,
        r is Ok ==> forall|q: PathSeq|
            !is_prefix_of(q, path@) && !is_prefix_of(path@, q) ==> lookup(*final(root), q)
                == lookup(*old(root), q),
        r is Ok ==> forall|q: PathSeq|
            is_prefix_of(q, path@) && q.len() < path@.len() ==> kind_at(*final(root), q)
                == kind_at(*old(root), q),
{
    proof {
        assert(path@.skip(0) =~= path@);
    }
    if !file_exists(root, path) {
        return Err(InstallError::Missing);
    }
    do_remove(root, path, 0);
    Ok(())
}

/// Descends a directory tree and yields a relative path for every
/// non-directory entry under it; directories themselves are never
/// yielded, and symlinks are leaves, not recursed into — which is also
/// why the descent terminates: the `decreases` measure is the tree
/// itself, and no link can re-enter it.
pub fn recurse_through_dir(dir: &FsNode) -> (r: Vec<RelPath>)
    requires
        dir.kind() == EntryKind::Dir,
    ensures
        paths_view(r@) == leaves(*dir),
{
    node_leaves(dir)
}

/// A node found inside a well-formed tree is itself well-formed.
pub proof fn lemma_lookup_wf(n: FsNode, p: PathSeq)
    requires
        n.wf(),
        lookup(n, p) is Some,
    ensures
        lookup(n, p)->Some_0.wf(),
    decreases p.len(),
{
    if p.len() > 0 {
        match n {
            FsNode::Dir { entries } => {
                let k = find_idx(entries@, p[0]);
                lemma_find_idx(entries@, p[0]);
                lemma_lookup_wf(entries@[k].node, p.drop_first());
            },
            _ => {},
        }
    }
}

/// Whether a leaf may be placed depends only on whether it is a regular
/// file, not on its contents.
pub proof fn lemma_can_place_kind(n: FsNode, p: PathSeq, l1: FsNode, l2: FsNode)
    requires
        l1 is File <==> l2 is File,
    ensures
        can_place(n, p, l1) == can_place(n, p, l2),
    decreases p.len(),
{
    if p.len() > 0 {
        match n {
            FsNode::Dir { entries } => {
                let k = find_idx(entries@, p[0]);
                if k != -1 && p.len() > 1 {
                    lemma_can_place_kind(entries@[k].node, p.drop_first(), l1, l2);
                }
            },
            _ => {},
        }
    }
}

/// Prefixes compose: a prefix of a prefix is a prefix.
pub proof fn lemma_prefix_trans(a: PathSeq, b: PathSeq, c: PathSeq)
    requires
        is_prefix_of(a, b),
        is_prefix_of(b, c),
    ensures
        is_prefix_of(a, c),
{
    assert forall|m: int| 0 <= m < a.len() implies a[m] == c.subrange(0, a.len() as int)[m] by {
        assert(a[m] == b.subrange(0, a.len() as int)[m]);
        assert(b[m] == c.subrange(0, b.len() as int)[m]);
    }
    assert(a =~= c.subrange(0, a.len() as int));
}

/// On the way to any present entry, every inner node is a directory.
pub proof fn lemma_lookup_ancestors(n: FsNode, p: PathSeq, k: int)
    requires
        lookup(n, p) is Some,
        0 <= k < p.len(),
    ensures
        lookup(n, p.subrange(0, k)) matches Some(m) && m is Dir,
    decreases p.len(),
{
    match n {
        FsNode::Dir { entries } => {
            if k == 0 {
                assert(p.subrange(0, 0) =~= Seq::<Seq<char>>::empty());
            } else {
                let j = find_idx(entries@, p[0]);
                lemma_find_idx(entries@, p[0]);
                assert(p.subrange(0, k)[0] == p[0]);
                assert(p.subrange(0, k).drop_first() =~= p.drop_first().subrange(0, k - 1));
                lemma_lookup_ancestors(entries@[j].node, p.drop_first(), k - 1);
            }
        },
        _ => {
            assert(p.len() > 0);
        },
    }
}

/// Placement characterized by lookups: a leaf may be placed at `p` iff
/// no inner node on the way is a non-directory, and the slot is empty —
/// or holds a non-directory that a regular-file copy may overwrite.
pub proof fn lemma_can_place_char(n: FsNode, p: PathSeq, leaf: FsNode)
    requires
        n is Dir,
        p.len() > 0,
    ensures
        can_place(n, p, leaf) <==> {
            &&& forall|k: int|
                1 <= k < p.len() ==> !(lookup(n, #[trigger] p.subrange(0, k)) matches Some(m)
                    && !(m is Dir))
            &&& (lookup(n, p) is None || (leaf is File && !(lookup(n, p)->Some_0 is Dir)))
        },
    decreases p.len(),
{
    let es = n->Dir_entries@;
    let j = find_idx(es, p[0]);
    lemma_find_idx(es, p[0]);
    assert(p.subrange(0, p.len() as int) =~= p);
    if j == -1 {
        assert(can_place(n, p, leaf));
        assert(lookup(n, p) is None);
        assert forall|k: int|
            1 <= k < p.len() implies !(lookup(n, #[trigger] p.subrange(0, k)) matches Some(m) && !(
            m is Dir)) by {
            assert(p.subrange(0, k)[0] == p[0]);
            assert(lookup(n, p.subrange(0, k)) is None);
        }
    } else {
        let child = es[j].node;
        if p.len() == 1 {
            assert(lookup(n, p) == Some(child)) by {
                assert(p.drop_first() =~= Seq::<Seq<char>>::empty());
            }
        } else {
            match child {
                FsNode::Dir { .. } => {
                    lemma_can_place_char(child, p.drop_first(), leaf);
                    assert(lookup(n, p) == lookup(child, p.drop_first()));
                    assert(p.subrange(0, 1)[0] == p[0]);
                    assert(p.subrange(0, 1).drop_first() =~= Seq::<Seq<char>>::empty());
                    assert(find_idx(es, p.subrange(0, 1)[0]) == j);
                    assert(lookup(n, p.subrange(0, 1)) == lookup(
                        child,
                        p.subrange(0, 1).drop_first(),
                    ));
                    assert(lookup(child, Seq::<Seq<char>>::empty()) == Some(child));
                    assert(lookup(n, p.subrange(0, 1)) == Some(child));
                    assert forall|k: int|
                        2 <= k < p.len() implies lookup(n, #[trigger] p.subrange(0, k)) == lookup(
                        child,
                        p.drop_first().subrange(0, k - 1),
                    ) by {
                        assert(p.subrange(0, k)[0] == p[0]);
                        assert(p.subrange(0, k).drop_first() =~= p.drop_first().subrange(0, k - 1));
                    }
                    if can_place(n, p, leaf) {
                        assert forall|k: int|
                            1 <= k < p.len() implies !(lookup(
                            n,
                            #[trigger] p.subrange(0, k),
                        ) matches Some(m) && !(m is Dir)) by {
                            if k >= 2 {
                                assert(!(lookup(child, p.drop_first().subrange(0, k - 1))
                                    matches Some(m) && !(m is Dir)));
                            }
                        }
                    } else {
                        if (forall|k: int|
                            1 <= k < p.len() ==> !(lookup(n, #[trigger] p.subrange(0, k))
                                matches Some(m) && !(m is Dir))) {
                            assert forall|k: int|
                                1 <= k < p.drop_first().len() implies !(lookup(
                                child,
                                #[trigger] p.drop_first().subrange(0, k),
                            ) matches Some(m) && !(m is Dir)) by {
                                assert(p.drop_first().subrange(0, k) =~= p.subrange(
                                    0,
                                    k + 1,
                                ).drop_first());
                                assert(!(lookup(n, p.subrange(0, k + 1)) matches Some(m) && !(m
                                    is Dir)));
                            }
                        }
                    }
                },
                _ => {
                    assert(can_place(n, p, leaf) == can_place(child, p.drop_first(), leaf));
                    assert(!can_place(child, p.drop_first(), leaf));
                    assert(p.subrange(0, 1)[0] == p[0]);
                    assert(p.subrange(0, 1).drop_first() =~= Seq::<Seq<char>>::empty());
                    assert(find_idx(es, p.subrange(0, 1)[0]) == j);
                    assert(lookup(n, p.subrange(0, 1)) == lookup(
                        child,
                        p.subrange(0, 1).drop_first(),
                    ));
                    assert(lookup(child, Seq::<Seq<char>>::empty()) == Some(child));
                    assert(lookup(n, p.subrange(0, 1)) == Some(child));
                },
            }
        }
    }
}

} // verus!
