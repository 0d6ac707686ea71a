//! The equivalence checker: decides whether a live entry and its backup
//! counterpart are "the same", with one rule per entry kind. Equivalence
//! is the sole authority for deleting a live entry.
//!
//! - Regular files are equivalent iff their byte contents are identical.
//! - Symlinks are equivalent iff their raw target strings are identical;
//!   targets are never resolved, so `foo/bar` and `/foo/bar` differ even
//!   when they name the same real file.
//! - Directories are equivalent iff every leaf enumerated on the live
//!   side has an equivalent counterpart at the same relative path on the
//!   backup side. Entries present only on the backup side are not
//!   examined: enumeration always starts from the live side.
//! - A pair of entries of unknown kind, or a live leaf whose counterpart
//!   is missing, cannot be compared at all: the whole run aborts.

use vstd::prelude::*;
use crate::EntryKind;
use crate::InstallError;
use crate::fs_model::{
    FsNode, DirEntry, PathSeq, lookup, leaves, leaves_of, prepend_all, find_idx, lemma_find_idx,
    is_prefix_of, lemma_prefix_diff, lemma_prefix_drop, paths_view, recurse_through_dir,
    lookup_node,
};
use crate::paths::RelPath;

verus! {

/// What a comparison of two corresponding leaves grants: equal kinds, and
/// equal contents or targets. Two entries of unknown kind never reach
/// this point (the comparison aborts first).
pub open spec fn leaf_matches(a: FsNode, b: FsNode) -> bool {
    match (a, b) {
        (FsNode::File { contents: ca }, FsNode::File { contents: cb }) => ca@ == cb@,
        (FsNode::Symlink { target: ta }, FsNode::Symlink { target: tb }) => ta@ == tb@,
        (FsNode::Other, FsNode::Other) => true,
        (FsNode::Dir { .. }, FsNode::Dir { .. }) => true,
        _ => false,
    }
}

/// Kind-specific sameness of a live entry `a` and its backup counterpart
/// `b`: equal kinds, and every leaf of `a` has a matching entry at the
/// same relative path under `b`.
pub open spec fn equiv(a: FsNode, b: FsNode) -> bool {
    &&& a.kind() == b.kind()
    &&& forall|p: PathSeq| #[trigger]
        leaves(a).contains(p) ==> lookup(b, p) is Some && leaf_matches(
            lookup(a, p)->Some_0,
            lookup(b, p)->Some_0,
        )
}

/// When comparing `a` against `b` aborts the run instead of returning an
/// answer: both are of unknown kind, or some live leaf has no counterpart
/// to compare against, or a live leaf and its counterpart are both of
/// unknown kind.
pub open spec fn compare_aborts(a: FsNode, b: FsNode) -> bool {
    &&& a.kind() == b.kind()
    &&& match a {
        FsNode::Other => true,
        FsNode::Dir { .. } => exists|p: PathSeq| #[trigger]
            leaves(a).contains(p) && (lookup(b, p) is None || (lookup(a, p)->Some_0 is Other
                && lookup(b, p)->Some_0 is Other)),
        _ => false,
    }
}

/// Every path in `leaves_of(es)` starts with the name of the child it
/// came from, and its remainder is a leaf of that child.
proof fn lemma_leaves_of_member(es: Seq<DirEntry>, p: PathSeq)
    requires
        leaves_of(es).contains(p),
    ensures
        exists|k: int| #![all_triggers]
            0 <= k < es.len() && p.len() > 0 && p[0] == es[k].name@ && leaves(
                es[k].node,
            ).contains(p.drop_first()),
    decreases es.len(),
{
    let pre = prepend_all(es[0].name@, leaves(es[0].node));
    let idx = choose|i: int| 0 <= i < leaves_of(es).len() && leaves_of(es)[i] == p;
    if idx < pre.len() {
        let sub = leaves(es[0].node)[idx];
        assert(p == seq![es[0].name@] + sub);
        assert(p.drop_first() =~= sub);
        assert(leaves(es[0].node).contains(sub));
        assert(0 <= 0 < es.len() && p.len() > 0 && p[0] == es[0].name@ && leaves(
            es[0].node,
        ).contains(p.drop_first()));
    } else {
        assert(leaves_of(es.drop_first())[idx - pre.len()] == p);
        assert(leaves_of(es.drop_first()).contains(p));
        lemma_leaves_of_member(es.drop_first(), p);
        let k0 = choose|k: int| #![all_triggers]
            0 <= k < es.drop_first().len() && p.len() > 0 && p[0] == es.drop_first()[k].name@
                && leaves(es.drop_first()[k].node).contains(p.drop_first());
        assert(es.drop_first()[k0] == es[k0 + 1]);
        assert(0 <= k0 + 1 < es.len() && p.len() > 0 && p[0] == es[k0 + 1].name@ && leaves(
            es[k0 + 1].node,
        ).contains(p.drop_first()));
    }
}

/// Conversely, a leaf of the `k`-th child, with that child's name put in
/// front, is a leaf of the directory.
proof fn lemma_leaves_of_intro(es: Seq<DirEntry>, k: int, sub: PathSeq)
    requires
        0 <= k < es.len(),
        leaves(es[k].node).contains(sub),
    ensures
        leaves_of(es).contains(seq![es[k].name@] + sub),
    decreases es.len(),
{
    let pre = prepend_all(es[0].name@, leaves(es[0].node));
    if k == 0 {
        let i = choose|i: int| 0 <= i < leaves(es[0].node).len() && leaves(es[0].node)[i] == sub;
        assert(pre[i] == seq![es[0].name@] + sub);
        assert(leaves_of(es)[i] == seq![es[0].name@] + sub);
    } else {
        lemma_leaves_of_intro(es.drop_first(), k - 1, sub);
        assert(es.drop_first()[k - 1] == es[k]);
        let i = choose|i: int|
            0 <= i < leaves_of(es.drop_first()).len() && leaves_of(es.drop_first())[i] == seq![
                es[k].name@,
            ] + sub;
        assert(leaves_of(es)[pre.len() + i] == seq![es[k].name@] + sub);
    }
}

/// In a well-formed tree, every enumerated leaf path leads to an entry,
/// that entry is not a directory, and under a directory no leaf path is
/// empty.
pub proof fn lemma_leaves_lookup(n: FsNode)
    requires
        n.wf(),
    ensures
        forall|p: PathSeq| #[trigger]
            leaves(n).contains(p) ==> lookup(n, p) is Some && !(lookup(n, p)->Some_0 is Dir),
        n is Dir ==> forall|p: PathSeq| #[trigger] leaves(n).contains(p) ==> p.len() > 0,
    decreases n,
{
    match n {
        FsNode::Dir { entries } => {
            let es = entries@;
            assert forall|p: PathSeq| #[trigger] leaves(n).contains(p) implies lookup(n, p) is Some
                && !(lookup(n, p)->Some_0 is Dir) && p.len() > 0 by {
                lemma_leaves_of_member(es, p);
                let k = choose|k: int| #![all_triggers]
                    0 <= k < es.len() && p.len() > 0 && p[0] == es[k].name@ && leaves(
                        es[k].node,
                    ).contains(p.drop_first());
                crate::fs_model::lemma_find_idx_of_member(es, k);
                assert(find_idx(es, p[0]) == k);
                assert(lookup(n, p) == lookup(es[k].node, p.drop_first()));
                assert(es[k].node.wf());
                lemma_leaves_lookup(es[k].node);
            }
        },
        _ => {
            assert forall|p: PathSeq| #[trigger] leaves(n).contains(p) implies lookup(n, p) is Some
                && !(lookup(n, p)->Some_0 is Dir) by {
                assert(leaves(n)[0] == Seq::<Seq<char>>::empty());
                assert(p == Seq::<Seq<char>>::empty());
            }
        },
    }
}

/// In a well-formed tree, no leaf path is a proper prefix of another:
/// the enumerated paths are mutually independent locations.
pub proof fn lemma_leaves_prefix_free(n: FsNode)
    requires
        n.wf(),
    ensures
        forall|p1: PathSeq, p2: PathSeq|
            leaves(n).contains(p1) && leaves(n).contains(p2) && p1 != p2 ==> !is_prefix_of(p1, p2),
    decreases n,
{
    match n {
        FsNode::Dir { entries } => {
            let es = entries@;
            assert forall|p1: PathSeq, p2: PathSeq|
                leaves(n).contains(p1) && leaves(n).contains(p2) && p1 != p2 implies !is_prefix_of(
                p1,
                p2,
            ) by {
                lemma_leaves_of_member(es, p1);
                lemma_leaves_of_member(es, p2);
                let k1 = choose|k: int| #![all_triggers]
                    0 <= k < es.len() && p1.len() > 0 && p1[0] == es[k].name@ && leaves(
                        es[k].node,
                    ).contains(p1.drop_first());
                let k2 = choose|k: int| #![all_triggers]
                    0 <= k < es.len() && p2.len() > 0 && p2[0] == es[k].name@ && leaves(
                        es[k].node,
                    ).contains(p2.drop_first());
                if k1 != k2 {
                    assert(es[k1].name@ != es[k2].name@);
                    lemma_prefix_diff(p1, p2);
                } else {
                    let child = es[k1].node;
                    assert(child.wf());
                    if p1.drop_first() == p2.drop_first() {
                        assert(0 <= k1 < es.len() && p1.len() > 0 && p1[0] == es[k1].name@);
                        assert(0 <= k2 < es.len() && p2.len() > 0 && p2[0] == es[k2].name@);
                        assert(p1.drop_first().len() == p1.len() - 1);
                        assert(p2.drop_first().len() == p2.len() - 1);
                        assert(p1.len() == p2.len());
                        assert forall|m: int| 0 <= m < p1.len() implies p1[m] == p2[m] by {
                            if m > 0 {
                                assert(p1.drop_first()[m - 1] == p2.drop_first()[m - 1]);
                            }
                        }
                        assert(p1 =~= p2);
                    } else {
                        match child {
                            FsNode::Dir { .. } => {
                                lemma_leaves_prefix_free(child);
                                assert(!is_prefix_of(p1.drop_first(), p2.drop_first()));
                                lemma_prefix_drop(p1, p2);
                            },
                            _ => {
                                assert(leaves(child)[0] == Seq::<Seq<char>>::empty());
                                assert(p1.drop_first() == Seq::<Seq<char>>::empty());
                                assert(p2.drop_first() == Seq::<Seq<char>>::empty());
                            },
                        }
                    }
                }
            }
        },
        _ => {
            assert forall|p1: PathSeq, p2: PathSeq|
                leaves(n).contains(p1) && leaves(n).contains(p2) && p1 != p2 implies !is_prefix_of(
                p1,
                p2,
            ) by {
                assert(leaves(n)[0] == Seq::<Seq<char>>::empty());
                assert(p1 == Seq::<Seq<char>>::empty());
                assert(p2 == Seq::<Seq<char>>::empty());
            }
        },
    }
}

/// Equivalence is reflexive on every well-formed tree: any entry is
/// equivalent to an identical copy of itself. This is what makes a
/// freshly written backup pass verification.
pub proof fn lemma_equiv_reflexive(n: FsNode)
    requires
        n.wf(),
    ensures
        equiv(n, n),
{
    lemma_leaves_lookup(n);
}

/// Two regular files are equivalent exactly when their byte contents are
/// identical.
pub proof fn lemma_file_equivalence(a: FsNode, b: FsNode)
    requires
        a is File,
        b is File,
    ensures
        equiv(a, b) <==> a->File_contents@ == b->File_contents@,
{
    assert(leaves(a)[0] == Seq::<Seq<char>>::empty());
    assert(leaves(a).contains(Seq::<Seq<char>>::empty()));
    assert forall|p: PathSeq| #[trigger] leaves(a).contains(p) implies p
        == Seq::<Seq<char>>::empty() by {}
}

/// Two symlinks are equivalent exactly when their raw target strings are
/// identical: the comparison is structural, never semantic.
pub proof fn lemma_symlink_equivalence(a: FsNode, b: FsNode)
    requires
        a is Symlink,
        b is Symlink,
    ensures
        equiv(a, b) <==> a->Symlink_target@ == b->Symlink_target@,
{
    assert(leaves(a)[0] == Seq::<Seq<char>>::empty());
    assert(leaves(a).contains(Seq::<Seq<char>>::empty()));
    assert forall|p: PathSeq| #[trigger] leaves(a).contains(p) implies p
        == Seq::<Seq<char>>::empty() by {}
}

/// Entries of different kinds are never equivalent, whatever their
/// contents.
pub proof fn lemma_kind_mismatch_not_equiv(a: FsNode, b: FsNode)
    requires
        a.kind() != b.kind(),
    ensures
        !equiv(a, b),
{
}

/// Byte-for-byte comparison of two content vectors.
fn bytes_equal(a: &Vec<u8>, b: &Vec<u8>) -> (r: bool)
    ensures
        r == (a@ == b@),
{
    if a.len() != b.len() {
        return false;
    }
    let mut i: usize = 0;
    while i < a.len()
        invariant
            i <= a.len(),
            a@.len() == b@.len(),
            forall|j: int| 0 <= j < i ==> a@[j] == b@[j],
        decreases a.len() - i,
    {
        if a[i] != b[i] {
            return false;
        }
        i += 1;
    }
    proof {
        assert(a@ =~= b@);
    }
    true
}

/// Whether two regular files hold identical bytes. The comparison of the
/// on-disk originals reads both files in full; here the contents are in
/// the nodes.
pub fn files_equal_by_contents(a: &FsNode, b: &FsNode) -> (r: bool)
    requires
        a.kind() == EntryKind::File,
        b.kind() == EntryKind::File,
    ensures
        r == equiv(*a, *b),
{
    proof {
        lemma_file_equivalence(*a, *b);
    }
    match (a, b) {
        (FsNode::File { contents: ca }, FsNode::File { contents: cb }) => bytes_equal(ca, cb),
        _ => false,
    }
}

/// Whether two strings hold identical characters.
fn strings_equal(a: &String, b: &String) -> (r: bool)
    ensures
        r == (a@ == b@),
{
    let r = a.eq(b);
    r
}

/// Whether two symlinks point at the byte-identical raw target string;
/// no normalization, no resolving.
pub fn symlinks_equal(a: &FsNode, b: &FsNode) -> (r: bool)
    requires
        a.kind() == EntryKind::Symlink,
        b.kind() == EntryKind::Symlink,
    ensures
        r == equiv(*a, *b),
{
    proof {
        lemma_symlink_equivalence(*a, *b);
    }
    match (a, b) {
        (FsNode::Symlink { target: ta }, FsNode::Symlink { target: tb }) => strings_equal(ta, tb),
        _ => false,
    }
}

/// Decides equivalence of a live entry `a` and its backup counterpart
/// `b`. `Err` is the fail-fast abort: a pair of unknown kind was met, or
/// a live leaf has no counterpart under `b` to compare against.
pub fn files_equal(a: &FsNode, b: &FsNode) -> (r: Result<bool, InstallError>)
    requires
        a.wf(),
        b.wf(),
    ensures
        match r {
            Ok(eq) => !compare_aborts(*a, *b) && eq == equiv(*a, *b),
            Err(e) => compare_aborts(*a, *b) && (e == InstallError::Missing || e
                == InstallError::UnknownKind),
        },
{
    let ka = a.entry_kind();
    let kb = b.entry_kind();
    if ka != kb {
        proof {
            lemma_kind_mismatch_not_equiv(*a, *b);
        }
        return Ok(false);
    }
    match ka {
        EntryKind::File => Ok(files_equal_by_contents(a, b)),
        EntryKind::Symlink => Ok(symlinks_equal(a, b)),
        EntryKind::Dir => {
            proof {
                lemma_leaves_lookup(*a);
            }
            let ps = recurse_through_dir(a);
            let ghost lvs = leaves(*a);
            let mut all = true;
            let mut i: usize = 0;
            while i < ps.len()
                invariant
                    a.wf(),
                    b.wf(),
                    a.kind() == EntryKind::Dir,
                    b.kind() == EntryKind::Dir,
                    i <= ps.len(),
                    paths_view(ps@) == lvs,
                    lvs == leaves(*a),
                    forall|p: PathSeq| #[trigger]
                        lvs.contains(p) ==> lookup(*a, p) is Some && !(lookup(*a, p)->Some_0
                            is Dir),
                    forall|j: int|
                        0 <= j < i ==> (#[trigger] lookup(*b, lvs[j])) is Some && !(lookup(
                            *a,
                            lvs[j],
                        )->Some_0 is Other && lookup(*b, lvs[j])->Some_0 is Other),
                    all ==> forall|j: int|
                        0 <= j < i ==> #[trigger] leaf_matches(
                            lookup(*a, lvs[j])->Some_0,
                            lookup(*b, lvs[j])->Some_0,
                        ),
                    !all ==> exists|j: int|
                        0 <= j < lvs.len() && !(#[trigger] leaf_matches(
                            lookup(*a, lvs[j])->Some_0,
                            lookup(*b, lvs[j])->Some_0,
                        )),
                decreases ps.len() - i,
            {
                let p = &ps[i];
                let ghost pj = lvs[i as int];
                proof {
                    assert(pj == p@);
                    assert(lvs.contains(p@));
                }
                let la = match lookup_node(a, p) {
                    Some(x) => x,
                    None => {
                        proof {
                            assert(false);
                        }
                        a
                    },
                };
                let lb = match lookup_node(b, p) {
                    Some(x) => x,
                    None => {
                        proof {
                            assert(leaves(*a).contains(p@) && lookup(*b, p@) is None);
                        }
                        return Err(InstallError::Missing);
                    },
                };
                let this_match: bool;
                match (la, lb) {
                    (FsNode::File { contents: ca }, FsNode::File { contents: cb }) => {
                        this_match = bytes_equal(ca, cb);
                    },
                    (FsNode::Symlink { target: ta }, FsNode::Symlink { target: tb }) => {
                        this_match = strings_equal(ta, tb);
                    },
                    (FsNode::Other, FsNode::Other) => {
                        proof {
                            assert(leaves(*a).contains(p@) && lookup(*a, p@)->Some_0 is Other
                                && lookup(*b, p@)->Some_0 is Other);
                        }
                        return Err(InstallError::UnknownKind);
                    },
                    _ => {
                        this_match = false;
                    },
                }
                proof {
                    assert(lookup(*a, pj) == Some(*la));
                    assert(lookup(*b, pj) == Some(*lb));
                    assert(this_match == leaf_matches(*la, *lb));
                }
                if !this_match {
                    all = false;
                }
                proof {
                    if all {
                        assert forall|j: int| 0 <= j < i + 1 implies #[trigger] leaf_matches(
                            lookup(*a, lvs[j])->Some_0,
                            lookup(*b, lvs[j])->Some_0,
                        ) by {}
                    } else if this_match {
                    } else {
                        assert(0 <= i < lvs.len() && !(leaf_matches(
                            lookup(*a, lvs[i as int])->Some_0,
                            lookup(*b, lvs[i as int])->Some_0,
                        )));
                    }
                }
                i += 1;
            }
            proof {
                assert(ps@.len() == lvs.len());
                if compare_aborts(*a, *b) {
                    let p = choose|p: PathSeq| #[trigger]
                        leaves(*a).contains(p) && (lookup(*b, p) is None || (lookup(
                            *a,
                            p,
                        )->Some_0 is Other && lookup(*b, p)->Some_0 is Other));
                    let j = choose|j: int| 0 <= j < lvs.len() && lvs[j] == p;
                    assert(lookup(*b, lvs[j]) is Some && !(lookup(*a, lvs[j])->Some_0 is Other
                        && lookup(*b, lvs[j])->Some_0 is Other));
                    assert(false);
                }
                if all {
                    assert forall|p: PathSeq| #[trigger] leaves(*a).contains(p) implies lookup(
                        *b,
                        p,
                    ) is Some && leaf_matches(lookup(*a, p)->Some_0, lookup(*b, p)->Some_0) by {
                        let j = choose|j: int| 0 <= j < lvs.len() && lvs[j] == p;
                        assert(leaf_matches(lookup(*a, lvs[j])->Some_0, lookup(*b, lvs[j])->Some_0));
                    }
                    assert(equiv(*a, *b));
                } else {
                    let j = choose|j: int|
                        0 <= j < lvs.len() && !(#[trigger] leaf_matches(
                            lookup(*a, lvs[j])->Some_0,
                            lookup(*b, lvs[j])->Some_0,
                        ));
                    assert(leaves(*a).contains(lvs[j]));
                    assert(!equiv(*a, *b));
                }
            }
            Ok(all)
        },
        _ => {
            // both entries are of a kind the engine cannot compare
            proof {
                assert(compare_aborts(*a, *b));
            }
            Err(InstallError::UnknownKind)
        },
    }
}

/// The leaves of distinct-named children, concatenated, are distinct.
proof fn lemma_leaves_of_distinct(es: Seq<DirEntry>)
    requires
        forall|i1: int, i2: int| 0 <= i1 < i2 < es.len() ==> es[i1].name@ != es[i2].name@,
        forall|k: int| #![trigger es[k]] 0 <= k < es.len() ==> es[k].node.wf(),
    ensures
        forall|i: int, j: int|
            0 <= i < j < leaves_of(es).len() ==> leaves_of(es)[i] != leaves_of(es)[j],
    decreases es, 0nat,
{
    if es.len() > 0 {
        let pre = prepend_all(es[0].name@, leaves(es[0].node));
        let rest = leaves_of(es.drop_first());
        lemma_leaves_distinct(es[0].node);
        assert forall|i1: int, i2: int|
            0 <= i1 < i2 < es.drop_first().len() implies es.drop_first()[i1].name@
            != es.drop_first()[i2].name@ by {
            assert(es.drop_first()[i1] == es[i1 + 1]);
            assert(es.drop_first()[i2] == es[i2 + 1]);
        }
        assert forall|k: int| #![trigger es.drop_first()[k]]
            0 <= k < es.drop_first().len() implies es.drop_first()[k].node.wf() by {
            assert(es.drop_first()[k] == es[k + 1]);
        }
        lemma_leaves_of_distinct(es.drop_first());
        assert forall|i: int, j: int| 0 <= i < j < leaves_of(es).len() implies leaves_of(es)[i]
            != leaves_of(es)[j] by {
            if j < pre.len() {
                let si = leaves(es[0].node)[i];
                let sj = leaves(es[0].node)[j];
                assert(pre[i] == seq![es[0].name@] + si);
                assert(pre[j] == seq![es[0].name@] + sj);
                assert(si != sj);
                if pre[i] == pre[j] {
                    assert((seq![es[0].name@] + si).drop_first() =~= si);
                    assert((seq![es[0].name@] + sj).drop_first() =~= sj);
                    assert(si == sj);
                }
            } else if i < pre.len() {
                let si = leaves(es[0].node)[i];
                assert(pre[i] == seq![es[0].name@] + si);
                assert(leaves_of(es)[i][0] == es[0].name@);
                let e2 = rest[j - pre.len()];
                assert(rest.contains(e2));
                lemma_leaves_of_member(es.drop_first(), e2);
                let k = choose|k: int| #![all_triggers]
                    0 <= k < es.drop_first().len() && e2.len() > 0 && e2[0]
                        == es.drop_first()[k].name@ && leaves(es.drop_first()[k].node).contains(
                        e2.drop_first(),
                    );
                assert(es.drop_first()[k] == es[k + 1]);
                assert(e2[0] != es[0].name@);
            } else {
                assert(leaves_of(es)[i] == rest[i - pre.len()]);
                assert(leaves_of(es)[j] == rest[j - pre.len()]);
            }
        }
    }
}

/// In a well-formed tree, the enumerated leaf paths are pairwise
/// distinct: together with prefix-freedom, a tree of F leaf files
/// yields exactly F distinct relative paths.
pub proof fn lemma_leaves_distinct(n: FsNode)
    requires
        n.wf(),
    ensures
        forall|i: int, j: int| 0 <= i < j < leaves(n).len() ==> leaves(n)[i] != leaves(n)[j],
    decreases n, 1nat,
{
    match n {
        FsNode::Dir { entries } => {
            lemma_leaves_of_distinct(entries@);
            assert(leaves(n) == leaves_of(entries@));
        },
        _ => {},
    }
}

} // verus!
