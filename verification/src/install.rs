//! The backup and safe-replace engine.
//!
//! Reconciliation works on the in-memory model of the home tree: first
//! every managed file that already exists in the home tree is copied into
//! a fresh backup tree, then each managed path is replaced by a symlink
//! into the repository — but an existing entry is deleted only after it
//! has been proven equivalent to its backup copy. A failed proof aborts
//! the whole run with the home tree untouched at that path.
//!
//! Checking out repository submodules and running install scripts are
//! outside work that the shell around the library performs; the engine
//! here decides everything that touches the home and backup trees.

use vstd::prelude::*;
use vstd::string::{StringExecFns, StrSliceExecFns, StringSliceAdditionalSpecFns};
use crate::EntryKind;
use crate::InstallError;
use crate::fs_model::{
    FsNode, DirEntry, PathSeq, lookup, leaves, is_prefix_of, lemma_prefix_diff, lemma_prefix_drop,
    paths_view, recurse_through_dir, lookup_node, file_exists, get_file_type, set_at, remove_at,
    can_place, lemma_lookup_wf, lemma_can_place_kind, lemma_lookup_append, find_idx, kind_at,
    lemma_prefix_trans, lemma_lookup_ancestors, lemma_can_place_char,
};
use crate::equiv::{
    equiv, compare_aborts, files_equal, lemma_file_equivalence, lemma_symlink_equivalence,
    lemma_leaves_lookup, lemma_leaves_prefix_free, lemma_leaves_distinct,
};
use crate::paths::{
    RelPath, HomePath, BackupPath, DotfilesPath, SubmodulesPath, HomeFile, Dotfile, abs_path_of,
};

verus! {

/// The well-known name of the submodule link entry in the home directory.
pub open spec fn home_submodule_name() -> Seq<char> {
    ".dotfiles-submodules"@
}

/// The path of the submodule link entry, relative to the home root.
pub open spec fn submodule_rel_path() -> PathSeq {
    seq![home_submodule_name()]
}

/// The name of the explanatory note written into a fresh backup
/// directory.
pub open spec fn readme_name() -> Seq<char> {
    "README.md"@
}

/// The submodule link entry's relative path, as a value.
pub fn home_submodule_rel() -> (r: RelPath)
    ensures
        r@ == submodule_rel_path(),
{
    let mut c: Vec<String> = Vec::new();
    c.push(String::from_str(".dotfiles-submodules"));
    let r = RelPath { components: c };
    proof {
        assert(r@ =~= submodule_rel_path());
    }
    r
}

/// The home-anchored location of the submodule link entry.
pub fn make_home_submodule_dir(home_dir: &HomePath) -> (r: HomeFile)
    ensures
        r@ == (home_dir@, submodule_rel_path()),
{
    home_dir.with_rel_file(&home_submodule_rel())
}

/// A copy of a byte vector.
fn clone_bytes(v: &Vec<u8>) -> (r: Vec<u8>)
    ensures
        r@ == v@,
{
    let mut r: Vec<u8> = Vec::new();
    let mut i: usize = 0;
    while i < v.len()
        invariant
            i <= v.len(),
            r@ == v@.subrange(0, i as int),
        decreases v.len() - i,
    {
        r.push(v[i]);
        assert(r@ =~= v@.subrange(0, i + 1));
        i += 1;
    }
    assert(r@ =~= v@);
    r
}

/// A faithful copy of a file or symlink: byte-for-byte contents, or the
/// identical raw target string.
fn copy_leaf(m: &FsNode) -> (r: FsNode)
    requires
        m is File || m is Symlink,
    ensures
        r.kind() == m.kind(),
        !(r is Dir),
        r.wf(),
        equiv(*m, r),
        m is File <==> r is File,
{
    match m {
        FsNode::File { contents } => {
            let r = FsNode::File { contents: clone_bytes(contents) };
            proof {
                lemma_file_equivalence(*m, r);
            }
            r
        },
        FsNode::Symlink { target } => {
            let r = FsNode::Symlink { target: target.clone() };
            proof {
                lemma_symlink_equivalence(*m, r);
            }
            r
        },
        _ => {
            proof {
                assert(false);
            }
            FsNode::Other
        },
    }
}

/// One disk operation for the shell around the library to perform, in
/// the order emitted. The engine decides every operation on the model;
/// the shell only replays them against the real filesystem.
pub enum Action {
    /// Create a single directory; creation fails if it already exists,
    /// which is the collision guard for the backup root.
    MakeDir { path: String },
    /// Create a directory together with its missing ancestors.
    MakeDirAll { path: String },
    /// Write a file holding the given bytes.
    WriteFile { path: String, contents: Vec<u8> },
    /// Copy a regular file byte-for-byte.
    CopyFile { from: String, to: String },
    /// Re-create the symlink at `from` as `to`, with the identical raw
    /// target string.
    CopySymlink { from: String, to: String },
    /// Remove a file or a symlink.
    RemoveFile { path: String },
    /// Remove a directory with everything beneath it.
    RemoveDirAll { path: String },
    /// Create a symlink at `at` whose target is `target`.
    MakeSymlink { target: String, at: String },
}

/// The new action list begins with the old one: the engine only ever
/// appends to the plan.
pub open spec fn actions_extended(a0: Seq<Action>, a1: Seq<Action>) -> bool {
    a0.len() <= a1.len() && a0 == a1.subrange(0, a0.len() as int)
}

/// Whether an action deletes something from the disk.
pub open spec fn is_removal(a: Action) -> bool {
    a is RemoveFile || a is RemoveDirAll
}

/// The absolute path a removal action targets.
pub open spec fn removal_path(a: Action) -> Seq<char> {
    match a {
        Action::RemoveFile { path } => path@,
        Action::RemoveDirAll { path } => path@,
        _ => Seq::empty(),
    }
}

/// Plans only grow: extension composes.
proof fn lemma_actions_extended_trans(a0: Seq<Action>, a1: Seq<Action>, a2: Seq<Action>)
    requires
        actions_extended(a0, a1),
        actions_extended(a1, a2),
    ensures
        actions_extended(a0, a2),
{
    assert forall|i: int| 0 <= i < a0.len() implies a0[i] == a2.subrange(0, a0.len() as int)[i] by {
        assert(a0[i] == a1.subrange(0, a0.len() as int)[i]);
        assert(a1[i] == a2.subrange(0, a1.len() as int)[i]);
    }
    assert(a0 =~= a2.subrange(0, a0.len() as int));
}

/// An entry of the shorter plan reads the same in the longer one.
proof fn lemma_actions_extended_index(a1: Seq<Action>, a2: Seq<Action>, k: int)
    requires
        actions_extended(a1, a2),
        0 <= k < a1.len(),
    ensures
        a2[k] == a1[k],
{
    assert(a1[k] == a2.subrange(0, a1.len() as int)[k]);
}

/// The fixed text of the note written into every fresh backup directory.
pub open spec fn backup_note() -> Seq<u8> {
    "This directory holds backups of the dotfiles that the installer \
replaced with symlinks into the repository. Nothing in here is deleted \
automatically; remove it yourself once you are sure you no longer need it.".spec_bytes()
}

/// Copies one managed file from the home tree into the backup tree. A
/// path with nothing at it is skipped — there is nothing to protect. A
/// symlink is copied by re-creating a symlink with the identical raw
/// target, a regular file by byte-for-byte duplication; a directory or
/// an entry of unknown kind at a managed path cannot be copied and
/// aborts.
pub fn backup_file(
    relative_file: &RelPath,
    home_dir: &HomePath,
    home: &FsNode,
    backup_dir: &BackupPath,
    backup: &mut FsNode,
    actions: &mut Vec<Action>,
) -> (r: Result<(), InstallError>)
    requires
        home.wf(),
        old(backup).wf(),
        relative_file@.len() > 0,
    ensures
        final(backup).wf(),
        final(backup).kind() == old(backup).kind(),
        r is Err ==> *final(backup) == *old(backup),
        r is Err ==> final(actions)@ == old(actions)@,
        actions_extended(old(actions)@, final(actions)@),
        lookup(*home, relative_file@) is None ==> r is Ok && *final(backup) == *old(backup)
            && final(actions)@ == old(actions)@,
        (lookup(*home, relative_file@) matches Some(m) && (m is File || m is Symlink)) ==> {
            let m = lookup(*home, relative_file@)->Some_0;
            &&& (r is Ok <==> can_place(*old(backup), relative_file@, m))
            &&& (r is Ok ==> lookup(*final(backup), relative_file@) is Some && equiv(
                m,
                lookup(*final(backup), relative_file@)->Some_0,
            ) && lookup(*final(backup), relative_file@)->Some_0.kind() == m.kind())
            &&& (r is Ok ==> forall|q: PathSeq|
                !is_prefix_of(q, relative_file@) && !is_prefix_of(relative_file@, q)
                    ==> lookup(*final(backup), q) == lookup(*old(backup), q))
            &&& (r is Ok ==> forall|q: PathSeq|
                is_prefix_of(q, relative_file@) && q.len() < relative_file@.len() ==> kind_at(
                    *final(backup),
                    q,
                ) == EntryKind::Dir)
            &&& (forall|k: int|
                old(actions)@.len() <= k && k < final(actions)@.len() ==> (match #[trigger] final(
                    actions)@[k] {
                    Action::MakeDirAll { path } => path@ == abs_path_of(
                        backup_dir@,
                        relative_file@.drop_last(),
                    ),
                    Action::CopyFile { from, to } => m is File && from@ == abs_path_of(
                        home_dir@,
                        relative_file@,
                    ) && to@ == abs_path_of(backup_dir@, relative_file@),
                    Action::CopySymlink { from, to } => m is Symlink && from@ == abs_path_of(
                        home_dir@,
                        relative_file@,
                    ) && to@ == abs_path_of(backup_dir@, relative_file@),
                    _ => false,
                }))
        },
        (lookup(*home, relative_file@) matches Some(m) && m is Dir) ==> r is Err,
        (lookup(*home, relative_file@) matches Some(m) && m is Other) ==> r is Err,
{
    let hn = match lookup_node(home, relative_file) {
        None => {
            proof {
                assert(actions@ =~= actions@.subrange(0, actions@.len() as int));
            }
            return Ok(());
        },
        Some(x) => x,
    };
    let mut parent_dir_action: Option<Action> = None;
    match relative_file.parent() {
        Some(parent) => {
            if parent.components.len() > 0 && !file_exists(&*backup, &parent) {
                parent_dir_action = Some(
                    Action::MakeDirAll { path: backup_dir.with_rel_file(&parent).to_path_buf() },
                );
            }
        },
        None => {},
    }
    let copy_action: Action;
    let leaf = match hn {
        FsNode::File { .. } => {
            copy_action = Action::CopyFile {
                from: home_dir.with_rel_file(relative_file).to_path_buf(),
                to: backup_dir.with_rel_file(relative_file).to_path_buf(),
            };
            copy_leaf(hn)
        },
        FsNode::Symlink { .. } => {
            copy_action = Action::CopySymlink {
                from: home_dir.with_rel_file(relative_file).to_path_buf(),
                to: backup_dir.with_rel_file(relative_file).to_path_buf(),
            };
            copy_leaf(hn)
        },
        _ => {
            // a directory or unknown entry cannot be copied file-by-file
            proof {
                assert(actions@ =~= actions@.subrange(0, actions@.len() as int));
            }
            return Err(InstallError::UnknownKind);
        },
    };
    let ghost leafg = leaf;
    let r = set_at(backup, relative_file, leaf);
    proof {
        lemma_can_place_kind(*old(backup), relative_file@, leafg, *hn);
    }
    match r {
        Ok(()) => {
            let ghost a0 = actions@;
            match parent_dir_action {
                Some(a) => {
                    actions.push(a);
                },
                None => {},
            }
            actions.push(copy_action);
            proof {
                assert(a0 =~= actions@.subrange(0, a0.len() as int));
            }
            Ok(())
        },
        Err(e) => {
            proof {
                assert(actions@ =~= actions@.subrange(0, actions@.len() as int));
            }
            Err(e)
        },
    }
}

/// The verify-then-remove protocol, the system's primary safety gate: the
/// home entry at `file` is deleted only after it has been proven
/// equivalent to its backup counterpart. On any failure — a missing
/// backup entry, an entry that cannot be compared, or a failed proof —
/// the home tree is left exactly as it was.
pub fn verify_backup_and_remove(
    file: &RelPath,
    home_dir: &HomePath,
    home: &mut FsNode,
    backup: &FsNode,
    actions: &mut Vec<Action>,
) -> (r: Result<(), InstallError>)
    requires
        old(home).wf(),
        backup.wf(),
        file@.len() > 0,
        lookup(*old(home), file@) is Some,
    ensures
        final(home).wf(),
        final(home).kind() == old(home).kind(),
        r is Err ==> *final(home) == *old(home),
        r is Ok <==> (lookup(*backup, file@) matches Some(b) && !compare_aborts(
            lookup(*old(home), file@)->Some_0,
            b,
        ) && equiv(lookup(*old(home), file@)->Some_0, b) && !(lookup(
            *old(home),
            file@,
        )->Some_0 is Other)),
        r is Ok ==> lookup(*final(home), file@) is None,
        r is Ok ==> forall|q: PathSeq|
            !is_prefix_of(q, file@) && !is_prefix_of(file@, q) ==> lookup(*final(home), q)
                == lookup(*old(home), q),
        r is Ok ==> forall|q: PathSeq|
            is_prefix_of(q, file@) && q.len() < file@.len() ==> kind_at(*final(home), q)
                == kind_at(*old(home), q),
        r is Err ==> final(actions)@ == old(actions)@,
        actions_extended(old(actions)@, final(actions)@),
        r is Ok ==> final(actions)@.len() == old(actions)@.len() + 1 && is_removal(
            final(actions)@.last(),
        ) && removal_path(final(actions)@.last()) == abs_path_of(home_dir@, file@) && (final(
            actions)@.last() is RemoveDirAll <==> lookup(*old(home), file@)->Some_0 is Dir),
{
    let ghost a0 = actions@;
    proof {
        assert(a0 =~= a0.subrange(0, a0.len() as int));
    }
    let bn = match lookup_node(backup, file) {
        None => {
            // the metadata query on the missing backup entry fails
            return Err(InstallError::Missing);
        },
        Some(x) => x,
    };
    let equal: bool;
    let home_kind: EntryKind;
    {
        let hn = match lookup_node(&*home, file) {
            Some(x) => x,
            None => {
                proof {
                    assert(false);
                }
                backup
            },
        };
        proof {
            lemma_lookup_wf(*home, file@);
            lemma_lookup_wf(*backup, file@);
        }
        home_kind = hn.entry_kind();
        match files_equal(hn, bn) {
            Err(e) => {
                return Err(e);
            },
            Ok(eq) => {
                equal = eq;
            },
        }
    }
    if !equal {
        // the backup copy is the only evidence of the user's data
        return Err(InstallError::NotBackedUp);
    }
    match home_kind {
        EntryKind::Symlink | EntryKind::File | EntryKind::Dir => {
            if matches!(home_kind, EntryKind::Dir) {
                actions.push(
                    Action::RemoveDirAll { path: home_dir.with_rel_file(file).to_path_buf() },
                );
            } else {
                actions.push(
                    Action::RemoveFile { path: home_dir.with_rel_file(file).to_path_buf() },
                );
            }
            proof {
                assert(a0 =~= actions@.subrange(0, a0.len() as int));
            }
            match remove_at(home, file) {
                Ok(()) => Ok(()),
                Err(_) => {
                    proof {
                        assert(false);
                    }
                    Err(InstallError::Missing)
                },
            }
        },
        _ => {
            // an entry of unknown kind is never deleted; unreachable here,
            // since comparing two such entries aborts above
            proof {
                assert(actions@ =~= actions@.subrange(0, actions@.len() as int));
            }
            Err(InstallError::UnknownKind)
        },
    }
}

/// The home entry at `p` has a backup copy proven equivalent to it.
pub open spec fn backed_up(home: FsNode, backup: FsNode, p: PathSeq) -> bool {
    &&& lookup(home, p) is Some
    &&& lookup(backup, p) is Some
    &&& equiv(lookup(home, p)->Some_0, lookup(backup, p)->Some_0)
}

/// A file or symlink with a faithful backup copy always passes the
/// verify-then-remove protocol's check: its backup exists, comparing
/// against it cannot abort, and the proof of equivalence holds. This is
/// why a second installation run against an unchanged home directory
/// never fails verification: the copies its own first run wrote are the
/// evidence it compares against.
pub proof fn lemma_fresh_backup_verifies(home: FsNode, backup: FsNode, p: PathSeq)
    requires
        backed_up(home, backup, p),
        lookup(home, p)->Some_0 is File || lookup(home, p)->Some_0 is Symlink,
    ensures
        lookup(backup, p) matches Some(b) && !compare_aborts(lookup(home, p)->Some_0, b) && equiv(
            lookup(home, p)->Some_0,
            b,
        ) && !(lookup(home, p)->Some_0 is Other),
{
}

/// Whatever occupied the home submodule slot has been copied into the
/// backup: a symlink as a whole, a directory file-by-file. A regular
/// file or an unknown entry at the slot cannot be backed up this way.
pub open spec fn submodule_backed_up(home: FsNode, backup: FsNode) -> bool {
    match lookup(home, submodule_rel_path()) {
        Option::None => true,
        Option::Some(m) => {
            &&& !(m is File)
            &&& !(m is Other)
            &&& (m is Symlink ==> backed_up(home, backup, submodule_rel_path()))
            &&& (m is Dir ==> forall|q: PathSeq| #[trigger]
                leaves(m).contains(q) ==> lookup(backup, submodule_rel_path() + q) is Some && (
                lookup(m, q) matches Some(l) && equiv(
                    l,
                    lookup(backup, submodule_rel_path() + q)->Some_0,
                )))
        },
    }
}

/// Whether a symlink may be created at `p` below `n`: the way down must
/// be directories or missing, and the slot itself must be empty.
pub open spec fn can_place_link(n: FsNode, p: PathSeq) -> bool {
    can_place(n, p, FsNode::Other)
}

/// Every managed path can be handled by a run: it is nonempty, cannot
/// collide with the backup's note file or the submodule slot, and either
/// holds a regular file or symlink, or is absent with room for a symlink
/// to be placed.
pub open spec fn managed_paths_ok(home: FsNode, ps: Seq<PathSeq>) -> bool {
    forall|j: int|
        0 <= j < ps.len() ==> {
            &&& (#[trigger] ps[j]).len() > 0
            &&& ps[j][0] != readme_name()
            &&& ps[j][0] != home_submodule_name()
            &&& match lookup(home, ps[j]) {
                Option::Some(m) => m is File || m is Symlink,
                Option::None => can_place(home, ps[j], FsNode::Other),
            }
        }
}

/// The submodule slot is in a state a run is guaranteed to handle:
/// absent, or a symlink. (A directory there is also handled, file by
/// file, but its success depends on what the directory holds.)
pub open spec fn submodule_slot_ok(home: FsNode) -> bool {
    match lookup(home, submodule_rel_path()) {
        Option::None => true,
        Option::Some(m) => m is Symlink,
    }
}

/// The home and repository trees are in a state on which a whole
/// installation run is guaranteed to succeed.
pub open spec fn install_ready(home: FsNode, dotfiles: FsNode) -> bool {
    &&& managed_paths_ok(home, leaves(dotfiles))
    &&& submodule_slot_ok(home)
}

/// Whether `q` lies on, under or above one of the paths in `ps`.
pub open spec fn path_touches(q: PathSeq, ps: Seq<PathSeq>) -> bool {
    exists|j: int|
        0 <= j < ps.len() && (is_prefix_of(#[trigger] ps[j], q) || is_prefix_of(q, ps[j]))
}

/// Relies on chrono's `Local::now` and `DateTime::format`: renders the
/// current local time with the fixed backup-directory pattern. The
/// result depends on the clock, so only what holds of every rendering is
/// promised: format copies the pattern's literal characters (here the
/// `dotfiles-backup_` prefix and the `-`, `_`, `:` separators) verbatim,
/// and the numeric specifiers expand to digits with at most a sign, so
/// the name is nonempty and contains no path separator.
#[verifier::external_body]
fn backup_dir_timestamp() -> (r: String)
    ensures
        r@.len() > 0,
        forall|i: int| 0 <= i < r@.len() ==> r@[i] != '/',
        r@.len() >= 16 && r@.subrange(0, 16) == "dotfiles-backup_"@,
{
    chrono::Local::now().format("dotfiles-backup_%Y-%m-%d_%H:%M:%S").to_string()
}

/// Creates the fresh, timestamp-named backup tree with its explanatory
/// note, and the backup root location under the home directory: a
/// nonempty, separator-free name directly below the home root. The tree
/// holds nothing but the note, and the plan gains exactly the directory
/// creation — which fails on disk if the name already exists, the
/// intended same-second collision guard — followed by the note write.
pub fn create_backup_dir(home_dir: &HomePath, actions: &mut Vec<Action>) -> (r: (
    BackupPath,
    FsNode,
))
    ensures
        r.1.wf(),
        r.1.kind() == EntryKind::Dir,
        forall|q: PathSeq| q.len() > 0 && q[0] != readme_name() ==> lookup(r.1, q) is None,
        lookup(r.1, seq![readme_name()]) matches Some(f) && f is File && f->File_contents@
            == backup_note(),
        forall|q: PathSeq| q.len() > 1 ==> lookup(r.1, q) is None,
        exists|name: Seq<char>| #![auto]
            name.len() > 0 && (forall|i: int| 0 <= i < name.len() ==> name[i] != '/') && r.0@
                == home_dir@ + seq!['/'] + name,
        final(actions)@.len() == old(actions)@.len() + 2,
        actions_extended(old(actions)@, final(actions)@),
        final(actions)@[old(actions)@.len() as int] matches Action::MakeDir { path } && path@
            == r.0@,
        final(actions)@[old(actions)@.len() + 1 as int] matches Action::WriteFile { path, contents }
            && path@ == r.0@ + seq!['/'] + readme_name() && contents@ == backup_note(),
{
    let name = backup_dir_timestamp();
    let mut p = home_dir.as_path_buf().clone();
    p.append("/");
    p.append(name.as_str());
    let backup_dir = BackupPath::new(p);
    proof {
        reveal_strlit("/");
        assert("/"@ =~= seq!['/']);
        assert(backup_dir@ == home_dir@ + seq!['/'] + name@);
    }
    let ghost a0 = actions@;
    actions.push(Action::MakeDir { path: backup_dir.as_path_buf().clone() });
    let note = "This directory holds backups of the dotfiles that the installer \
replaced with symlinks into the repository. Nothing in here is deleted \
automatically; remove it yourself once you are sure you no longer need it.";
    let mut entries: Vec<DirEntry> = Vec::new();
    let readme = String::from_str("README.md");
    let mut readme_abs = backup_dir.as_path_buf().clone();
    readme_abs.append("/");
    readme_abs.append(readme.as_str());
    proof {
        reveal_strlit("/");
        assert("/"@ =~= seq!['/']);
        assert(readme_abs@ == backup_dir@ + seq!['/'] + readme_name());
    }
    actions.push(Action::WriteFile { path: readme_abs, contents: note.as_bytes_vec() });
    proof {
        assert(actions@ == a0.push(actions@[a0.len() as int]).push(actions@[a0.len() + 1 as int]));
        assert(a0 =~= actions@.subrange(0, a0.len() as int));
    }
    entries.push(DirEntry { name: readme, node: FsNode::File { contents: note.as_bytes_vec() } });
    let tree = FsNode::Dir { entries };
    proof {
        let es = tree->Dir_entries@;
        assert(es.len() == 1);
        assert(es[0].name@ == readme_name());
        assert(es[0].node.wf());
        assert(tree.wf());
        assert forall|q: PathSeq| q.len() > 0 && q[0] != readme_name() implies lookup(
            tree,
            q,
        ) is None by {
            assert(es.drop_first() =~= Seq::<DirEntry>::empty());
            assert(find_idx(Seq::<DirEntry>::empty(), q[0]) == -1);
            assert(find_idx(es, q[0]) == -1);
        }
        let rp = seq![readme_name()];
        assert(rp[0] == readme_name());
        assert(rp.len() == 1);
        crate::fs_model::lemma_find_idx(es, readme_name());
        assert(find_idx(es, readme_name()) != -1 ==> find_idx(es, readme_name()) == 0);
        if find_idx(es, readme_name()) == -1 {
            crate::fs_model::lemma_find_idx(es, readme_name());
            assert(es[0].name@ != readme_name());
            assert(false);
        }
        assert(find_idx(es, rp[0]) == 0);
        assert(rp.drop_first() =~= Seq::<Seq<char>>::empty());
        assert(lookup(es[0].node, Seq::<Seq<char>>::empty()) == Some(es[0].node));
        assert(lookup(tree, rp) == Some(es[0].node));
        assert forall|q: PathSeq| q.len() > 1 implies lookup(tree, q) is None by {
            if q[0] == readme_name() {
                assert(find_idx(es, q[0]) == 0);
                assert(lookup(tree, q) == lookup(es[0].node, q.drop_first()));
            }
        }
    }
    (backup_dir, tree)
}

/// Backs up whatever occupies the home submodule slot: a symlink is
/// copied like any managed file; a directory is copied file-by-file; an
/// absent slot needs no protection; anything else aborts.
pub fn backup_submodules(
    home_dir: &HomePath,
    home: &FsNode,
    backup_dir: &BackupPath,
    backup: &mut FsNode,
    actions: &mut Vec<Action>,
) -> (r: Result<(), InstallError>)
    requires
        home.wf(),
        old(backup).wf(),
    ensures
        final(backup).wf(),
        final(backup).kind() == old(backup).kind(),
        r is Ok ==> submodule_backed_up(*home, *final(backup)),
        r is Ok ==> forall|q: PathSeq|
            q.len() > 0 && q[0] != home_submodule_name() ==> lookup(*final(backup), q) == lookup(
                *old(backup),
                q,
            ),
        ({
            &&& old(backup).kind() == EntryKind::Dir
            &&& submodule_slot_ok(*home)
            &&& lookup(*old(backup), submodule_rel_path()) is None
        }) ==> r is Ok,
        lookup(*home, submodule_rel_path()) is None ==> *final(backup) == *old(backup) && final(
            actions)@ == old(actions)@,
        actions_extended(old(actions)@, final(actions)@),
        forall|k: int|
            old(actions)@.len() <= k && k < final(actions)@.len() ==> !is_removal(
                #[trigger] final(actions)@[k],
            ),
{
    let ghost a0g = actions@;
    proof {
        assert(a0g =~= a0g.subrange(0, a0g.len() as int));
    }
    let sub = home_submodule_rel();
    if !file_exists(home, &sub) {
        return Ok(());
    }
    let slot = match lookup_node(home, &sub) {
        Some(x) => x,
        None => {
            proof {
                assert(false);
            }
            home
        },
    };
    proof {
        lemma_lookup_wf(*home, submodule_rel_path());
    }
    match slot {
        FsNode::Symlink { .. } => {
            proof {
                if old(backup).kind() == EntryKind::Dir && lookup(
                    *old(backup),
                    submodule_rel_path(),
                ) is None {
                    lemma_can_place_char(*old(backup), submodule_rel_path(), *slot);
                    assert(submodule_rel_path().len() == 1);
                    assert(can_place(*old(backup), submodule_rel_path(), *slot));
                }
            }
            let r = backup_file(&sub, home_dir, home, backup_dir, backup, actions);
            proof {
                if r is Ok {
                    assert forall|q: PathSeq| q.len() > 0 && q[0] != home_submodule_name() implies
                        lookup(*backup, q) == lookup(*old(backup), q) by {
                        lemma_prefix_diff(q, submodule_rel_path());
                    }
                }
                assert forall|k: int|
                    a0g.len() <= k && k < actions@.len() implies !is_removal(
                    #[trigger] actions@[k],
                ) by {}
            }
            r
        },
        FsNode::Dir { .. } => {
            proof {
                lemma_leaves_lookup(*slot);
                lemma_leaves_prefix_free(*slot);
            }
            let ps = recurse_through_dir(slot);
            let ghost slotg = *slot;
            let ghost lvs = leaves(slotg);
            let ghost b0 = *backup;
            let subname = String::from_str(".dotfiles-submodules");
            let mut i: usize = 0;
            while i < ps.len()
                invariant
                    home.wf(),
                    backup.wf(),
                    b0 == *old(backup),
                    backup.kind() == b0.kind(),
                    i <= ps.len(),
                    subname@ == home_submodule_name(),
                    lookup(*home, submodule_rel_path()) == Some(slotg),
                    slotg.wf(),
                    slotg is Dir,
                    paths_view(ps@) == lvs,
                    lvs == leaves(slotg),
                    forall|j: int|
                        0 <= j < i ==> lookup(*backup, submodule_rel_path() + lvs[j]) is Some && (
                        lookup(slotg, #[trigger] lvs[j]) matches Some(l) && equiv(
                            l,
                            lookup(*backup, submodule_rel_path() + lvs[j])->Some_0,
                        )),
                    forall|q: PathSeq|
                        q.len() > 0 && q[0] != home_submodule_name() ==> lookup(*backup, q)
                            == lookup(b0, q),
                    a0g == old(actions)@,
                    actions_extended(a0g, actions@),
                    forall|k: int|
                        a0g.len() <= k && k < actions@.len() ==> !is_removal(
                            #[trigger] actions@[k],
                        ),
                decreases ps.len() - i,
            {
                proof {
                    lemma_leaves_lookup(slotg);
                    lemma_leaves_prefix_free(slotg);
                    assert(lvs[i as int] == ps@[i as int]@);
                    assert(lvs.contains(lvs[i as int]));
                }
                let full = crate::fs_model::prepend_rel(&subname, &ps[i]);
                let ghost fullp = submodule_rel_path() + lvs[i as int];
                proof {
                    assert(full@ =~= fullp);
                    lemma_lookup_append(*home, submodule_rel_path(), lvs[i as int]);
                    assert(lookup(*home, fullp) == lookup(slotg, lvs[i as int]));
                }
                let ghost bprev = *backup;
                let ghost aprev = actions@;
                match backup_file(&full, home_dir, home, backup_dir, backup, actions) {
                    Err(e) => {
                        proof {
                            assert(actions@ == aprev);
                        }
                        return Err(e);
                    },
                    Ok(()) => {},
                }
                proof {
                    lemma_actions_extended_trans(a0g, aprev, actions@);
                    assert forall|k: int| a0g.len() <= k && k < actions@.len() implies !is_removal(
                        #[trigger] actions@[k],
                    ) by {
                        if k < aprev.len() {
                            lemma_actions_extended_index(aprev, actions@, k);
                        }
                    }
                }
                proof {
                    assert forall|j: int| 0 <= j < i + 1 implies lookup(
                        *backup,
                        submodule_rel_path() + lvs[j],
                    ) is Some && (lookup(slotg, #[trigger] lvs[j]) matches Some(l) && equiv(
                        l,
                        lookup(*backup, submodule_rel_path() + lvs[j])->Some_0,
                    )) by {
                        if j < i {
                            if lvs[j] == lvs[i as int] {
                            } else {
                                assert(!is_prefix_of(lvs[j], lvs[i as int]));
                                assert(!is_prefix_of(lvs[i as int], lvs[j]));
                                let qj = submodule_rel_path() + lvs[j];
                                assert(qj.drop_first() =~= lvs[j]);
                                assert(fullp.drop_first() =~= lvs[i as int]);
                                assert(qj[0] == fullp[0]);
                                lemma_prefix_drop(qj, fullp);
                                lemma_prefix_drop(fullp, qj);
                                assert(lookup(*backup, qj) == lookup(bprev, qj));
                            }
                        }
                    }
                    assert forall|q: PathSeq| q.len() > 0 && q[0] != home_submodule_name() implies
                        lookup(*backup, q) == lookup(b0, q) by {
                        lemma_prefix_diff(q, fullp);
                        assert(lookup(*backup, q) == lookup(bprev, q));
                    }
                }
                i += 1;
            }
            proof {
                assert(ps@.len() == lvs.len());
                assert forall|q: PathSeq| #[trigger] leaves(slotg).contains(q) implies lookup(
                    *backup,
                    submodule_rel_path() + q,
                ) is Some && (lookup(slotg, q) matches Some(l) && equiv(
                    l,
                    lookup(*backup, submodule_rel_path() + q)->Some_0,
                )) by {
                    let j = choose|j: int| 0 <= j < lvs.len() && lvs[j] == q;
                    assert(lookup(slotg, lvs[j]) matches Some(l) && equiv(
                        l,
                        lookup(*backup, submodule_rel_path() + lvs[j])->Some_0,
                    ));
                }
            }
            Ok(())
        },
        _ => {
            // a regular file or unknown entry at the slot cannot be
            // backed up file-by-file
            Err(InstallError::UnknownKind)
        },
    }
}

/// Creates the timestamped backup tree and copies every managed file
/// that currently exists in the home tree into it, then backs up the
/// submodule slot. Nothing in the home tree is touched.
pub fn create_backup(
    home_dir: &HomePath,
    home: &FsNode,
    files: &Vec<RelPath>,
    actions: &mut Vec<Action>,
) -> (r: Result<(BackupPath, FsNode), InstallError>)
    requires
        home.wf(),
        forall|j: int| 0 <= j < files@.len() ==> (#[trigger] files@[j]@).len() > 0,
        forall|i: int, j: int|
            0 <= i < files@.len() && 0 <= j < files@.len() && i != j ==> files@[i]@ == files@[j]@
                || !is_prefix_of(#[trigger] files@[i]@, #[trigger] files@[j]@),
    ensures
        r matches Ok(p) ==> {
            &&& p.1.wf()
            &&& p.1.kind() == EntryKind::Dir
            &&& forall|j: int|
                0 <= j < files@.len() && (#[trigger] files@[j]@)[0] != home_submodule_name()
                    && lookup(*home, files@[j]@) is Some ==> backed_up(*home, p.1, files@[j]@)
            &&& submodule_backed_up(*home, p.1)
            &&& (exists|name: Seq<char>| #![auto]
                name.len() > 0 && (forall|i: int| 0 <= i < name.len() ==> name[i] != '/')
                    && p.0@ == home_dir@ + seq!['/'] + name)
            &&& ((forall|j: int|
                0 <= j < files@.len() && #[trigger] files@[j]@ == seq![readme_name()]
                    ==> lookup(*home, files@[j]@) is None) ==> (lookup(
                p.1,
                seq![readme_name()],
            ) matches Some(f) && f is File && f->File_contents@ == backup_note()))
            &&& (forall|q: PathSeq|
                q.len() > 0 && q[0] != home_submodule_name() && (#[trigger] lookup(
                    p.1,
                    q,
                )) is Some ==> q == seq![readme_name()] || (exists|j: int| #![all_triggers]
                    0 <= j < files@.len() && lookup(*home, files@[j]@) is Some && is_prefix_of(
                        q,
                        files@[j]@,
                    )))
        },
        ({
            &&& managed_paths_ok(*home, paths_view(files@))
            &&& (forall|i1: int, i2: int|
                0 <= i1 < i2 < files@.len() ==> files@[i1]@ != files@[i2]@)
            &&& submodule_slot_ok(*home)
        }) ==> r is Ok,
        actions_extended(old(actions)@, final(actions)@),
        forall|k: int|
            old(actions)@.len() <= k && k < final(actions)@.len() ==> !is_removal(
                #[trigger] final(actions)@[k],
            ),
{
    let ghost a0g = actions@;
    let ghost guard = {
        &&& managed_paths_ok(*home, paths_view(files@))
        &&& (forall|i1: int, i2: int| 0 <= i1 < i2 < files@.len() ==> files@[i1]@ != files@[i2]@)
        &&& submodule_slot_ok(*home)
    };
    let (backup_dir, mut bt) = create_backup_dir(home_dir, actions);
    proof {
        assert forall|q: PathSeq| q.len() > 0 && (#[trigger] lookup(bt, q)) is Some implies q
            == seq![readme_name()] || (exists|j: int| #![all_triggers]
            0 <= j < 0 && lookup(*home, files@[j]@) is Some && is_prefix_of(
                q,
                files@[j]@,
            )) by {
            assert(q.len() == 1 && q[0] == readme_name());
            assert(q =~= seq![readme_name()]);
        }
    }
    let mut i: usize = 0;
    while i < files.len()
        invariant
            home.wf(),
            bt.wf(),
            bt.kind() == EntryKind::Dir,
            i <= files.len(),
            forall|j: int| 0 <= j < files@.len() ==> (#[trigger] files@[j]@).len() > 0,
            forall|i1: int, j: int|
                0 <= i1 < files@.len() && 0 <= j < files@.len() && i1 != j ==> files@[i1]@
                    == files@[j]@ || !is_prefix_of(#[trigger] files@[i1]@, #[trigger] files@[j]@),
            forall|j: int|
                0 <= j < i && lookup(*home, #[trigger] files@[j]@) is Some ==> backed_up(
                    *home,
                    bt,
                    files@[j]@,
                ),
            forall|q: PathSeq|
                q.len() > 0 && (#[trigger] lookup(bt, q)) is Some ==> q == seq![readme_name()] || (
                exists|j: int| #![all_triggers]
                    0 <= j < i && lookup(*home, files@[j]@) is Some && is_prefix_of(
                        q,
                        files@[j]@,
                    )),
            forall|q: PathSeq| #![trigger kind_at(bt, q)]
                q.len() > 0 && (exists|j: int| #![all_triggers]
                    0 <= j < i && lookup(*home, files@[j]@) is Some && is_prefix_of(
                        q,
                        files@[j]@,
                    ) && q.len() < files@[j]@.len()) ==> kind_at(bt, q) == EntryKind::Dir,
            guard == ({
                &&& managed_paths_ok(*home, paths_view(files@))
                &&& (forall|i1: int, i2: int|
                    0 <= i1 < i2 < files@.len() ==> files@[i1]@ != files@[i2]@)
                &&& submodule_slot_ok(*home)
            }),
            a0g == old(actions)@,
            actions_extended(a0g, actions@),
            forall|k: int|
                a0g.len() <= k && k < actions@.len() ==> !is_removal(#[trigger] actions@[k]),
            (forall|j: int|
                0 <= j < files@.len() && #[trigger] files@[j]@ == seq![readme_name()]
                    ==> lookup(*home, files@[j]@) is None) ==> (lookup(
                bt,
                seq![readme_name()],
            ) matches Some(f) && f is File && f->File_contents@ == backup_note()),
        decreases files.len() - i,
    {
        let ghost bprev = bt;
        let ghost pi = files@[i as int]@;
        proof {
            if guard {
                assert(paths_view(files@)[i as int] == pi);
                match lookup(*home, pi) {
                    Option::Some(m) => {
                        lemma_can_place_char(bprev, pi, m);
                        assert forall|k: int|
                            1 <= k < pi.len() implies !(lookup(
                            bprev,
                            #[trigger] pi.subrange(0, k),
                        ) matches Some(mm) && !(mm is Dir)) by {
                            let pre = pi.subrange(0, k);
                            assert(pre[0] == pi[0]);
                            if lookup(bprev, pre) is Some {
                                if pre == seq![readme_name()] {
                                    assert(pre[0] == readme_name());
                                } else {
                                    let j = choose|j: int| #![all_triggers]
                                        0 <= j < i && lookup(*home, files@[j]@) is Some
                                            && is_prefix_of(pre, files@[j]@);
                                    assert(pre.len() < pi.len());
                                    if pre == files@[j]@ {
                                        assert(is_prefix_of(files@[j]@, pi)) by {
                                            assert(pre =~= pi.subrange(0, pre.len() as int));
                                        }
                                        assert(files@[j]@ != pi);
                                    } else {
                                        assert(pre.len() < files@[j]@.len()) by {
                                            if pre.len() == files@[j]@.len() {
                                                assert(pre =~= files@[j]@);
                                            }
                                        }
                                        assert(kind_at(bprev, pre) == EntryKind::Dir);
                                    }
                                }
                            }
                        }
                        if lookup(bprev, pi) is Some {
                            if pi == seq![readme_name()] {
                                assert(pi[0] == readme_name());
                                assert(false);
                            } else {
                                let j = choose|j: int| #![all_triggers]
                                    0 <= j < i && lookup(*home, files@[j]@) is Some
                                        && is_prefix_of(pi, files@[j]@);
                                if pi == files@[j]@ {
                                    assert(false);
                                } else {
                                    assert(is_prefix_of(pi, files@[j]@) && pi != files@[j]@);
                                    assert(false);
                                }
                            }
                        }
                        assert(lookup(bprev, pi) is None);
                        assert(can_place(bprev, pi, m));
                    },
                    Option::None => {},
                }
            }
        }
        let ghost aprev = actions@;
        match backup_file(&files[i], home_dir, home, &backup_dir, &mut bt, actions) {
            Err(e) => {
                proof {
                    if guard {
                        assert(false);
                    }
                    assert(actions@ == aprev);
                }
                return Err(e);
            },
            Ok(()) => {},
        }
        proof {
            lemma_actions_extended_trans(a0g, aprev, actions@);
            assert forall|k: int| a0g.len() <= k && k < actions@.len() implies !is_removal(
                #[trigger] actions@[k],
            ) by {
                if k < aprev.len() {
                    lemma_actions_extended_index(aprev, actions@, k);
                }
            }
            if (forall|j: int|
                0 <= j < files@.len() && #[trigger] files@[j]@ == seq![readme_name()] ==> lookup(
                    *home,
                    files@[j]@,
                ) is None) {
                let rp = seq![readme_name()];
                assert(rp.len() == 1 && rp[0] == readme_name());
                match lookup(*home, pi) {
                    Option::None => {
                        assert(bt == bprev);
                    },
                    Option::Some(m) => {
                        if m is File || m is Symlink {
                            if pi == rp {
                                assert(lookup(*home, files@[i as int]@) is None);
                                assert(false);
                            } else if is_prefix_of(rp, pi) {
                                assert(pi[0] == rp[0]) by {
                                    assert(rp == pi.subrange(0, 1));
                                    assert(pi.subrange(0, 1)[0] == pi[0]);
                                }
                                assert(pi.len() > 1) by {
                                    if pi.len() == 1 {
                                        assert(pi =~= rp);
                                    }
                                }
                                assert(can_place(bprev, pi, m));
                                lemma_can_place_char(bprev, pi, m);
                                assert(pi.subrange(0, 1) =~= rp);
                                assert(!(lookup(bprev, pi.subrange(0, 1)) matches Some(mm) && !(mm
                                    is Dir)));
                                assert(false);
                            } else if is_prefix_of(pi, rp) {
                                assert(pi.len() == 1) by {
                                    assert(pi.len() > 0 && pi.len() <= 1);
                                }
                                assert(pi =~= rp);
                                assert(false);
                            } else {
                                assert(lookup(bt, rp) == lookup(bprev, rp));
                            }
                        } else {
                            assert(false);
                        }
                    },
                }
            }
            assert forall|j: int| 0 <= j < i + 1 && lookup(*home, #[trigger] files@[j]@) is Some
                implies backed_up(*home, bt, files@[j]@) by {
                if j < i {
                    let pj = files@[j]@;
                    if pj == pi {
                    } else {
                        assert(!is_prefix_of(pj, pi));
                        assert(!is_prefix_of(pi, pj));
                        assert(lookup(bt, pj) == lookup(bprev, pj));
                    }
                }
            }
            assert forall|q: PathSeq| q.len() > 0 && (#[trigger] lookup(bt, q)) is Some implies q
                == seq![readme_name()] || (exists|j: int| #![all_triggers]
                0 <= j < i + 1 && lookup(*home, files@[j]@) is Some && is_prefix_of(
                    q,
                    files@[j]@,
                )) by {
                if lookup(*home, pi) is Some {
                    if is_prefix_of(q, pi) {
                        assert(0 <= i < i + 1 && lookup(*home, files@[i as int]@) is Some
                            && is_prefix_of(q, files@[i as int]@));
                    } else if is_prefix_of(pi, q) {
                        assert(q =~= pi + q.skip(pi.len() as int));
                        lemma_lookup_append(bt, pi, q.skip(pi.len() as int));
                        assert(q.skip(pi.len() as int).len() > 0);
                        assert(lookup(bt, q) is None);
                    } else {
                        assert(lookup(bt, q) == lookup(bprev, q));
                    }
                } else {
                    assert(lookup(bt, q) == lookup(bprev, q));
                }
            }
            assert forall|q: PathSeq| #![trigger kind_at(bt, q)]
                q.len() > 0 && (exists|j: int| #![all_triggers]
                    0 <= j < i + 1 && lookup(*home, files@[j]@) is Some && is_prefix_of(
                        q,
                        files@[j]@,
                    ) && q.len() < files@[j]@.len()) implies kind_at(bt, q) == EntryKind::Dir by {
                let j = choose|j: int| #![all_triggers]
                    0 <= j < i + 1 && lookup(*home, files@[j]@) is Some && is_prefix_of(
                        q,
                        files@[j]@,
                    ) && q.len() < files@[j]@.len();
                if lookup(*home, pi) is Some {
                    if is_prefix_of(q, pi) && q.len() < pi.len() {
                        assert(kind_at(bt, q) == EntryKind::Dir);
                    } else if q == pi {
                        let pj = files@[j]@;
                        assert(is_prefix_of(pi, pj) && pi != pj);
                        assert(false);
                    } else if is_prefix_of(pi, q) {
                        let pj = files@[j]@;
                        lemma_prefix_trans(pi, q, pj);
                        assert(is_prefix_of(pi, pj));
                        assert(pi != pj) by {
                            if pi == pj {
                                assert(is_prefix_of(pi, q) && is_prefix_of(q, pi));
                                assert(q =~= pi);
                            }
                        }
                        assert(false);
                    } else {
                        assert(j < i) by {
                            if j == i {
                                assert(is_prefix_of(q, pi) && q.len() < pi.len());
                            }
                        }
                        assert(0 <= j < i && lookup(*home, files@[j]@) is Some && is_prefix_of(
                            q,
                            files@[j]@,
                        ) && q.len() < files@[j]@.len());
                        assert(!is_prefix_of(q, pi)) by {
                            if is_prefix_of(q, pi) {
                                assert(q.len() < pi.len() || q =~= pi);
                            }
                        }
                        assert(lookup(bt, q) == lookup(bprev, q));
                        assert(kind_at(bprev, q) == EntryKind::Dir);
                    }
                } else {
                    assert(j < i) by {
                        if j == i {
                            assert(lookup(*home, pi) is Some);
                        }
                    }
                    assert(0 <= j < i && lookup(*home, files@[j]@) is Some && is_prefix_of(
                        q,
                        files@[j]@,
                    ) && q.len() < files@[j]@.len());
                    assert(lookup(bt, q) == lookup(bprev, q));
                    assert(kind_at(bprev, q) == EntryKind::Dir);
                }
            }
        }
        i += 1;
    }
    proof {
        if guard {
            assert(lookup(bt, submodule_rel_path()) is None) by {
                if lookup(bt, submodule_rel_path()) is Some {
                    let sp = submodule_rel_path();
                    assert(sp.len() == 1 && sp[0] == home_submodule_name());
                    if sp == seq![readme_name()] {
                        reveal_strlit(".dotfiles-submodules");
                        reveal_strlit("README.md");
                        assert(home_submodule_name().len() != readme_name().len());
                        assert(sp[0] == readme_name());
                    } else {
                        let j = choose|j: int| #![all_triggers]
                            0 <= j < files@.len() && lookup(*home, files@[j]@) is Some
                                && is_prefix_of(sp, files@[j]@);
                        assert(paths_view(files@)[j] == files@[j]@);
                        assert(files@[j]@[0] != home_submodule_name());
                        assert(files@[j]@.subrange(0, 1)[0] == files@[j]@[0]);
                    }
                }
            }
        }
    }
    let ghost btmid = bt;
    let ghost amid = actions@;
    match backup_submodules(home_dir, home, &backup_dir, &mut bt, actions) {
        Err(e) => {
            proof {
                if guard {
                    assert(false);
                }
                lemma_actions_extended_trans(a0g, amid, actions@);
                assert forall|k: int| a0g.len() <= k && k < actions@.len() implies !is_removal(
                    #[trigger] actions@[k],
                ) by {
                    if k < amid.len() {
                        lemma_actions_extended_index(amid, actions@, k);
                    }
                }
            }
            return Err(e);
        },
        Ok(()) => {},
    }
    proof {
        assert forall|j: int|
            0 <= j < files@.len() && (#[trigger] files@[j]@)[0] != home_submodule_name() && lookup(
                *home,
                files@[j]@,
            ) is Some implies backed_up(*home, bt, files@[j]@) by {}
        lemma_actions_extended_trans(a0g, amid, actions@);
        assert forall|k: int| a0g.len() <= k && k < actions@.len() implies !is_removal(
            #[trigger] actions@[k],
        ) by {
            if k < amid.len() {
                lemma_actions_extended_index(amid, actions@, k);
            }
        }
        let rp = seq![readme_name()];
        assert(rp.len() == 1 && rp[0] == readme_name());
        assert(readme_name() != home_submodule_name()) by {
            reveal_strlit("README.md");
            reveal_strlit(".dotfiles-submodules");
            assert(readme_name().len() != home_submodule_name().len());
        }
        if (forall|j: int|
            0 <= j < files@.len() && #[trigger] files@[j]@ == seq![readme_name()] ==> lookup(
                *home,
                files@[j]@,
            ) is None) {
            assert(lookup(bt, rp) == lookup(btmid, rp));
        }
        assert forall|q: PathSeq|
            q.len() > 0 && q[0] != home_submodule_name() && (#[trigger] lookup(bt, q)) is Some
            implies q == seq![readme_name()] || (exists|j: int| #![all_triggers]
            0 <= j < files@.len() && lookup(*home, files@[j]@) is Some && is_prefix_of(
                q,
                files@[j]@,
            )) by {
            assert(lookup(bt, q) == lookup(btmid, q));
        }
    }
    Ok((backup_dir, bt))
}

/// Creates a symlink in the home tree whose target is the repository
/// copy of the file, creating missing parent directories on the way.
pub fn create_symlink(
    home: &mut FsNode,
    target: &Dotfile,
    link_rel: &RelPath,
    home_dir: &HomePath,
    actions: &mut Vec<Action>,
) -> (r: Result<(), InstallError>)
    requires
        old(home).wf(),
        link_rel@.len() > 0,
    ensures
        final(home).wf(),
        final(home).kind() == old(home).kind(),
        r is Err ==> *final(home) == *old(home),
        r is Ok <==> can_place_link(*old(home), link_rel@),
        r is Ok ==> (lookup(*final(home), link_rel@) matches Some(l) && l is Symlink
            && l->Symlink_target@ == abs_path_of(target.prefix@, target.rel@)),
        r is Ok ==> forall|q: PathSeq|
            !is_prefix_of(q, link_rel@) && !is_prefix_of(link_rel@, q) ==> lookup(*final(home), q)
                == lookup(*old(home), q),
        r is Ok ==> forall|q: PathSeq|
            is_prefix_of(q, link_rel@) && q.len() < link_rel@.len() ==> kind_at(*final(home), q)
                == EntryKind::Dir,
        r is Err ==> final(actions)@ == old(actions)@,
        actions_extended(old(actions)@, final(actions)@),
        r is Ok ==> final(actions)@.len() == old(actions)@.len() + 1 && (final(
            actions)@.last() matches Action::MakeSymlink { target: t, at } && t@ == abs_path_of(
            target.prefix@,
            target.rel@,
        ) && at@ == abs_path_of(home_dir@, link_rel@)),
{
    let ghost a0 = actions@;
    proof {
        assert(a0 =~= a0.subrange(0, a0.len() as int));
    }
    let link_name = home_dir.with_rel_file(link_rel);
    let leaf = FsNode::Symlink { target: target.to_path_buf() };
    proof {
        lemma_can_place_kind(*old(home), link_rel@, leaf, FsNode::Other);
    }
    let r = set_at(home, link_rel, leaf);
    match r {
        Ok(()) => {
            actions.push(
                Action::MakeSymlink { target: target.to_path_buf(), at: link_name.to_path_buf() },
            );
            proof {
                assert(a0 =~= actions@.subrange(0, a0.len() as int));
            }
            Ok(())
        },
        Err(e) => Err(e),
    }
}

/// The inputs under which the replacement loop is guaranteed to finish:
/// each managed path either holds a file or symlink with a faithful
/// backup copy, or is absent with room for the symlink; and the managed
/// paths are pairwise distinct.
#[verifier::opaque]
pub open spec fn replace_ready(home0: FsNode, backup: FsNode, ps: Seq<PathSeq>) -> bool {
    &&& (forall|j: int|
        0 <= j < ps.len() ==> match lookup(home0, #[trigger] ps[j]) {
            Option::Some(m) => (m is File || m is Symlink) && backed_up(home0, backup, ps[j]),
            Option::None => can_place(home0, ps[j], FsNode::Other),
        })
    &&& (forall|i1: int, i2: int| 0 <= i1 < i2 < ps.len() ==> ps[i1] != ps[i2])
}

/// The replacement loop's bookkeeping about the home tree after `i`
/// steps: paths not yet processed are untouched, parent chains of the
/// written links are directories, and paths unrelated to every written
/// link are untouched.
#[verifier::opaque]
spec fn replace_loop_inv(home0: FsNode, home: FsNode, ps: Seq<PathSeq>, i: int) -> bool {
    &&& (forall|j: int|
        i <= j < ps.len() ==> lookup(home, #[trigger] ps[j]) == lookup(home0, ps[j]))
    &&& (forall|q: PathSeq| #![trigger kind_at(home, q)]
        q.len() > 0 && (exists|j: int| #![all_triggers]
            0 <= j < i && is_prefix_of(q, ps[j]) && q.len() < ps[j].len()) ==> kind_at(home, q)
            == EntryKind::Dir)
    &&& (forall|q: PathSeq| #![trigger lookup(home, q)]
        (forall|j: int|
            0 <= j < i ==> !is_prefix_of(q, #[trigger] ps[j]) && !is_prefix_of(ps[j], q))
            ==> lookup(home, q) == lookup(home0, q))
}

/// Every removal the replacement phase has planned since `a0` targets a
/// managed path whose backup entry exists; the removal was planned by
/// `verify_backup_and_remove`, whose contract ties it to a successful
/// equivalence proof against that entry at the moment of planning.
#[verifier::opaque]
pub open spec fn plan_removals_backed(
    a0: Seq<Action>,
    a1: Seq<Action>,
    home_dir: Seq<char>,
    backup: FsNode,
    ps: Seq<PathSeq>,
) -> bool {
    &&& actions_extended(a0, a1)
    &&& forall|k: int|
        a0.len() <= k && k < a1.len() ==> (is_removal(#[trigger] a1[k]) ==> exists|j: int|
            #![all_triggers]
            0 <= j < ps.len() && removal_path(a1[k]) == abs_path_of(home_dir, ps[j]) && lookup(
                backup,
                ps[j],
            ) is Some)
}

/// An unchanged plan trivially has all its removals backed.
proof fn lemma_plan_refl(
    a0: Seq<Action>,
    home_dir: Seq<char>,
    backup: FsNode,
    ps: Seq<PathSeq>,
)
    ensures
        plan_removals_backed(a0, a0, home_dir, backup, ps),
{
    reveal(plan_removals_backed);
    assert(a0 =~= a0.subrange(0, a0.len() as int));
}

/// Appending actions whose removals all target the `i`-th managed path,
/// backed in the backup tree, keeps the plan's removals backed.
proof fn lemma_plan_step(
    a0: Seq<Action>,
    a1: Seq<Action>,
    a2: Seq<Action>,
    home_dir: Seq<char>,
    backup: FsNode,
    ps: Seq<PathSeq>,
    i: int,
)
    requires
        plan_removals_backed(a0, a1, home_dir, backup, ps),
        actions_extended(a1, a2),
        0 <= i < ps.len(),
        forall|k: int|
            a1.len() <= k && k < a2.len() ==> (is_removal(#[trigger] a2[k]) ==> removal_path(
                a2[k],
            ) == abs_path_of(home_dir, ps[i]) && lookup(backup, ps[i]) is Some),
    ensures
        plan_removals_backed(a0, a2, home_dir, backup, ps),
{
    reveal(plan_removals_backed);
    lemma_actions_extended_trans(a0, a1, a2);
    assert forall|k: int|
        a0.len() <= k && k < a2.len() implies (is_removal(#[trigger] a2[k]) ==> exists|j: int|
        #![all_triggers]
        0 <= j < ps.len() && removal_path(a2[k]) == abs_path_of(home_dir, ps[j]) && lookup(
            backup,
            ps[j],
        ) is Some) by {
        if k < a1.len() {
            lemma_actions_extended_index(a1, a2, k);
        } else {
            if is_removal(a2[k]) {
                assert(0 <= i < ps.len() && removal_path(a2[k]) == abs_path_of(home_dir, ps[i])
                    && lookup(backup, ps[i]) is Some);
            }
        }
    }
}

/// When the loop's books are in order, a managed path that is occupied
/// holds a file or symlink whose backup copy passes verification.
proof fn lemma_step_verify_ready(
    home0: FsNode,
    hprev: FsNode,
    backup: FsNode,
    ps: Seq<PathSeq>,
    i: int,
)
    requires
        0 <= i < ps.len(),
        replace_ready(home0, backup, ps),
        replace_loop_inv(home0, hprev, ps, i),
        lookup(hprev, ps[i]) is Some,
    ensures
        lookup(hprev, ps[i]) == lookup(home0, ps[i]),
        lookup(hprev, ps[i])->Some_0 is File || lookup(hprev, ps[i])->Some_0 is Symlink,
        lookup(backup, ps[i]) is Some,
        equiv(lookup(hprev, ps[i])->Some_0, lookup(backup, ps[i])->Some_0),
        !compare_aborts(lookup(hprev, ps[i])->Some_0, lookup(backup, ps[i])->Some_0),
{
    reveal(replace_ready);
    reveal(replace_loop_inv);
    assert(lookup(hprev, ps[i]) == lookup(home0, ps[i]));
    let m = lookup(home0, ps[i])->Some_0;
    assert((m is File || m is Symlink) && backed_up(home0, backup, ps[i]));
}

/// When the loop's books are in order and the slot has been cleared, the
/// symlink can be placed at the `i`-th managed path.
proof fn lemma_step_clear(
    home0: FsNode,
    hprev: FsNode,
    hmid: FsNode,
    backup: FsNode,
    ps: Seq<PathSeq>,
    i: int,
)
    requires
        0 <= i < ps.len(),
        hmid is Dir,
        home0 is Dir,
        replace_ready(home0, backup, ps),
        replace_loop_inv(home0, hprev, ps, i),
        forall|j: int| 0 <= j < ps.len() ==> (#[trigger] ps[j]).len() > 0,
        forall|i1: int, j: int|
            0 <= i1 < ps.len() && 0 <= j < ps.len() && i1 != j ==> ps[i1] == ps[j]
                || !is_prefix_of(#[trigger] ps[i1], #[trigger] ps[j]),
        lookup(hmid, ps[i]) is None,
        forall|q: PathSeq|
            is_prefix_of(q, ps[i]) && q.len() < ps[i].len() ==> kind_at(hmid, q) == kind_at(
                hprev,
                q,
            ),
    ensures
        can_place_link(hmid, ps[i]),
{
    reveal(replace_ready);
    reveal(replace_loop_inv);
    lemma_step_placeable(home0, hprev, hmid, ps, i);
}

/// A managed path that was absent at the start and is not yet processed
/// is still absent.
proof fn lemma_step_absent(home0: FsNode, hprev: FsNode, ps: Seq<PathSeq>, i: int)
    requires
        0 <= i < ps.len(),
        replace_loop_inv(home0, hprev, ps, i),
        lookup(hprev, ps[i]) is None,
    ensures
        lookup(home0, ps[i]) is None,
{
    reveal(replace_loop_inv);
}

/// A full replacement step carries the loop's books from `i` to `i + 1`.
proof fn lemma_step_maintain(
    home0: FsNode,
    hprev: FsNode,
    hmid: FsNode,
    hcur: FsNode,
    backup: FsNode,
    ps: Seq<PathSeq>,
    i: int,
)
    requires
        0 <= i < ps.len(),
        replace_ready(home0, backup, ps),
        replace_loop_inv(home0, hprev, ps, i),
        forall|j: int| 0 <= j < ps.len() ==> (#[trigger] ps[j]).len() > 0,
        forall|i1: int, j: int|
            0 <= i1 < ps.len() && 0 <= j < ps.len() && i1 != j ==> ps[i1] == ps[j]
                || !is_prefix_of(#[trigger] ps[i1], #[trigger] ps[j]),
        forall|q: PathSeq|
            !is_prefix_of(q, ps[i]) && !is_prefix_of(ps[i], q) ==> lookup(hmid, q) == lookup(
                hprev,
                q,
            ),
        forall|q: PathSeq|
            is_prefix_of(q, ps[i]) && q.len() < ps[i].len() ==> kind_at(hmid, q) == kind_at(
                hprev,
                q,
            ),
        forall|q: PathSeq|
            !is_prefix_of(q, ps[i]) && !is_prefix_of(ps[i], q) ==> lookup(hcur, q) == lookup(
                hmid,
                q,
            ),
        forall|q: PathSeq|
            is_prefix_of(q, ps[i]) && q.len() < ps[i].len() ==> kind_at(hcur, q)
                == EntryKind::Dir,
    ensures
        replace_loop_inv(home0, hcur, ps, i + 1),
{
    reveal(replace_ready);
    reveal(replace_loop_inv);
    lemma_step_pending(home0, hprev, hmid, hcur, ps, i);
    lemma_step_ancestors_dir(hprev, hmid, hcur, ps, i);
    lemma_step_untouched(home0, hprev, hmid, hcur, ps, i);
}

/// One replacement step leaves the paths that are still pending exactly
/// as they were at the start of the loop.
proof fn lemma_step_pending(
    home0: FsNode,
    hprev: FsNode,
    hmid: FsNode,
    hcur: FsNode,
    ps: Seq<PathSeq>,
    i: int,
)
    requires
        0 <= i < ps.len(),
        forall|j: int| 0 <= j < ps.len() ==> (#[trigger] ps[j]).len() > 0,
        forall|i1: int, j: int|
            0 <= i1 < ps.len() && 0 <= j < ps.len() && i1 != j ==> ps[i1] == ps[j]
                || !is_prefix_of(#[trigger] ps[i1], #[trigger] ps[j]),
        forall|i1: int, i2: int| 0 <= i1 < i2 < ps.len() ==> ps[i1] != ps[i2],
        forall|j: int| i <= j < ps.len() ==> lookup(hprev, #[trigger] ps[j]) == lookup(
            home0,
            ps[j],
        ),
        forall|q: PathSeq|
            !is_prefix_of(q, ps[i]) && !is_prefix_of(ps[i], q) ==> lookup(hmid, q) == lookup(
                hprev,
                q,
            ),
        forall|q: PathSeq|
            !is_prefix_of(q, ps[i]) && !is_prefix_of(ps[i], q) ==> lookup(hcur, q) == lookup(
                hmid,
                q,
            ),
    ensures
        forall|j: int| i + 1 <= j < ps.len() ==> lookup(hcur, #[trigger] ps[j]) == lookup(
            home0,
            ps[j],
        ),
{
    assert forall|j: int| i + 1 <= j < ps.len() implies lookup(hcur, #[trigger] ps[j]) == lookup(
        home0,
        ps[j],
    ) by {
        let pj = ps[j];
        assert(pj != ps[i]);
        assert(!is_prefix_of(pj, ps[i]) && !is_prefix_of(ps[i], pj));
        assert(lookup(hmid, pj) == lookup(hprev, pj));
        assert(lookup(hcur, pj) == lookup(hmid, pj));
    }
}

/// One replacement step leaves every path unrelated to all written links
/// exactly as it was at the start of the loop.
proof fn lemma_step_untouched(
    home0: FsNode,
    hprev: FsNode,
    hmid: FsNode,
    hcur: FsNode,
    ps: Seq<PathSeq>,
    i: int,
)
    requires
        0 <= i < ps.len(),
        forall|q: PathSeq| #![trigger lookup(hprev, q)]
            (forall|j: int|
                0 <= j < i ==> !is_prefix_of(q, #[trigger] ps[j]) && !is_prefix_of(ps[j], q))
                ==> lookup(hprev, q) == lookup(home0, q),
        forall|q: PathSeq|
            !is_prefix_of(q, ps[i]) && !is_prefix_of(ps[i], q) ==> lookup(hmid, q) == lookup(
                hprev,
                q,
            ),
        forall|q: PathSeq|
            !is_prefix_of(q, ps[i]) && !is_prefix_of(ps[i], q) ==> lookup(hcur, q) == lookup(
                hmid,
                q,
            ),
    ensures
        forall|q: PathSeq| #![trigger lookup(hcur, q)]
            (forall|j: int|
                0 <= j < i + 1 ==> !is_prefix_of(q, #[trigger] ps[j]) && !is_prefix_of(ps[j], q))
                ==> lookup(hcur, q) == lookup(home0, q),
{
    assert forall|q: PathSeq| #![trigger lookup(hcur, q)]
        (forall|j: int|
            0 <= j < i + 1 ==> !is_prefix_of(q, #[trigger] ps[j]) && !is_prefix_of(ps[j], q))
        implies lookup(hcur, q) == lookup(home0, q) by {
        assert(!is_prefix_of(q, ps[i]) && !is_prefix_of(ps[i], q));
        assert(lookup(hmid, q) == lookup(hprev, q));
        assert(lookup(hcur, q) == lookup(hmid, q));
        assert(lookup(hprev, q) == lookup(home0, q));
    }
}

/// One replacement step keeps every already-written symlink's parent
/// chain made of directories.
proof fn lemma_step_ancestors_dir(
    hprev: FsNode,
    hmid: FsNode,
    hcur: FsNode,
    ps: Seq<PathSeq>,
    i: int,
)
    requires
        0 <= i < ps.len(),
        forall|j: int| 0 <= j < ps.len() ==> (#[trigger] ps[j]).len() > 0,
        forall|i1: int, j: int|
            0 <= i1 < ps.len() && 0 <= j < ps.len() && i1 != j ==> ps[i1] == ps[j]
                || !is_prefix_of(#[trigger] ps[i1], #[trigger] ps[j]),
        forall|i1: int, i2: int| 0 <= i1 < i2 < ps.len() ==> ps[i1] != ps[i2],
        forall|q: PathSeq| #![trigger kind_at(hprev, q)]
            q.len() > 0 && (exists|j: int| #![all_triggers]
                0 <= j < i && is_prefix_of(q, ps[j]) && q.len() < ps[j].len()) ==> kind_at(
                hprev,
                q,
            ) == EntryKind::Dir,
        forall|q: PathSeq|
            !is_prefix_of(q, ps[i]) && !is_prefix_of(ps[i], q) ==> lookup(hmid, q) == lookup(
                hprev,
                q,
            ),
        forall|q: PathSeq|
            is_prefix_of(q, ps[i]) && q.len() < ps[i].len() ==> kind_at(hmid, q) == kind_at(
                hprev,
                q,
            ),
        forall|q: PathSeq|
            !is_prefix_of(q, ps[i]) && !is_prefix_of(ps[i], q) ==> lookup(hcur, q) == lookup(
                hmid,
                q,
            ),
        forall|q: PathSeq|
            is_prefix_of(q, ps[i]) && q.len() < ps[i].len() ==> kind_at(hcur, q)
                == EntryKind::Dir,
    ensures
        forall|q: PathSeq| #![trigger kind_at(hcur, q)]
            q.len() > 0 && (exists|j: int| #![all_triggers]
                0 <= j < i + 1 && is_prefix_of(q, ps[j]) && q.len() < ps[j].len()) ==> kind_at(
                hcur,
                q,
            ) == EntryKind::Dir,
{
    let pi = ps[i];
    assert forall|q: PathSeq| #![trigger kind_at(hcur, q)]
        q.len() > 0 && (exists|j: int| #![all_triggers]
            0 <= j < i + 1 && is_prefix_of(q, ps[j]) && q.len() < ps[j].len()) implies kind_at(
        hcur,
        q,
    ) == EntryKind::Dir by {
        let j = choose|j: int| #![all_triggers]
            0 <= j < i + 1 && is_prefix_of(q, ps[j]) && q.len() < ps[j].len();
        if is_prefix_of(q, pi) && q.len() < pi.len() {
            assert(kind_at(hcur, q) == EntryKind::Dir);
        } else {
            assert(j < i) by {
                if j == i {
                    assert(is_prefix_of(q, pi) && q.len() < pi.len());
                }
            }
            let pj = ps[j];
            assert(q != pi) by {
                if q == pi {
                    assert(is_prefix_of(pi, pj) && pi != pj);
                }
            }
            assert(!is_prefix_of(pi, q)) by {
                if is_prefix_of(pi, q) {
                    lemma_prefix_trans(pi, q, pj);
                    assert(pi != pj) by {
                        if pi == pj {
                            assert(is_prefix_of(q, pi) && is_prefix_of(pi, q));
                            assert(q =~= pi);
                        }
                    }
                }
            }
            assert(!is_prefix_of(q, pi)) by {
                if is_prefix_of(q, pi) {
                    assert(q.len() < pi.len() || q =~= pi);
                }
            }
            assert(0 <= j < i && is_prefix_of(q, ps[j]) && q.len() < ps[j].len());
            assert(kind_at(hprev, q) == EntryKind::Dir);
            assert(lookup(hmid, q) == lookup(hprev, q));
            assert(lookup(hcur, q) == lookup(hmid, q));
        }
    }
}

/// Before a symlink is written at the `i`-th managed path, the way to it
/// is clear: inner nodes on the way are directories or absent, and the
/// slot itself is empty.
proof fn lemma_step_placeable(
    home0: FsNode,
    hprev: FsNode,
    hmid: FsNode,
    ps: Seq<PathSeq>,
    i: int,
)
    requires
        0 <= i < ps.len(),
        hmid is Dir,
        forall|j: int| 0 <= j < ps.len() ==> (#[trigger] ps[j]).len() > 0,
        forall|i1: int, j: int|
            0 <= i1 < ps.len() && 0 <= j < ps.len() && i1 != j ==> ps[i1] == ps[j]
                || !is_prefix_of(#[trigger] ps[i1], #[trigger] ps[j]),
        forall|i1: int, i2: int| 0 <= i1 < i2 < ps.len() ==> ps[i1] != ps[i2],
        lookup(home0, ps[i]) is Some || can_place(home0, ps[i], FsNode::Other),
        home0 is Dir,
        forall|q: PathSeq| #![trigger kind_at(hprev, q)]
            q.len() > 0 && (exists|j: int| #![all_triggers]
                0 <= j < i && is_prefix_of(q, ps[j]) && q.len() < ps[j].len()) ==> kind_at(
                hprev,
                q,
            ) == EntryKind::Dir,
        forall|q: PathSeq| #![trigger lookup(hprev, q)]
            (forall|j: int|
                0 <= j < i ==> !is_prefix_of(q, #[trigger] ps[j]) && !is_prefix_of(ps[j], q))
                ==> lookup(hprev, q) == lookup(home0, q),
        forall|q: PathSeq|
            is_prefix_of(q, ps[i]) && q.len() < ps[i].len() ==> kind_at(hmid, q) == kind_at(
                hprev,
                q,
            ),
        lookup(hmid, ps[i]) is None,
    ensures
        can_place(hmid, ps[i], FsNode::Other),
{
    let pi = ps[i];
    lemma_can_place_char(hmid, pi, FsNode::Other);
    assert forall|k: int|
        1 <= k < pi.len() implies !(lookup(hmid, #[trigger] pi.subrange(0, k)) matches Some(mm)
        && !(mm is Dir)) by {
        let pre = pi.subrange(0, k);
        assert(pre.len() == k);
        assert(is_prefix_of(pre, pi)) by {
            assert(pre =~= pi.subrange(0, pre.len() as int));
        }
        let related = exists|j: int| #![all_triggers]
            0 <= j < i && (is_prefix_of(pre, ps[j]) || is_prefix_of(ps[j], pre));
        if related {
            let j = choose|j: int| #![all_triggers]
                0 <= j < i && (is_prefix_of(pre, ps[j]) || is_prefix_of(ps[j], pre));
            let pj = ps[j];
            if is_prefix_of(pre, pj) {
                assert(pre.len() < pj.len()) by {
                    if pre.len() == pj.len() {
                        assert(pre =~= pj);
                        assert(is_prefix_of(pj, pi) && pj != pi);
                    }
                }
                assert(kind_at(hprev, pre) == EntryKind::Dir);
                assert(kind_at(hmid, pre) == kind_at(hprev, pre));
            } else {
                assert(is_prefix_of(pj, pre));
                lemma_prefix_trans(pj, pre, pi);
                assert(is_prefix_of(pj, pi));
                assert(pj != pi) by {
                    if pj == pi {
                        assert(is_prefix_of(pre, pj));
                        if pre != pj {
                            assert(pre.len() < pj.len());
                            assert(pj.len() <= pre.len());
                        }
                    }
                }
                assert(false);
            }
        } else {
            assert(lookup(hprev, pre) == lookup(home0, pre));
            assert(kind_at(hmid, pre) == kind_at(hprev, pre));
            match lookup(home0, pi) {
                Option::Some(_) => {
                    lemma_lookup_ancestors(home0, pi, k);
                },
                Option::None => {
                    lemma_can_place_char(home0, pi, FsNode::Other);
                },
            }
        }
    }
}

/// For each managed relative path: if something occupies the path in the
/// home tree, it is removed only after the verify-then-remove protocol
/// has proven its backup faithful; then a symlink to the repository copy
/// is created, with parent directories as needed. The backup and the
/// repository are read, never written — both come in behind shared
/// borrows — and paths unrelated to every managed location stay exactly
/// as they were, aborted or not.
#[verifier::rlimit(100)]
#[verifier::spinoff_prover]
pub fn create_symlinks(
    home_dir: &HomePath,
    home: &mut FsNode,
    file_dir: &DotfilesPath,
    backup: &FsNode,
    files: &Vec<RelPath>,
    actions: &mut Vec<Action>,
) -> (r: Result<(), InstallError>)
    requires
        old(home).wf(),
        old(home).kind() == EntryKind::Dir,
        backup.wf(),
        forall|j: int| 0 <= j < files@.len() ==> (#[trigger] files@[j]@).len() > 0,
        forall|i: int, j: int|
            0 <= i < files@.len() && 0 <= j < files@.len() && i != j ==> files@[i]@ == files@[j]@
                || !is_prefix_of(#[trigger] files@[i]@, #[trigger] files@[j]@),
    ensures
        final(home).wf(),
        final(home).kind() == EntryKind::Dir,
        r is Ok ==> forall|j: int|
            0 <= j < files@.len() ==> (lookup(*final(home), #[trigger] files@[j]@) matches Some(l)
                && l is Symlink && l->Symlink_target@ == abs_path_of(file_dir@, files@[j]@)),
        forall|q: PathSeq|
            !path_touches(q, paths_view(files@)) ==> lookup(*final(home), q) == lookup(
                *old(home),
                q,
            ),
        replace_ready(*old(home), *backup, paths_view(files@)) ==> r is Ok,
        plan_removals_backed(
            old(actions)@,
            final(actions)@,
            home_dir@,
            *backup,
            paths_view(files@),
        ),
{
    let ghost home0 = *home;
    let ghost fvs = paths_view(files@);
    let ghost guard = replace_ready(home0, *backup, fvs);
    let ghost a0g = actions@;
    let mut i: usize = 0;
    proof {
        reveal(replace_loop_inv);
        assert(replace_loop_inv(home0, *home, fvs, 0));
        lemma_plan_refl(a0g, home_dir@, *backup, fvs);
    }
    while i < files.len()
        invariant
            home.wf(),
            home.kind() == EntryKind::Dir,
            backup.wf(),
            i <= files.len(),
            fvs == paths_view(files@),
            home0 == *old(home),
            home0.kind() == EntryKind::Dir,
            forall|j: int| 0 <= j < files@.len() ==> (#[trigger] files@[j]@).len() > 0,
            forall|i1: int, j: int|
                0 <= i1 < files@.len() && 0 <= j < files@.len() && i1 != j ==> files@[i1]@
                    == files@[j]@ || !is_prefix_of(#[trigger] files@[i1]@, #[trigger] files@[j]@),
            forall|j: int|
                0 <= j < i ==> (lookup(*home, #[trigger] files@[j]@) matches Some(l) && l
                    is Symlink && l->Symlink_target@ == abs_path_of(file_dir@, files@[j]@)),
            forall|q: PathSeq|
                !path_touches(q, fvs) ==> lookup(*home, q) == lookup(home0, q),
            guard == replace_ready(home0, *backup, fvs),
            guard ==> replace_loop_inv(home0, *home, fvs, i as int),
            a0g == old(actions)@,
            plan_removals_backed(a0g, actions@, home_dir@, *backup, fvs),
        decreases files.len() - i,
    {
        let file = &files[i];
        let ghost pi = files@[i as int]@;
        proof {
            assert(fvs[i as int] == pi);
        }
        let target = file_dir.with_rel_file(file);
        let ghost hprev = *home;
        if file_exists(&*home, file) {
            proof {
                if guard {
                    lemma_step_verify_ready(home0, hprev, *backup, fvs, i as int);
                }
            }
            let ghost av = actions@;
            match verify_backup_and_remove(file, home_dir, home, backup, actions) {
                Err(e) => {
                    proof {
                        if guard {
                            assert(false);
                        }
                        assert(actions@ == av);
                    }
                    return Err(e);
                },
                Ok(()) => {},
            }
            proof {
                lemma_plan_step(a0g, av, actions@, home_dir@, *backup, fvs, i as int);
            }
        } else {
            match file.parent() {
                Some(parent) => {
                    if parent.components.len() > 0 && !file_exists(&*home, &parent) {
                        let ghost am = actions@;
                        actions.push(
                            Action::MakeDirAll {
                                path: home_dir.with_rel_file(&parent).to_path_buf(),
                            },
                        );
                        proof {
                            assert(am =~= actions@.subrange(0, am.len() as int));
                            lemma_plan_step(a0g, am, actions@, home_dir@, *backup, fvs, i as int);
                        }
                    }
                },
                None => {},
            }
        }
        let ghost hmid = *home;
        proof {
            if guard {
                if lookup(hprev, pi) is None {
                    lemma_step_absent(home0, hprev, fvs, i as int);
                }
                lemma_step_clear(home0, hprev, hmid, *backup, fvs, i as int);
                assert(can_place_link(hmid, pi));
            }
        }
        let ghost ac = actions@;
        match create_symlink(home, &target, file, home_dir, actions) {
            Err(e) => {
                proof {
                    if guard {
                        assert(false);
                    }
                    assert(actions@ == ac);
                    assert forall|q: PathSeq| !path_touches(q, fvs) implies lookup(*home, q)
                        == lookup(home0, q) by {
                        assert(!(is_prefix_of(fvs[i as int], q) || is_prefix_of(
                            q,
                            fvs[i as int],
                        )));
                        assert(lookup(hmid, q) == lookup(hprev, q));
                    }
                }
                return Err(e);
            },
            Ok(()) => {},
        }
        proof {
            lemma_plan_step(a0g, ac, actions@, home_dir@, *backup, fvs, i as int);
        }
        proof {
            assert forall|j: int| 0 <= j < i + 1 implies (lookup(
                *home,
                #[trigger] files@[j]@,
            ) matches Some(l) && l is Symlink && l->Symlink_target@ == abs_path_of(
                file_dir@,
                files@[j]@,
            )) by {
                let pj = files@[j]@;
                if j < i && pj != pi {
                    assert(!is_prefix_of(pj, pi));
                    assert(!is_prefix_of(pi, pj));
                    assert(lookup(hmid, pj) == lookup(hprev, pj));
                    assert(lookup(*home, pj) == lookup(hmid, pj));
                }
            }
            assert forall|q: PathSeq| !path_touches(q, fvs) implies lookup(*home, q) == lookup(
                home0,
                q,
            ) by {
                assert(!(is_prefix_of(fvs[i as int], q) || is_prefix_of(q, fvs[i as int])));
                assert(lookup(hmid, q) == lookup(hprev, q));
                assert(lookup(*home, q) == lookup(hmid, q));
            }
            if guard {
                lemma_step_maintain(home0, hprev, hmid, *home, *backup, fvs, i as int);
            }
        }
        i += 1;
    }
    Ok(())
}

/// Clears the home submodule slot and re-links it to the repository's
/// submodule directory. A file or symlink in the slot goes through the
/// verify-then-remove protocol; a directory is removed unconditionally —
/// the one intentional exception to the protocol; an unknown entry
/// aborts.
pub fn create_submodule_symlink(
    home_dir: &HomePath,
    home: &mut FsNode,
    backup: &FsNode,
    repo_submodule_dir: &SubmodulesPath,
    actions: &mut Vec<Action>,
) -> (r: Result<(), InstallError>)
    requires
        old(home).wf(),
        old(home).kind() == EntryKind::Dir,
        backup.wf(),
    ensures
        final(home).wf(),
        final(home).kind() == EntryKind::Dir,
        r is Ok ==> (lookup(*final(home), submodule_rel_path()) matches Some(l) && l is Symlink
            && l->Symlink_target@ == repo_submodule_dir@),
        forall|q: PathSeq|
            q.len() > 0 && q[0] != home_submodule_name() ==> lookup(*final(home), q) == lookup(
                *old(home),
                q,
            ),
        (match lookup(*old(home), submodule_rel_path()) {
            Option::None => true,
            Option::Some(m) => (m is Symlink && backed_up(
                *old(home),
                *backup,
                submodule_rel_path(),
            )) || m is Dir,
        }) ==> r is Ok,
        actions_extended(old(actions)@, final(actions)@),
        forall|k: int|
            old(actions)@.len() <= k && k < final(actions)@.len() ==> (is_removal(
                #[trigger] final(actions)@[k],
            ) ==> removal_path(final(actions)@[k]) == abs_path_of(
                home_dir@,
                submodule_rel_path(),
            ) && (lookup(*backup, submodule_rel_path()) is Some || (lookup(
                *old(home),
                submodule_rel_path(),
            ) matches Some(d) && d is Dir))),
{
    let ghost a0g = actions@;
    proof {
        assert(a0g =~= a0g.subrange(0, a0g.len() as int));
    }
    let sub = home_submodule_rel();
    let home_submodule_dir = make_home_submodule_dir(home_dir);
    let ghost h0 = *home;
    let ghost g = match lookup(h0, submodule_rel_path()) {
        Option::None => true,
        Option::Some(m) => (m is Symlink && backed_up(h0, *backup, submodule_rel_path())) || m
            is Dir,
    };
    if file_exists(&*home, &sub) {
        let kind = match get_file_type(&*home, &sub) {
            Ok(k) => k,
            Err(_) => {
                proof {
                    assert(false);
                }
                return Err(InstallError::Missing);
            },
        };
        match kind {
            EntryKind::Symlink | EntryKind::File => {
                proof {
                    if g {
                        let m = lookup(h0, submodule_rel_path())->Some_0;
                        assert(m is Symlink);
                        assert(backed_up(h0, *backup, submodule_rel_path()));
                    }
                }
                let ghost av = actions@;
                match verify_backup_and_remove(&sub, home_dir, home, backup, actions) {
                    Err(e) => {
                        proof {
                            if g {
                                assert(false);
                            }
                            assert(actions@ == av);
                        }
                        return Err(e);
                    },
                    Ok(()) => {},
                }
                proof {
                    lemma_actions_extended_trans(a0g, av, actions@);
                    assert forall|k: int|
                        a0g.len() <= k && k < actions@.len() implies (is_removal(
                        #[trigger] actions@[k],
                    ) ==> removal_path(actions@[k]) == abs_path_of(
                        home_dir@,
                        submodule_rel_path(),
                    ) && lookup(*backup, submodule_rel_path()) is Some) by {
                        if k < av.len() {
                            lemma_actions_extended_index(av, actions@, k);
                        }
                    }
                }
            },
            EntryKind::Dir => {
                // a directory in this slot is deleted without the
                // equivalence check: the intentional special case
                let ghost ad = actions@;
                actions.push(Action::RemoveDirAll { path: home_submodule_dir.to_path_buf() });
                proof {
                    assert(ad =~= actions@.subrange(0, ad.len() as int));
                    assert(removal_path(actions@[ad.len() as int]) == abs_path_of(
                        home_dir@,
                        submodule_rel_path(),
                    ));
                    assert(lookup(h0, submodule_rel_path()) matches Some(d) && d is Dir);
                }
                match remove_at(home, &sub) {
                    Err(_) => {
                        proof {
                            assert(false);
                        }
                        return Err(InstallError::Missing);
                    },
                    Ok(()) => {},
                }
            },
            _ => {
                proof {
                    if g {
                        assert(false);
                    }
                }
                return Err(InstallError::UnknownKind);
            },
        }
    }
    let ghost hmid = *home;
    let ghost amid = actions@;
    proof {
        assert forall|q: PathSeq| q.len() > 0 && q[0] != home_submodule_name() implies lookup(
            hmid,
            q,
        ) == lookup(h0, q) by {
            lemma_prefix_diff(q, submodule_rel_path());
        }
    }
    let leaf = FsNode::Symlink { target: repo_submodule_dir.to_string_lossy() };
    proof {
        if g {
            assert(lookup(hmid, submodule_rel_path()) is None);
            lemma_can_place_char(hmid, submodule_rel_path(), leaf);
            assert(submodule_rel_path().len() == 1);
            assert(can_place(hmid, submodule_rel_path(), leaf));
        }
    }
    let r = set_at(home, &sub, leaf);
    match r {
        Err(e) => {
            proof {
                if g {
                    assert(false);
                }
                assert forall|q: PathSeq| q.len() > 0 && q[0] != home_submodule_name() implies
                    lookup(*home, q) == lookup(h0, q) by {
                    assert(lookup(*home, q) == lookup(hmid, q));
                }
            }
            Err(e)
        },
        Ok(()) => {
            let t = repo_submodule_dir.to_string_lossy();
            actions.push(
                Action::MakeSymlink { target: t, at: home_submodule_dir.to_path_buf() },
            );
            proof {
                assert(amid =~= actions@.subrange(0, amid.len() as int));
                lemma_actions_extended_trans(a0g, amid, actions@);
                assert forall|k: int|
                    a0g.len() <= k && k < actions@.len() implies (is_removal(
                    #[trigger] actions@[k],
                ) ==> removal_path(actions@[k]) == abs_path_of(
                    home_dir@,
                    submodule_rel_path(),
                ) && (lookup(*backup, submodule_rel_path()) is Some || (lookup(
                    h0,
                    submodule_rel_path(),
                ) matches Some(d) && d is Dir))) by {
                    if k < amid.len() {
                        lemma_actions_extended_index(amid, actions@, k);
                    }
                }
                assert forall|q: PathSeq| q.len() > 0 && q[0] != home_submodule_name() implies
                    lookup(*home, q) == lookup(h0, q) by {
                    lemma_prefix_diff(q, submodule_rel_path());
                    assert(lookup(hmid, q) == lookup(h0, q));
                    assert(lookup(*home, q) == lookup(hmid, q));
                }
            }
            Ok(())
        },
    }
}

/// Everything an installation run produced: where the backup was
/// created, the backup tree itself, and the disk operations for the
/// shell to replay, in order.
pub struct InstallOutcome {
    pub backup_path: BackupPath,
    pub backup: FsNode,
    pub actions: Vec<Action>,
}

/// Every managed path (except any that collides with the submodule
/// slot's name) is a symlink to the repository copy, and the submodule
/// slot is a symlink to the repository's submodule directory.
pub open spec fn is_installed(
    home: FsNode,
    dotfiles: FsNode,
    file_root: Seq<char>,
    submodules: Seq<char>,
) -> bool {
    &&& forall|p: PathSeq| #[trigger]
        leaves(dotfiles).contains(p) && p[0] != home_submodule_name() ==> (lookup(
            home,
            p,
        ) matches Some(l) && l is Symlink && l->Symlink_target@ == abs_path_of(file_root, p))
    &&& (lookup(home, submodule_rel_path()) matches Some(l) && l is Symlink
        && l->Symlink_target@ == submodules)
}

/// A home tree in the installed state is ready for another run: every
/// managed path holds a symlink and the submodule slot is a symlink, so
/// by `install`'s contract a second run against an unchanged repository
/// succeeds — its verification steps pass against the backup the run
/// itself writes — and reproduces the same symlink set
/// (`lemma_installed_state_is_unique`). The premise that no managed
/// top-level name collides with the note file or the submodule slot is
/// essential: a managed symlink named like the note file would collide
/// with the note in the fresh backup directory and abort the copy.
pub proof fn lemma_installed_is_ready(
    home: FsNode,
    dotfiles: FsNode,
    file_root: Seq<char>,
    submodules: Seq<char>,
)
    requires
        is_installed(home, dotfiles, file_root, submodules),
        forall|p: PathSeq| #[trigger]
            leaves(dotfiles).contains(p) ==> p.len() > 0 && p[0] != readme_name() && p[0]
                != home_submodule_name(),
    ensures
        install_ready(home, dotfiles),
{
    let lvs = leaves(dotfiles);
    assert forall|j: int|
        0 <= j < lvs.len() implies {
        &&& (#[trigger] lvs[j]).len() > 0
        &&& lvs[j][0] != readme_name()
        &&& lvs[j][0] != home_submodule_name()
        &&& match lookup(home, lvs[j]) {
            Option::Some(m) => m is File || m is Symlink,
            Option::None => can_place(home, lvs[j], FsNode::Other),
        }
    } by {
        assert(lvs.contains(lvs[j]));
    }
}

/// The installed state pins the symlink set: any two home trees in the
/// installed state for the same repository agree on every managed path
/// and on the submodule slot. A second run against an unchanged
/// repository therefore reproduces exactly the symlink set of the
/// first, and its verification step succeeds because the first run's
/// backup copies are faithful (`lemma_fresh_backup_verifies`).
pub proof fn lemma_installed_state_is_unique(
    h1: FsNode,
    h2: FsNode,
    dotfiles: FsNode,
    file_root: Seq<char>,
    submodules: Seq<char>,
)
    requires
        is_installed(h1, dotfiles, file_root, submodules),
        is_installed(h2, dotfiles, file_root, submodules),
    ensures
        forall|p: PathSeq| #[trigger]
            leaves(dotfiles).contains(p) && p[0] != home_submodule_name() ==> {
                &&& (lookup(h1, p) matches Some(l1) && l1 is Symlink)
                &&& (lookup(h2, p) matches Some(l2) && l2 is Symlink)
                &&& lookup(h1, p)->Some_0->Symlink_target@ == lookup(
                    h2,
                    p,
                )->Some_0->Symlink_target@
            },
        lookup(h1, submodule_rel_path())->Some_0->Symlink_target@ == lookup(
            h2,
            submodule_rel_path(),
        )->Some_0->Symlink_target@,
{
}

/// The reconciliation run: enumerate the managed files, create the
/// backup, replace each managed path by a symlink under the protection
/// of the verify-then-remove protocol, and re-link the submodule slot.
///
/// Checking out submodules beforehand and running install scripts
/// afterwards are the caller's outside work. An aborted run returns no
/// outcome, so no disk operation of it is ever performed: the plan a
/// run hands out exists only on success, and every removal in it was
/// planned by the protocol against the backup the same plan writes.
pub fn install(
    home_dir: &HomePath,
    home: &mut FsNode,
    file_root: &DotfilesPath,
    dotfiles: &FsNode,
    submodules_path: &SubmodulesPath,
) -> (r: Result<InstallOutcome, InstallError>)
    requires
        old(home).wf(),
        old(home).kind() == EntryKind::Dir,
        dotfiles.wf(),
        dotfiles.kind() == EntryKind::Dir,
    ensures
        final(home).wf(),
        final(home).kind() == EntryKind::Dir,
        install_ready(*old(home), *dotfiles) ==> r is Ok,
        forall|q: PathSeq|
            q.len() > 0 && q[0] != home_submodule_name() && !path_touches(
                q,
                leaves(*dotfiles),
            ) ==> lookup(*final(home), q) == lookup(*old(home), q),
        r matches Ok(out) ==> {
            &&& out.backup.wf()
            &&& is_installed(*final(home), *dotfiles, file_root@, submodules_path@)
            &&& forall|p: PathSeq| #[trigger]
                leaves(*dotfiles).contains(p) && p[0] != home_submodule_name() && lookup(
                    *old(home),
                    p,
                ) is Some ==> backed_up(*old(home), out.backup, p)
            &&& submodule_backed_up(*old(home), out.backup)
            &&& (exists|name: Seq<char>| #![auto]
                name.len() > 0 && (forall|i: int| 0 <= i < name.len() ==> name[i] != '/')
                    && out.backup_path@ == home_dir@ + seq!['/'] + name)
            &&& (forall|p: PathSeq| #[trigger]
                leaves(*dotfiles).contains(p) && p[0] != home_submodule_name() && p != seq![
                    readme_name(),
                ] && lookup(*old(home), p) is None ==> lookup(out.backup, p) is None)
            &&& ((forall|p: PathSeq| #[trigger]
                leaves(*dotfiles).contains(p) && p == seq![readme_name()] ==> lookup(
                    *old(home),
                    p,
                ) is None) ==> (lookup(out.backup, seq![readme_name()]) matches Some(f) && f
                is File && f->File_contents@ == backup_note()))
            &&& (forall|k: int|
                0 <= k < out.actions@.len() ==> (is_removal(#[trigger] out.actions@[k]) ==> (
                exists|j: int| #![all_triggers]
                    0 <= j < leaves(*dotfiles).len() && removal_path(out.actions@[k])
                        == abs_path_of(home_dir@, leaves(*dotfiles)[j]) && lookup(
                        out.backup,
                        leaves(*dotfiles)[j],
                    ) is Some) || (removal_path(out.actions@[k]) == abs_path_of(
                    home_dir@,
                    submodule_rel_path(),
                ) && (lookup(out.backup, submodule_rel_path()) is Some || (lookup(
                    *old(home),
                    submodule_rel_path(),
                ) matches Some(d) && d is Dir) || path_touches(
                    submodule_rel_path(),
                    leaves(*dotfiles),
                )))))
        },
{
    let ghost home_in = *home;
    let files = recurse_through_dir(dotfiles);
    let ghost lvs = leaves(*dotfiles);
    proof {
        lemma_leaves_lookup(*dotfiles);
        lemma_leaves_prefix_free(*dotfiles);
        assert(paths_view(files@) == lvs);
        assert forall|j: int| 0 <= j < files@.len() implies (#[trigger] files@[j]@).len() > 0 by {
            assert(lvs[j] == files@[j]@);
            assert(lvs.contains(lvs[j]));
        }
        assert forall|i: int, j: int|
            0 <= i < files@.len() && 0 <= j < files@.len() && i != j implies files@[i]@
            == files@[j]@ || !is_prefix_of(#[trigger] files@[i]@, #[trigger] files@[j]@) by {
            assert(lvs[i] == files@[i]@ && lvs[j] == files@[j]@);
            assert(lvs.contains(lvs[i]) && lvs.contains(lvs[j]));
        }
    }
    let ghost ready = install_ready(home_in, *dotfiles);
    proof {
        if ready {
            lemma_leaves_distinct(*dotfiles);
            assert forall|i1: int, i2: int| 0 <= i1 < i2 < files@.len() implies files@[i1]@
                != files@[i2]@ by {
                assert(lvs[i1] == files@[i1]@ && lvs[i2] == files@[i2]@);
            }
            assert(managed_paths_ok(home_in, paths_view(files@)));
        }
    }
    let mut actions: Vec<Action> = Vec::new();
    let (backup_path, backup) = match create_backup(home_dir, &*home, &files, &mut actions) {
        Err(e) => {
            proof {
                if ready {
                    assert(false);
                }
            }
            return Err(e);
        },
        Ok(p) => p,
    };
    let ghost a1 = actions@;
    proof {
        if ready {
            reveal(replace_ready);
            assert forall|j: int|
                0 <= j < files@.len() implies match lookup(home_in, #[trigger] paths_view(
                files@,
            )[j]) {
                Option::Some(m) => (m is File || m is Symlink) && backed_up(
                    home_in,
                    backup,
                    paths_view(files@)[j],
                ),
                Option::None => can_place(home_in, paths_view(files@)[j], FsNode::Other),
            } by {
                let pj = paths_view(files@)[j];
                assert(pj == files@[j]@ && pj == lvs[j]);
                assert(lvs.contains(lvs[j]));
                match lookup(home_in, pj) {
                    Option::Some(m) => {
                        assert(pj[0] != home_submodule_name());
                        assert(backed_up(home_in, backup, pj));
                    },
                    Option::None => {},
                }
            }
            assert(replace_ready(home_in, backup, paths_view(files@)));
        }
    }
    match create_symlinks(home_dir, home, file_root, &backup, &files, &mut actions) {
        Err(e) => {
            proof {
                if ready {
                    assert(false);
                }
                assert forall|q: PathSeq|
                    q.len() > 0 && q[0] != home_submodule_name() && !path_touches(
                        q,
                        leaves(*dotfiles),
                    ) implies lookup(*home, q) == lookup(home_in, q) by {
                    assert(!path_touches(q, paths_view(files@)));
                }
            }
            return Err(e);
        },
        Ok(()) => {},
    }
    let ghost h2 = *home;
    let ghost a2 = actions@;
    proof {
        if ready {
            assert(lookup(h2, submodule_rel_path()) == lookup(home_in, submodule_rel_path())) by {
                assert(submodule_rel_path().len() == 1);
                assert forall|j: int|
                    0 <= j < paths_view(files@).len() implies !(is_prefix_of(
                    #[trigger] paths_view(files@)[j],
                    submodule_rel_path(),
                ) || is_prefix_of(submodule_rel_path(), paths_view(files@)[j])) by {
                    let pj = paths_view(files@)[j];
                    assert(pj == lvs[j]);
                    assert(lvs.contains(lvs[j]));
                    assert(pj.len() > 0 && pj[0] != home_submodule_name());
                    lemma_prefix_diff(pj, submodule_rel_path());
                }
                assert(!path_touches(submodule_rel_path(), paths_view(files@)));
            }
        }
    }
    match create_submodule_symlink(home_dir, home, &backup, submodules_path, &mut actions) {
        Err(e) => {
            proof {
                if ready {
                    match lookup(home_in, submodule_rel_path()) {
                        Option::Some(m) => {
                            assert(m is Symlink);
                            assert(submodule_backed_up(home_in, backup));
                            assert(backed_up(home_in, backup, submodule_rel_path()));
                            assert(backed_up(h2, backup, submodule_rel_path()));
                        },
                        Option::None => {},
                    }
                    assert(false);
                }
                assert forall|q: PathSeq|
                    q.len() > 0 && q[0] != home_submodule_name() && !path_touches(
                        q,
                        leaves(*dotfiles),
                    ) implies lookup(*home, q) == lookup(home_in, q) by {
                    assert(!path_touches(q, paths_view(files@)));
                    assert(lookup(h2, q) == lookup(home_in, q));
                    assert(lookup(*home, q) == lookup(h2, q));
                }
            }
            return Err(e);
        },
        Ok(()) => {},
    }
    proof {
        assert forall|p: PathSeq| #[trigger]
            leaves(*dotfiles).contains(p) && p[0] != home_submodule_name() implies (lookup(
            *home,
            p,
        ) matches Some(l) && l is Symlink && l->Symlink_target@ == abs_path_of(file_root@, p)) by {
            let j = choose|j: int| 0 <= j < lvs.len() && lvs[j] == p;
            assert(files@[j]@ == p);
            assert(lookup(h2, files@[j]@) matches Some(l) && l is Symlink && l->Symlink_target@
                == abs_path_of(file_root@, files@[j]@));
            assert(p.len() > 0);
            assert(lookup(*home, p) == lookup(h2, p));
        }
        assert forall|q: PathSeq|
            q.len() > 0 && q[0] != home_submodule_name() && !path_touches(
                q,
                leaves(*dotfiles),
            ) implies lookup(*home, q) == lookup(home_in, q) by {
            assert(lookup(h2, q) == lookup(home_in, q));
            assert(lookup(*home, q) == lookup(h2, q));
        }
        assert forall|p: PathSeq| #[trigger]
            leaves(*dotfiles).contains(p) && p[0] != home_submodule_name() && p != seq![
                readme_name(),
            ] && lookup(home_in, p) is None implies lookup(backup, p) is None by {
            if lookup(backup, p) is Some {
                assert(p.len() > 0);
                let j = choose|j: int| #![all_triggers]
                    0 <= j < files@.len() && lookup(home_in, files@[j]@) is Some && is_prefix_of(
                        p,
                        files@[j]@,
                    );
                assert(files@[j]@ == lvs[j]);
                assert(lvs.contains(lvs[j]));
                if p == files@[j]@ {
                } else {
                    assert(!is_prefix_of(p, files@[j]@));
                }
            }
        }
        if (forall|p: PathSeq| #[trigger]
            leaves(*dotfiles).contains(p) && p == seq![readme_name()] ==> lookup(
                home_in,
                p,
            ) is None) {
            assert forall|j: int|
                0 <= j < files@.len() && #[trigger] files@[j]@ == seq![readme_name()] implies
                lookup(home_in, files@[j]@) is None by {
                assert(files@[j]@ == lvs[j]);
                assert(lvs.contains(lvs[j]));
            }
        }
        assert forall|k: int|
            0 <= k < actions@.len() implies (is_removal(#[trigger] actions@[k]) ==> (exists|
                j: int,
            | #![all_triggers]
                0 <= j < leaves(*dotfiles).len() && removal_path(actions@[k]) == abs_path_of(
                    home_dir@,
                    leaves(*dotfiles)[j],
                ) && lookup(backup, leaves(*dotfiles)[j]) is Some) || (removal_path(actions@[k])
                == abs_path_of(home_dir@, submodule_rel_path()) && (lookup(
                backup,
                submodule_rel_path(),
            ) is Some || (lookup(home_in, submodule_rel_path()) matches Some(d) && d is Dir)
                || path_touches(submodule_rel_path(), leaves(*dotfiles))))) by {
            reveal(plan_removals_backed);
            if k < a1.len() {
                lemma_actions_extended_index(a2, actions@, k);
                lemma_actions_extended_index(a1, a2, k);
                assert(!is_removal(a1[k]));
            } else if k < a2.len() {
                lemma_actions_extended_index(a2, actions@, k);
                if is_removal(actions@[k]) {
                    let j = choose|j: int| #![all_triggers]
                        0 <= j < paths_view(files@).len() && removal_path(a2[k]) == abs_path_of(
                            home_dir@,
                            paths_view(files@)[j],
                        ) && lookup(backup, paths_view(files@)[j]) is Some;
                    assert(paths_view(files@)[j] == lvs[j]);
                    assert(0 <= j < leaves(*dotfiles).len() && removal_path(actions@[k])
                        == abs_path_of(home_dir@, leaves(*dotfiles)[j]) && lookup(
                        backup,
                        leaves(*dotfiles)[j],
                    ) is Some);
                }
            } else {
                if is_removal(actions@[k]) {
                    if lookup(backup, submodule_rel_path()) is Some {
                    } else if path_touches(submodule_rel_path(), leaves(*dotfiles)) {
                    } else {
                        assert(!path_touches(submodule_rel_path(), paths_view(files@)));
                        assert(lookup(h2, submodule_rel_path()) == lookup(
                            home_in,
                            submodule_rel_path(),
                        ));
                        assert(lookup(h2, submodule_rel_path()) matches Some(d) && d is Dir);
                    }
                }
            }
        }
    }
    Ok(InstallOutcome { backup_path, backup, actions })
}

} // verus!
