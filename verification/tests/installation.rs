use dotfiles_installer::fs_model::{
    classify, file_exists, is_symlink, lookup_node, recurse_through_dir, DirEntry, FsNode,
};
use dotfiles_installer::install::{
    backup_file, create_backup, install, verify_backup_and_remove, Action,
};
use dotfiles_installer::paths::{BackupPath, DotfilesPath, HomePath, RelPath, SubmodulesPath};
use dotfiles_installer::{EntryKind, InstallError};

fn file(contents: &str) -> FsNode {
    FsNode::File { contents: contents.as_bytes().to_vec() }
}

fn link(target: &str) -> FsNode {
    FsNode::Symlink { target: target.to_string() }
}

fn dir(children: Vec<(&str, FsNode)>) -> FsNode {
    let mut entries = Vec::new();
    for (name, node) in children {
        entries.push(DirEntry { name: name.to_string(), node });
    }
    FsNode::Dir { entries }
}

fn rel(parts: &[&str]) -> RelPath {
    let mut components = Vec::new();
    for p in parts {
        components.push(p.to_string());
    }
    RelPath::new(components)
}

fn link_target_at(tree: &FsNode, parts: &[&str]) -> Option<String> {
    match lookup_node(tree, &rel(parts)) {
        Some(FsNode::Symlink { target }) => Some(target.clone()),
        _ => None,
    }
}

fn file_contents_at(tree: &FsNode, parts: &[&str]) -> Option<Vec<u8>> {
    match lookup_node(tree, &rel(parts)) {
        Some(FsNode::File { contents }) => Some(contents.clone()),
        _ => None,
    }
}

#[test]
fn enumeration_yields_every_leaf_and_no_directory() {
    // a nested tree with five leaves across three levels
    let tree = dir(vec![
        ("a", file("1")),
        ("d1", dir(vec![("b", file("2")), ("d2", dir(vec![("c", file("3")), ("l", link("t"))]))])),
        ("e", link("u")),
        ("empty", dir(vec![])),
    ]);
    let leaves = recurse_through_dir(&tree);
    assert_eq!(leaves.len(), 5);
    for p in &leaves {
        let node = lookup_node(&tree, p).expect("every enumerated path leads to an entry");
        assert!(!matches!(node, FsNode::Dir { .. }));
    }
}

#[test]
fn classification_does_not_follow_symlinks() {
    let tree = dir(vec![("dangling", link("nowhere")), ("f", file("x"))]);
    assert_eq!(classify(&tree, &rel(&["dangling"])), EntryKind::Symlink);
    assert_eq!(classify(&tree, &rel(&["f"])), EntryKind::File);
    assert_eq!(classify(&tree, &rel(&["missing"])), EntryKind::Absent);
    assert!(file_exists(&tree, &rel(&["dangling"])));
    assert!(is_symlink(&tree, &rel(&["dangling"])));
    assert!(!is_symlink(&tree, &rel(&["f"])));
}

#[test]
fn each_failure_names_its_cause() {
    let home_dir = HomePath::new("/home/user".to_string());
    let mut actions: Vec<Action> = Vec::new();

    // a missing backup entry cannot even be examined
    let mut home = dir(vec![("a", file("x"))]);
    let r = verify_backup_and_remove(&rel(&["a"]), &home_dir, &mut home, &dir(vec![]), &mut actions);
    assert_eq!(r.unwrap_err(), InstallError::Missing);

    // a backup that differs fails the equivalence proof
    let backup = dir(vec![("a", file("y"))]);
    let r = verify_backup_and_remove(&rel(&["a"]), &home_dir, &mut home, &backup, &mut actions);
    assert_eq!(r.unwrap_err(), InstallError::NotBackedUp);

    // an entry of unknown kind at a managed path cannot be copied
    let weird = dir(vec![("a", FsNode::Other)]);
    let backup_dir = BackupPath::new("/home/user/backup".to_string());
    let mut bt = dir(vec![]);
    let r = backup_file(&rel(&["a"]), &home_dir, &weird, &backup_dir, &mut bt, &mut actions);
    assert_eq!(r.unwrap_err(), InstallError::UnknownKind);

    // a regular file standing where a managed path needs a directory
    // blocks symlink creation
    let mut home2 = dir(vec![("a", file("in the way"))]);
    let dotfiles = dir(vec![("a", dir(vec![("b", file("x"))]))]);
    let file_root = DotfilesPath::new("/repo/files".to_string());
    let subs = SubmodulesPath::new("/repo/submodules".to_string());
    match install(&home_dir, &mut home2, &file_root, &dotfiles, &subs) {
        Err(e) => assert_eq!(e, InstallError::Conflict),
        Ok(_) => panic!("installation over a conflicting file must abort"),
    }
}

#[test]
fn verify_before_delete_is_absolute() {
    // a home entry with no corresponding backup entry: the protocol must
    // abort and must not delete the home entry
    let mut home = dir(vec![("a", file("precious"))]);
    let backup = dir(vec![]);
    let home_dir = HomePath::new("/home/user".to_string());
    let mut actions: Vec<Action> = Vec::new();
    let r = verify_backup_and_remove(&rel(&["a"]), &home_dir, &mut home, &backup, &mut actions);
    assert!(r.is_err());
    assert_eq!(file_contents_at(&home, &["a"]).unwrap(), b"precious".to_vec());

    // a backup with different content: same abort, same preservation
    let backup2 = dir(vec![("a", file("other"))]);
    let r2 = verify_backup_and_remove(&rel(&["a"]), &home_dir, &mut home, &backup2, &mut actions);
    assert!(r2.is_err());
    assert_eq!(file_contents_at(&home, &["a"]).unwrap(), b"precious".to_vec());

    // a faithful backup: deletion is authorized
    let backup3 = dir(vec![("a", file("precious"))]);
    let r3 = verify_backup_and_remove(&rel(&["a"]), &home_dir, &mut home, &backup3, &mut actions);
    assert!(r3.is_ok());
    assert!(!file_exists(&home, &rel(&["a"])));
}

#[test]
fn existing_file_is_backed_up_then_replaced_by_symlink() {
    // home holds a regular file `a` with content "foo"; the repository
    // manages a file at relative path `a`
    let mut home = dir(vec![("a", file("foo"))]);
    let dotfiles = dir(vec![("a", file("repo-copy"))]);
    let home_dir = HomePath::new("/home/user".to_string());
    let file_root = DotfilesPath::new("/repo/files".to_string());
    let subs = SubmodulesPath::new("/repo/submodules".to_string());
    let out = install(&home_dir, &mut home, &file_root, &dotfiles, &subs).unwrap();
    // the backup holds `a` with content "foo"
    assert_eq!(file_contents_at(&out.backup, &["a"]).unwrap(), b"foo".to_vec());
    // the home path `a` is now a symlink at the repository's `a`
    assert_eq!(link_target_at(&home, &["a"]).unwrap(), "/repo/files/a");
    // the original regular file is gone
    assert!(!matches!(lookup_node(&home, &rel(&["a"])), Some(FsNode::File { .. })));
    // the plan orders the copy before the one removal, and that removal
    // targets exactly the verified entry
    let removals: Vec<&Action> = out
        .actions
        .iter()
        .filter(|a| matches!(a, Action::RemoveFile { .. } | Action::RemoveDirAll { .. }))
        .collect();
    assert_eq!(removals.len(), 1);
    assert!(matches!(removals[0], Action::RemoveFile { path } if path == "/home/user/a"));
    let copy_at = out
        .actions
        .iter()
        .position(|a| matches!(a, Action::CopyFile { .. }))
        .expect("the plan copies the file into the backup");
    let remove_at_pos = out
        .actions
        .iter()
        .position(|a| matches!(a, Action::RemoveFile { .. }))
        .unwrap();
    assert!(copy_at < remove_at_pos);
}

#[test]
fn absent_entry_needs_no_backup() {
    // home has no entry at `b`, which the repository manages
    let mut home = dir(vec![]);
    let dotfiles = dir(vec![("b", file("repo-copy"))]);
    let home_dir = HomePath::new("/home/user".to_string());
    let file_root = DotfilesPath::new("/repo/files".to_string());
    let subs = SubmodulesPath::new("/repo/submodules".to_string());
    let out = install(&home_dir, &mut home, &file_root, &dotfiles, &subs).unwrap();
    // a fresh symlink, and no backup entry for `b`
    assert_eq!(link_target_at(&home, &["b"]).unwrap(), "/repo/files/b");
    assert!(lookup_node(&out.backup, &rel(&["b"])).is_none());
    // nothing existed, so the plan deletes nothing
    assert!(out
        .actions
        .iter()
        .all(|a| !matches!(a, Action::RemoveFile { .. } | Action::RemoveDirAll { .. })));
}

#[test]
fn fresh_nested_path_gets_its_parent_directories() {
    let mut home = dir(vec![]);
    let dotfiles = dir(vec![("nested", dir(vec![("deep", dir(vec![("c", file("x"))]))]))]);
    let home_dir = HomePath::new("/home/user".to_string());
    let file_root = DotfilesPath::new("/repo/files".to_string());
    let subs = SubmodulesPath::new("/repo/submodules".to_string());
    let out = install(&home_dir, &mut home, &file_root, &dotfiles, &subs).unwrap();
    assert_eq!(link_target_at(&home, &["nested", "deep", "c"]).unwrap(), "/repo/files/nested/deep/c");
    // the plan creates the missing parent chain before linking
    let mkdir_at = out
        .actions
        .iter()
        .position(|a| matches!(a, Action::MakeDirAll { path } if path == "/home/user/nested/deep"))
        .expect("the plan creates the link's parent directories");
    let link_at = out
        .actions
        .iter()
        .position(
            |a| matches!(a, Action::MakeSymlink { at, .. } if at == "/home/user/nested/deep/c"),
        )
        .unwrap();
    assert!(mkdir_at < link_at);
}

#[test]
fn installation_is_idempotent() {
    let mut home = dir(vec![("a", file("foo")), ("nested", dir(vec![("b", link("old"))]))]);
    let dotfiles = dir(vec![("a", file("x")), ("nested", dir(vec![("b", file("y"))]))]);
    let home_dir = HomePath::new("/home/user".to_string());
    let file_root = DotfilesPath::new("/repo/files".to_string());
    let subs = SubmodulesPath::new("/repo/submodules".to_string());

    install(&home_dir, &mut home, &file_root, &dotfiles, &subs).unwrap();
    let first_a = link_target_at(&home, &["a"]).unwrap();
    let first_b = link_target_at(&home, &["nested", "b"]).unwrap();
    let first_sub = link_target_at(&home, &[".dotfiles-submodules"]).unwrap();

    // the second run verifies against the backup its own first phase
    // wrote, so it must succeed and reproduce the same symlink set
    install(&home_dir, &mut home, &file_root, &dotfiles, &subs).unwrap();
    assert_eq!(link_target_at(&home, &["a"]).unwrap(), first_a);
    assert_eq!(link_target_at(&home, &["nested", "b"]).unwrap(), first_b);
    assert_eq!(link_target_at(&home, &[".dotfiles-submodules"]).unwrap(), first_sub);
    assert_eq!(first_a, "/repo/files/a");
    assert_eq!(first_b, "/repo/files/nested/b");
    assert_eq!(first_sub, "/repo/submodules");
}

#[test]
fn conflicting_unmanaged_directory_aborts_installation() {
    // the home entry at a managed path is a directory: it cannot be
    // copied file-by-file into the backup, so the run aborts before
    // anything is deleted
    let mut home = dir(vec![("a", dir(vec![("inner", file("data"))]))]);
    let dotfiles = dir(vec![("a", file("x"))]);
    let home_dir = HomePath::new("/home/user".to_string());
    let file_root = DotfilesPath::new("/repo/files".to_string());
    let subs = SubmodulesPath::new("/repo/submodules".to_string());
    assert!(install(&home_dir, &mut home, &file_root, &dotfiles, &subs).is_err());
    assert_eq!(file_contents_at(&home, &["a", "inner"]).unwrap(), b"data".to_vec());
}

#[test]
fn backup_copies_preserve_kind_and_content() {
    let home = dir(vec![("f", file("bytes")), ("l", link("raw/target"))]);
    let mut backup = dir(vec![]);
    let home_dir = HomePath::new("/h".to_string());
    let backup_dir = BackupPath::new("/h/backup".to_string());
    let mut actions: Vec<Action> = Vec::new();
    backup_file(&rel(&["f"]), &home_dir, &home, &backup_dir, &mut backup, &mut actions).unwrap();
    backup_file(&rel(&["l"]), &home_dir, &home, &backup_dir, &mut backup, &mut actions).unwrap();
    assert_eq!(file_contents_at(&backup, &["f"]).unwrap(), b"bytes".to_vec());
    assert_eq!(link_target_at(&backup, &["l"]).unwrap(), "raw/target");
    // an absent managed path leaves no trace in the backup
    backup_file(&rel(&["missing"]), &home_dir, &home, &backup_dir, &mut backup, &mut actions)
        .unwrap();
    assert!(lookup_node(&backup, &rel(&["missing"])).is_none());
}

#[test]
fn submodule_directory_is_backed_up_file_by_file() {
    let mut home = dir(vec![(
        ".dotfiles-submodules",
        dir(vec![("m1", dir(vec![("f", file("inner"))])), ("l", link("t"))]),
    )]);
    let dotfiles = dir(vec![("a", file("x"))]);
    let home_dir = HomePath::new("/home/user".to_string());
    let file_root = DotfilesPath::new("/repo/files".to_string());
    let subs = SubmodulesPath::new("/repo/submodules".to_string());
    let out = install(&home_dir, &mut home, &file_root, &dotfiles, &subs).unwrap();
    assert_eq!(
        file_contents_at(&out.backup, &[".dotfiles-submodules", "m1", "f"]).unwrap(),
        b"inner".to_vec()
    );
    assert_eq!(link_target_at(&out.backup, &[".dotfiles-submodules", "l"]).unwrap(), "t");
    // the slot itself ends as a symlink to the repository's submodules
    assert_eq!(link_target_at(&home, &[".dotfiles-submodules"]).unwrap(), "/repo/submodules");
}

#[test]
fn backup_root_holds_an_explanatory_note() {
    let mut home = dir(vec![]);
    let dotfiles = dir(vec![("a", file("x"))]);
    let home_dir = HomePath::new("/home/user".to_string());
    let file_root = DotfilesPath::new("/repo/files".to_string());
    let subs = SubmodulesPath::new("/repo/submodules".to_string());
    let out = install(&home_dir, &mut home, &file_root, &dotfiles, &subs).unwrap();
    assert!(matches!(
        lookup_node(&out.backup, &rel(&["README.md"])),
        Some(FsNode::File { .. })
    ));
    assert!(out.backup_path.as_path_buf().starts_with("/home/user/"));
}

#[test]
fn create_backup_skips_what_does_not_exist() {
    let home = dir(vec![("present", file("v"))]);
    let files = vec![rel(&["present"]), rel(&["absent"])];
    let home_dir = HomePath::new("/home/user".to_string());
    let mut actions: Vec<Action> = Vec::new();
    let (_, backup) = create_backup(&home_dir, &home, &files, &mut actions).unwrap();
    assert_eq!(file_contents_at(&backup, &["present"]).unwrap(), b"v".to_vec());
    assert!(lookup_node(&backup, &rel(&["absent"])).is_none());
}
