use dotfiles_installer::equiv::files_equal as model_files_equal;
use dotfiles_installer::equiv::{files_equal_by_contents, symlinks_equal};
use dotfiles_installer::fs_model::{file_exists, DirEntry, FsNode};
use dotfiles_installer::install::{verify_backup_and_remove, Action};
use dotfiles_installer::paths::{DotfilesPath, HomePath, RelPath};

fn file(contents: &str) -> FsNode {
    FsNode::File { contents: contents.as_bytes().to_vec() }
}

fn link(target: &str) -> FsNode {
    FsNode::Symlink { target: target.to_string() }
}

fn dir(children: Vec<(&str, FsNode)>) -> FsNode {
    let mut entries = Vec::new();
    for (name, node) in children {
        entries.push(DirEntry { name: name.to_string(), node });
    }
    FsNode::Dir { entries }
}

fn rel(parts: &[&str]) -> RelPath {
    let mut components = Vec::new();
    for p in parts {
        components.push(p.to_string());
    }
    RelPath::new(components)
}

#[test]
fn files_equal() {
    let a = file("foo");
    let b = file("foo");
    assert!(model_files_equal(&a, &b).unwrap());
}

#[test]
fn files_equal_same_file() {
    let a = file("foo");
    let b = file("foo");
    assert!(model_files_equal(&a, &b).unwrap());
}

#[test]
fn files_not_equal() {
    let a = file("foo");
    let b = file("bar");
    assert!(!model_files_equal(&a, &b).unwrap());
}

#[test]
#[should_panic]
fn file_equal_nonexistent_file() {
    // comparing against a backup entry that does not exist aborts the run
    let mut home = dir(vec![("a", file("foo"))]);
    let backup = dir(vec![]);
    let home_dir = HomePath::new("/home/user".to_string());
    let mut actions: Vec<Action> = Vec::new();
    verify_backup_and_remove(&rel(&["a"]), &home_dir, &mut home, &backup, &mut actions).unwrap();
}

#[test]
fn relative_symlinks_equal() {
    let a = link("foo/bar");
    let b = link("foo/bar");
    assert!(model_files_equal(&a, &b).unwrap());
}

#[test]
fn absolute_symlinks_equal() {
    let a = link("/foo/bar");
    let b = link("/foo/bar");
    assert!(model_files_equal(&a, &b).unwrap());
}

#[test]
fn relative_symlinks_not_equal() {
    let a = link("foo/bar");
    let b = link("bar/foo");
    assert!(!model_files_equal(&a, &b).unwrap());
}

#[test]
fn absolute_symlinks_not_equal() {
    let a = link("/foo/bar");
    let b = link("/bar/foo");
    assert!(!model_files_equal(&a, &b).unwrap());
}

#[test]
fn absolute_and_relative_symlink_with_the_same_target_not_equal() {
    // the fixture holds a file "target"; one symlink names it by its
    // absolute path, the other by a relative spelling — they resolve to
    // the same file yet are not equivalent
    let fixture = dir(vec![("target", file("foo"))]);
    assert!(file_exists(&fixture, &rel(&["target"])));
    let prefix = DotfilesPath::new("/fixture".to_string());
    let a = link(&prefix.with_rel_file(&rel(&["target"])).to_path_buf());
    let b = link("./target");
    assert!(!model_files_equal(&a, &b).unwrap());
}

#[test]
fn kind_mismatch_is_never_equivalent() {
    let a = file("foo/bar");
    let b = link("foo/bar");
    assert!(!model_files_equal(&a, &b).unwrap());
    assert!(!model_files_equal(&b, &a).unwrap());
}

#[test]
fn direct_file_comparison_matches() {
    let a = file("same");
    let b = file("same");
    let c = file("other");
    assert!(files_equal_by_contents(&a, &b));
    assert!(!files_equal_by_contents(&a, &c));
}

#[test]
fn direct_symlink_comparison_is_structural() {
    let a = link("x/y");
    let b = link("x/y");
    let c = link("/x/y");
    assert!(symlinks_equal(&a, &b));
    assert!(!symlinks_equal(&a, &c));
}

#[test]
fn directory_equivalence_compares_leaves() {
    let a = dir(vec![("sub", dir(vec![("f", file("v")), ("l", link("t"))]))]);
    let b = dir(vec![("sub", dir(vec![("f", file("v")), ("l", link("t")), ("extra", file("x"))]))]);
    // every live leaf has an equal counterpart; the extra backup entry is
    // not examined, by the documented one-sided enumeration
    assert!(model_files_equal(&a, &b).unwrap());
    // a changed leaf on the live side is found
    let c = dir(vec![("sub", dir(vec![("f", file("w")), ("l", link("t"))]))]);
    assert!(!model_files_equal(&c, &b).unwrap());
}

#[test]
fn directory_with_missing_counterpart_aborts() {
    let a = dir(vec![("sub", dir(vec![("f", file("v"))]))]);
    let b = dir(vec![("other", file("x"))]);
    assert!(model_files_equal(&a, &b).is_err());
}

#[test]
fn every_tree_is_equivalent_to_an_identical_copy() {
    // reflexivity, on a whole nested tree: comparing a tree against an
    // identical copy authorizes deletion
    let make = || {
        dir(vec![
            ("f", file("contents")),
            ("l", link("raw")),
            ("d", dir(vec![("inner", file("x")), ("deep", dir(vec![("leaf", link("y"))]))])),
        ])
    };
    let a = make();
    let b = make();
    assert!(model_files_equal(&a, &b).unwrap());
}

#[test]
fn unknown_kind_aborts() {
    assert!(model_files_equal(&FsNode::Other, &FsNode::Other).is_err());
}
