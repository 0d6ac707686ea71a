use dotfiles_installer::paths::{
    BackupPath, Dotfile, DotfilesPath, HomeFile, HomePath, InstallScriptsPath, RelPath,
    SubmodulesPath,
};
use dotfiles_installer::scripts::{
    command_name, script_decision, sort_scripts, ScriptAccess, ScriptDecision,
};

fn rel(parts: &[&str]) -> RelPath {
    let mut components = Vec::new();
    for p in parts {
        components.push(p.to_string());
    }
    RelPath::new(components)
}

#[test]
fn rel_path_renders_with_separators() {
    assert_eq!(rel(&["a", "b", "c"]).to_string_lossy(), "a/b/c");
    assert_eq!(rel(&["single"]).to_string_lossy(), "single");
    assert_eq!(rel(&[]).to_string_lossy(), "");
}

#[test]
fn rel_path_parent_drops_the_last_component() {
    let p = rel(&["a", "b", "c"]);
    let parent = p.parent().unwrap();
    assert_eq!(parent.to_string_lossy(), "a/b");
    assert!(rel(&[]).parent().is_none());
}

#[test]
fn role_tagged_paths_join_their_own_root() {
    let home = HomePath::new("/home/user".to_string());
    let hf: HomeFile = home.with_rel_file(&rel(&[".bashrc"]));
    assert_eq!(hf.to_path_buf(), "/home/user/.bashrc");
    assert_eq!(hf.rel_file().to_string_lossy(), ".bashrc");
    assert_eq!(hf.prefix().as_path_buf().as_str(), "/home/user");

    let files = DotfilesPath::new("/repo/files".to_string());
    let df: Dotfile = files.with_rel_file(&rel(&["nested", "conf"]));
    assert_eq!(df.to_path_buf(), "/repo/files/nested/conf");
    assert_eq!(df.parent().unwrap().to_path_buf(), "/repo/files/nested");

    let backup = BackupPath::new("/home/user/backup".to_string());
    assert_eq!(backup.with_rel_file(&rel(&["x"])).to_path_buf(), "/home/user/backup/x");

    let subs = SubmodulesPath::new("/repo/submodules".to_string());
    assert_eq!(subs.as_path().as_str(), "/repo/submodules");
    assert_eq!(subs.to_string_lossy(), "/repo/submodules");

    let scripts = InstallScriptsPath::new("/repo/installer/scripts".to_string());
    assert_eq!(scripts.as_path().as_str(), "/repo/installer/scripts");
}

#[test]
fn scripts_run_in_lexicographic_order() {
    let scripts = vec![
        "/s/20-late".to_string(),
        "/s/10-early".to_string(),
        "/s/15-middle".to_string(),
        "/s/10-early".to_string(),
    ];
    let sorted = sort_scripts(&scripts);
    let expect =
        vec!["/s/10-early", "/s/10-early", "/s/15-middle", "/s/20-late"];
    let got: Vec<&str> = sorted.iter().map(|s| s.as_str()).collect();
    assert_eq!(got, expect);
}

#[test]
fn command_name_takes_the_final_segment() {
    assert_eq!(command_name(&"/a/b/run.sh".to_string()).unwrap(), "run.sh");
    assert_eq!(command_name(&"plain".to_string()).unwrap(), "plain");
    assert!(command_name(&"/a/b/".to_string()).is_none());
    assert!(command_name(&"/a/..".to_string()).is_none());
    assert!(command_name(&"".to_string()).is_none());
}

#[test]
fn permission_probe_decides_run_skip_or_abort() {
    assert_eq!(script_decision(ScriptAccess::Executable).unwrap(), ScriptDecision::Run);
    assert_eq!(script_decision(ScriptAccess::Denied).unwrap(), ScriptDecision::Skip);
    assert!(script_decision(ScriptAccess::Failed).is_err());
}
