use ghmd::{Config, DotfilePath, Dotfiles, DotfilesDir, Error, FsPath, FsState, SymlinkDir};

fn abs(segs: &[&str]) -> FsPath {
    FsPath { absolute: true, segments: segs.iter().map(|s| s.to_string()).collect() }
}

fn rel(segs: &[&str]) -> FsPath {
    FsPath { absolute: false, segments: segs.iter().map(|s| s.to_string()).collect() }
}

/// Storage root `/store`, symlink root `/home/u`, with `/home/u/.gitconfig`
/// holding the given bytes.
fn home_with_gitconfig(content: &[u8]) -> FsState {
    let mut fs = FsState::new();
    fs.create_dir_all(&abs(&["store"])).unwrap();
    fs.create_dir_all(&abs(&["home", "u"])).unwrap();
    fs.create_file(&abs(&["home", "u", ".gitconfig"]), content.to_vec()).unwrap();
    fs
}

fn roots(fs: &FsState) -> (SymlinkDir, DotfilesDir) {
    let sym = SymlinkDir::try_from(fs, abs(&["home", "u"])).unwrap();
    let dot = DotfilesDir::try_from(fs, abs(&["store"])).unwrap();
    (sym, dot)
}

#[test]
fn stow_moves_the_file_and_leaves_a_symlink() {
    let mut fs = home_with_gitconfig(b"[user]");
    let (sym, dot) = roots(&fs);
    let mut config = Config::new();
    let paths = vec![DotfilePath::try_from(rel(&[".gitconfig"])).unwrap()];
    config.stow_paths(&mut fs, sym, dot, paths).unwrap();

    assert_eq!(fs.read_file(&abs(&["store", ".gitconfig"])).unwrap(), b"[user]".to_vec());
    assert!(fs.is_symlink(&abs(&["home", "u", ".gitconfig"])));
    let target = fs.read_link(&abs(&["home", "u", ".gitconfig"])).unwrap();
    assert_eq!(target, abs(&["store", ".gitconfig"]));
    assert_eq!(config.dotfiles.len(), 1);
    assert_eq!(config.dotfiles[0].paths.len(), 1);
}

#[test]
fn stow_creates_missing_storage_ancestors() {
    let mut fs = FsState::new();
    fs.create_dir_all(&abs(&["store"])).unwrap();
    fs.create_dir_all(&abs(&["home", "u", ".config", "nvim"])).unwrap();
    fs.create_file(&abs(&["home", "u", ".config", "nvim", "init.vim"]), b"set nu".to_vec())
        .unwrap();
    let (sym, dot) = roots(&fs);
    let mut config = Config::new();
    let paths = vec![DotfilePath::try_from(rel(&[".config", "nvim", "init.vim"])).unwrap()];
    config.stow_paths(&mut fs, sym, dot, paths).unwrap();
    assert_eq!(
        fs.read_file(&abs(&["store", ".config", "nvim", "init.vim"])).unwrap(),
        b"set nu".to_vec()
    );
    assert!(fs.is_symlink(&abs(&["home", "u", ".config", "nvim", "init.vim"])));
}

#[test]
fn stow_twice_succeeds_and_state_is_identical() {
    let mut fs = home_with_gitconfig(b"same");
    let (sym, dot) = roots(&fs);
    let mut config = Config::new();
    let mk = || vec![DotfilePath::try_from(rel(&[".gitconfig"])).unwrap()];
    config.stow_paths(&mut fs, sym.clone(), dot.clone(), mk()).unwrap();
    let entries_after_first = fs.entries.len();
    let members_after_first = config.dotfiles[0].paths.len();
    config.stow_paths(&mut fs, sym, dot, mk()).unwrap();
    assert_eq!(fs.entries.len(), entries_after_first);
    assert_eq!(config.dotfiles[0].paths.len(), members_after_first);
    assert_eq!(fs.read_file(&abs(&["store", ".gitconfig"])).unwrap(), b"same".to_vec());
    assert!(fs.is_symlink(&abs(&["home", "u", ".gitconfig"])));
}

#[test]
fn stow_refuses_an_occupied_storage_slot() {
    let mut fs = home_with_gitconfig(b"mine");
    fs.create_file(&abs(&["store", ".gitconfig"]), b"foreign".to_vec()).unwrap();
    let (sym, dot) = roots(&fs);
    let mut config = Config::new();
    let paths = vec![DotfilePath::try_from(rel(&[".gitconfig"])).unwrap()];
    let r = config.stow_paths(&mut fs, sym, dot, paths);
    assert!(matches!(r, Err(Error::DotfilePathAlreadyExists(_))));
    // Neither location was modified.
    assert_eq!(fs.read_file(&abs(&["home", "u", ".gitconfig"])).unwrap(), b"mine".to_vec());
    assert_eq!(fs.read_file(&abs(&["store", ".gitconfig"])).unwrap(), b"foreign".to_vec());
    assert!(!fs.is_symlink(&abs(&["home", "u", ".gitconfig"])));
}

#[test]
fn stow_missing_live_file_reports_not_found() {
    let mut fs = FsState::new();
    fs.create_dir_all(&abs(&["store"])).unwrap();
    fs.create_dir_all(&abs(&["home", "u"])).unwrap();
    let (sym, dot) = roots(&fs);
    let mut config = Config::new();
    let paths = vec![DotfilePath::try_from(rel(&[".gitconfig"])).unwrap()];
    let r = config.stow_paths(&mut fs, sym, dot, paths);
    assert!(matches!(r, Err(Error::PathDoesNotExist(_))));
}

#[test]
fn stow_then_restore_round_trips() {
    let mut fs = home_with_gitconfig(b"precious bytes");
    let (sym, dot) = roots(&fs);
    let mut config = Config::new();
    let paths = vec![DotfilePath::try_from(rel(&[".gitconfig"])).unwrap()];
    config.stow_paths(&mut fs, sym, dot, paths).unwrap();

    config.restore_dotfile(&mut fs, &abs(&["home", "u", ".gitconfig"])).unwrap();
    assert_eq!(
        fs.read_file(&abs(&["home", "u", ".gitconfig"])).unwrap(),
        b"precious bytes".to_vec()
    );
    assert!(!fs.is_symlink(&abs(&["home", "u", ".gitconfig"])));
    assert!(!fs.exists_entry(&abs(&["store", ".gitconfig"])));
}

#[test]
fn restore_accepts_symlink_or_storage_path_alike() {
    // Run the same restore twice, once given the symlink location and
    // once given the storage location, and compare the outcomes.
    let run = |restore_arg: FsPath| -> FsState {
        let mut fs = home_with_gitconfig(b"either way");
        let (sym, dot) = roots(&fs);
        let mut config = Config::new();
        let paths = vec![DotfilePath::try_from(rel(&[".gitconfig"])).unwrap()];
        config.stow_paths(&mut fs, sym, dot, paths).unwrap();
        config.restore_dotfile(&mut fs, &restore_arg).unwrap();
        fs
    };
    let via_symlink = run(abs(&["home", "u", ".gitconfig"]));
    let via_storage = run(abs(&["store", ".gitconfig"]));
    for fs in [&via_symlink, &via_storage] {
        assert_eq!(
            fs.read_file(&abs(&["home", "u", ".gitconfig"])).unwrap(),
            b"either way".to_vec()
        );
        assert!(!fs.is_symlink(&abs(&["home", "u", ".gitconfig"])));
        assert!(!fs.exists_entry(&abs(&["store", ".gitconfig"])));
    }
}

#[test]
fn restore_of_an_unmanaged_path_reports_not_found() {
    let mut fs = home_with_gitconfig(b"x");
    let mut config = Config::new();
    let r = config.restore_dotfile(&mut fs, &abs(&["home", "u", ".gitconfig"]));
    assert!(matches!(r, Err(Error::DotfileNotFound(_))));
}

#[test]
fn deploy_creates_the_symlink_without_moving_bytes() {
    // A populated storage tree and a fresh home: deploy re-links.
    let mut fs = FsState::new();
    fs.create_dir_all(&abs(&["store"])).unwrap();
    fs.create_dir_all(&abs(&["home", "u"])).unwrap();
    fs.create_file(&abs(&["store", ".bashrc"]), b"alias l=ls".to_vec()).unwrap();
    let set = Dotfiles {
        dotfile_directory: DotfilesDir::try_from(&fs, abs(&["store"])).unwrap(),
        symlink_directory: SymlinkDir::try_from(&fs, abs(&["home", "u"])).unwrap(),
        paths: vec![DotfilePath::try_from(rel(&[".bashrc"])).unwrap()],
    };
    let config = Config { dotfiles: vec![set] };
    config.deploy_all(&mut fs).unwrap();
    assert!(fs.is_symlink(&abs(&["home", "u", ".bashrc"])));
    assert_eq!(
        fs.read_link(&abs(&["home", "u", ".bashrc"])).unwrap(),
        abs(&["store", ".bashrc"])
    );
    assert_eq!(fs.read_file(&abs(&["store", ".bashrc"])).unwrap(), b"alias l=ls".to_vec());
}

#[test]
fn deploy_refuses_an_unrelated_file_at_the_live_location() {
    let mut fs = FsState::new();
    fs.create_dir_all(&abs(&["store"])).unwrap();
    fs.create_dir_all(&abs(&["home", "u"])).unwrap();
    fs.create_file(&abs(&["store", ".bashrc"]), b"stored".to_vec()).unwrap();
    fs.create_file(&abs(&["home", "u", ".bashrc"]), b"unrelated".to_vec()).unwrap();
    let set = Dotfiles {
        dotfile_directory: DotfilesDir::try_from(&fs, abs(&["store"])).unwrap(),
        symlink_directory: SymlinkDir::try_from(&fs, abs(&["home", "u"])).unwrap(),
        paths: vec![DotfilePath::try_from(rel(&[".bashrc"])).unwrap()],
    };
    let config = Config { dotfiles: vec![set] };
    let r = config.deploy_all(&mut fs);
    assert!(matches!(r, Err(Error::SymlinkPathIsNotASymlink(_))));
    // No mutation: the unrelated file still holds its bytes.
    assert_eq!(fs.read_file(&abs(&["home", "u", ".bashrc"])).unwrap(), b"unrelated".to_vec());
}

#[test]
fn deploy_all_skips_paths_missing_from_storage() {
    let mut fs = FsState::new();
    fs.create_dir_all(&abs(&["store"])).unwrap();
    fs.create_dir_all(&abs(&["home", "u"])).unwrap();
    fs.create_file(&abs(&["store", "present"]), b"here".to_vec()).unwrap();
    let set = Dotfiles {
        dotfile_directory: DotfilesDir::try_from(&fs, abs(&["store"])).unwrap(),
        symlink_directory: SymlinkDir::try_from(&fs, abs(&["home", "u"])).unwrap(),
        paths: vec![
            DotfilePath::try_from(rel(&["absent"])).unwrap(),
            DotfilePath::try_from(rel(&["present"])).unwrap(),
        ],
    };
    let config = Config { dotfiles: vec![set] };
    config.deploy_all(&mut fs).unwrap();
    assert!(fs.is_symlink(&abs(&["home", "u", "present"])));
    assert!(!fs.exists_entry(&abs(&["home", "u", "absent"])));
}

#[test]
fn deploy_paths_finds_the_owning_set() {
    let mut fs = FsState::new();
    fs.create_dir_all(&abs(&["other"])).unwrap();
    fs.create_dir_all(&abs(&["store"])).unwrap();
    fs.create_dir_all(&abs(&["home", "u"])).unwrap();
    fs.create_file(&abs(&["store", ".profile"]), b"export A=1".to_vec()).unwrap();
    let unrelated = Dotfiles {
        dotfile_directory: DotfilesDir::try_from(&fs, abs(&["other"])).unwrap(),
        symlink_directory: SymlinkDir::try_from(&fs, abs(&["home", "u"])).unwrap(),
        paths: Vec::new(),
    };
    let owner = Dotfiles {
        dotfile_directory: DotfilesDir::try_from(&fs, abs(&["store"])).unwrap(),
        symlink_directory: SymlinkDir::try_from(&fs, abs(&["home", "u"])).unwrap(),
        paths: vec![DotfilePath::try_from(rel(&[".profile"])).unwrap()],
    };
    let config = Config { dotfiles: vec![unrelated, owner] };
    config.deploy_paths(&mut fs, vec![abs(&["store", ".profile"])]).unwrap();
    assert!(fs.is_symlink(&abs(&["home", "u", ".profile"])));

    let r = config.deploy_paths(&mut fs, vec![abs(&["elsewhere", "x"])]);
    assert!(matches!(r, Err(Error::NoMatchingDotfileConfigured(_))));
}

#[test]
fn add_dotfiles_requires_existing_directories() {
    let fs = FsState::new();
    let mut config = Config::new();
    // Construct root wrappers directly: the directories do not exist.
    let sym = SymlinkDir(abs(&["home", "u"]));
    let dot = DotfilesDir(abs(&["store"]));
    let r = config.add_dotfiles(&fs, &sym, &dot);
    assert!(matches!(r, Err(Error::BadInput(_))));
    assert_eq!(config.dotfiles.len(), 0);
}

#[test]
fn dotfile_path_must_be_relative() {
    let r = DotfilePath::try_from(abs(&["home", "u", ".gitconfig"]));
    assert!(matches!(r, Err(Error::DotfilePathMustBeRelative(_))));
    let ok = DotfilePath::try_from(rel(&[".gitconfig"])).unwrap();
    assert_eq!(ok.0, rel(&[".gitconfig"]));
}

#[test]
fn dotfile_path_from_dir_strips_the_storage_prefix() {
    let fs = {
        let mut fs = FsState::new();
        fs.create_dir_all(&abs(&["store"])).unwrap();
        fs
    };
    let dot = DotfilesDir::try_from(&fs, abs(&["store"])).unwrap();
    let dp = DotfilePath::try_from_dir(&dot, &abs(&["store", "a", "b"])).unwrap();
    assert_eq!(dp.0, rel(&["a", "b"]));
    let r = DotfilePath::try_from_dir(&dot, &abs(&["elsewhere", "a"]));
    assert!(matches!(r, Err(Error::PathDoesNotStartWithPrefix(_, _))));
}

#[test]
fn is_dotfile_tests_ownership_without_erring() {
    let mut fs = FsState::new();
    fs.create_dir_all(&abs(&["store"])).unwrap();
    let set = Dotfiles {
        dotfile_directory: DotfilesDir::try_from(&fs, abs(&["store"])).unwrap(),
        symlink_directory: SymlinkDir(abs(&["home", "u"])),
        paths: vec![DotfilePath::try_from(rel(&[".vimrc"])).unwrap()],
    };
    assert!(set.is_dotfile(&abs(&["store", ".vimrc"])));
    assert!(set.is_dotfile(&rel(&[".vimrc"])));
    assert!(!set.is_dotfile(&abs(&["store", ".other"])));
    assert!(!set.is_dotfile(&abs(&["elsewhere", ".vimrc"])));
}

#[test]
fn stow_across_devices_copies_then_deletes() {
    // The storage tree sits on another (simulated) device: the stow falls
    // back to copy-then-delete and still ends in the stowed state.
    let mut fs = FsState::new();
    fs.add_mount(&abs(&["mnt"]), 5).unwrap();
    fs.create_dir_all(&abs(&["mnt", "store"])).unwrap();
    fs.create_dir_all(&abs(&["home", "u"])).unwrap();
    fs.create_file(&abs(&["home", "u", ".gitconfig"]), b"xdev".to_vec()).unwrap();
    let sym = SymlinkDir::try_from(&fs, abs(&["home", "u"])).unwrap();
    let dot = DotfilesDir::try_from(&fs, abs(&["mnt", "store"])).unwrap();
    let mut config = Config::new();
    let paths = vec![DotfilePath::try_from(rel(&[".gitconfig"])).unwrap()];
    config.stow_paths(&mut fs, sym, dot, paths).unwrap();
    assert_eq!(fs.read_file(&abs(&["mnt", "store", ".gitconfig"])).unwrap(), b"xdev".to_vec());
    assert!(fs.is_symlink(&abs(&["home", "u", ".gitconfig"])));
}

#[test]
fn stow_a_directory_moves_its_whole_subtree() {
    let mut fs = FsState::new();
    fs.create_dir_all(&abs(&["store"])).unwrap();
    fs.create_dir_all(&abs(&["home", "u", ".config", "nvim"])).unwrap();
    fs.create_file(&abs(&["home", "u", ".config", "nvim", "init.vim"]), b"set nu".to_vec())
        .unwrap();
    fs.create_file(&abs(&["home", "u", ".config", "colors"]), b"dark".to_vec()).unwrap();
    let (sym, dot) = roots(&fs);
    let mut config = Config::new();
    let paths = vec![DotfilePath::try_from(rel(&[".config"])).unwrap()];
    config.stow_paths(&mut fs, sym, dot, paths).unwrap();

    // The whole tree now lives in storage, hierarchy preserved.
    assert_eq!(
        fs.read_file(&abs(&["store", ".config", "nvim", "init.vim"])).unwrap(),
        b"set nu".to_vec()
    );
    assert_eq!(fs.read_file(&abs(&["store", ".config", "colors"])).unwrap(), b"dark".to_vec());
    // The live location is one symlink to the stored directory, and the
    // old child paths are gone from the live side.
    assert!(fs.is_symlink(&abs(&["home", "u", ".config"])));
    assert!(!fs.exists_entry(&abs(&["home", "u", ".config", "colors"])));
    assert_eq!(
        fs.read_link(&abs(&["home", "u", ".config"])).unwrap(),
        abs(&["store", ".config"])
    );
}

#[test]
fn restore_a_directory_brings_the_subtree_back() {
    let mut fs = FsState::new();
    fs.create_dir_all(&abs(&["store"])).unwrap();
    fs.create_dir_all(&abs(&["home", "u", ".config", "nvim"])).unwrap();
    fs.create_file(&abs(&["home", "u", ".config", "nvim", "init.vim"]), b"set nu".to_vec())
        .unwrap();
    let (sym, dot) = roots(&fs);
    let mut config = Config::new();
    let paths = vec![DotfilePath::try_from(rel(&[".config"])).unwrap()];
    config.stow_paths(&mut fs, sym, dot, paths).unwrap();

    config.restore_dotfile(&mut fs, &abs(&["home", "u", ".config"])).unwrap();
    assert!(!fs.is_symlink(&abs(&["home", "u", ".config"])));
    assert_eq!(
        fs.read_file(&abs(&["home", "u", ".config", "nvim", "init.vim"])).unwrap(),
        b"set nu".to_vec()
    );
    assert!(!fs.exists_entry(&abs(&["store", ".config"])));
    assert!(!fs.exists_entry(&abs(&["store", ".config", "nvim", "init.vim"])));
}

#[test]
fn move_file_relocates_a_directory_tree() {
    let mut fs = FsState::new();
    fs.create_dir_all(&abs(&["a", "sub"])).unwrap();
    fs.create_file(&abs(&["a", "sub", "f"]), b"deep".to_vec()).unwrap();
    fs.create_dir_all(&abs(&["elsewhere"])).unwrap();
    ghmd::paths::move_file(&mut fs, &abs(&["a"]), &abs(&["elsewhere", "a"])).unwrap();
    assert!(!fs.exists_entry(&abs(&["a"])));
    assert!(!fs.exists_entry(&abs(&["a", "sub", "f"])));
    assert_eq!(fs.read_file(&abs(&["elsewhere", "a", "sub", "f"])).unwrap(), b"deep".to_vec());
}

#[test]
fn move_file_refuses_a_destination_beneath_the_source() {
    let mut fs = FsState::new();
    fs.create_dir_all(&abs(&["a", "sub"])).unwrap();
    let r = ghmd::paths::move_file(&mut fs, &abs(&["a"]), &abs(&["a", "sub", "moved"]));
    assert!(matches!(r, Err(Error::BadInput(_))));
    assert!(fs.exists_entry(&abs(&["a", "sub"])));
}

#[test]
fn managed_path_from_symlink_dir_checks_the_live_entry() {
    let mut fs = home_with_gitconfig(b"x");
    let (sym, dot) = roots(&fs);
    // A live regular file under the symlink root: accepted, stripped.
    let dp =
        DotfilePath::try_from_symlink_dir(&sym, &dot, &abs(&["home", "u", ".gitconfig"]), &fs)
            .unwrap();
    assert_eq!(dp.0, rel(&[".gitconfig"]));
    // Outside the symlink root: refused.
    let r = DotfilePath::try_from_symlink_dir(&sym, &dot, &abs(&["etc", "passwd"]), &fs);
    assert!(matches!(r, Err(Error::PathDoesNotStartWithPrefix(_, _))));
    // Missing live entry: refused.
    let r2 = DotfilePath::try_from_symlink_dir(&sym, &dot, &rel(&[".vimrc"]), &fs);
    assert!(matches!(r2, Err(Error::PathDoesNotExist(_))));
    // A live symlink pointing somewhere else entirely: refused.
    ghmd::paths::create_symlink(&mut fs, &abs(&["elsewhere"]), &abs(&["home", "u", ".alias"]))
        .unwrap();
    let r3 = DotfilePath::try_from_symlink_dir(&sym, &dot, &rel(&[".alias"]), &fs);
    assert!(matches!(r3, Err(Error::SymlinkPathAlreadyExists(_))));
    // A live symlink already pointing at its storage slot: accepted.
    fs.create_file(&abs(&["store", ".bash"]), b"b".to_vec()).unwrap();
    ghmd::paths::create_symlink(
        &mut fs,
        &abs(&["store", ".bash"]),
        &abs(&["home", "u", ".bash"]),
    )
    .unwrap();
    let dp2 = DotfilePath::try_from_symlink_dir(&sym, &dot, &rel(&[".bash"]), &fs).unwrap();
    assert_eq!(dp2.0, rel(&[".bash"]));
}
