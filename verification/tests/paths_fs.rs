use ghmd::{Error, FsEntry, FsPath, FsState};

fn abs(segs: &[&str]) -> FsPath {
    FsPath { absolute: true, segments: segs.iter().map(|s| s.to_string()).collect() }
}

fn rel(segs: &[&str]) -> FsPath {
    FsPath { absolute: false, segments: segs.iter().map(|s| s.to_string()).collect() }
}

#[test]
fn join_appends_segments_under_the_root() {
    let root = abs(&["home", "u"]);
    let joined = root.join(&rel(&[".config", "nvim"]));
    assert!(joined.absolute);
    assert_eq!(joined.segments, vec![
        "home".to_string(),
        "u".to_string(),
        ".config".to_string(),
        "nvim".to_string()
    ]);
}

#[test]
fn join_discards_an_embedded_root() {
    // Joining an absolute path under a root must not let the second
    // operand replace the first.
    let root = abs(&["store"]);
    let joined = root.join(&abs(&["etc", "rc"]));
    assert!(joined.absolute);
    assert_eq!(joined.segments, vec!["store".to_string(), "etc".to_string(), "rc".to_string()]);
}

#[test]
fn strip_prefix_then_join_round_trips() {
    // Space duality on concrete values: live -> managed -> live.
    let sym = abs(&["home", "u"]);
    let live = sym.join(&rel(&[".gitconfig"]));
    let managed = live.strip_prefix(&sym).unwrap();
    assert!(!managed.absolute);
    assert_eq!(managed.segments, vec![".gitconfig".to_string()]);
    let back = sym.join(&managed);
    assert_eq!(back, live);
}

#[test]
fn strip_prefix_rejects_a_foreign_root() {
    let sym = abs(&["home", "u"]);
    let other = abs(&["var", "log"]);
    let r = other.strip_prefix(&sym);
    assert!(matches!(r, Err(Error::PathDoesNotStartWithPrefix(_, _))));
}

#[test]
fn starts_with_and_parent() {
    let p = abs(&["a", "b", "c"]);
    assert!(p.starts_with(&abs(&["a", "b"])));
    assert!(!p.starts_with(&abs(&["a", "x"])));
    assert!(!p.starts_with(&rel(&["a", "b"])));
    let parent = p.parent().unwrap();
    assert_eq!(parent, abs(&["a", "b"]));
    assert!(FsPath::root().parent().is_none());
}

#[test]
fn create_and_read_a_file() {
    let mut fs = FsState::new();
    fs.create_dir_all(&abs(&["home", "u"])).unwrap();
    fs.create_file(&abs(&["home", "u", ".vimrc"]), b"set ai".to_vec()).unwrap();
    assert_eq!(fs.read_file(&abs(&["home", "u", ".vimrc"])).unwrap(), b"set ai".to_vec());
    assert!(fs.exists_entry(&abs(&["home", "u"])));
    assert!(!fs.is_symlink(&abs(&["home", "u", ".vimrc"])));
}

#[test]
fn create_file_refuses_to_overwrite() {
    let mut fs = FsState::new();
    fs.create_dir_all(&abs(&["d"])).unwrap();
    fs.create_file(&abs(&["d", "f"]), b"one".to_vec()).unwrap();
    let r = fs.create_file(&abs(&["d", "f"]), b"two".to_vec());
    assert!(matches!(r, Err(Error::ConflictingPath(_))));
    assert_eq!(fs.read_file(&abs(&["d", "f"])).unwrap(), b"one".to_vec());
}

#[test]
fn create_dir_all_fails_on_a_file_in_the_way() {
    let mut fs = FsState::new();
    fs.create_dir_all(&abs(&["a"])).unwrap();
    fs.create_file(&abs(&["a", "f"]), Vec::new()).unwrap();
    let r = fs.create_dir_all(&abs(&["a", "f", "sub"]));
    assert!(matches!(r, Err(Error::ConflictingPath(_))));
    // Nothing was created.
    assert!(!fs.exists_entry(&abs(&["a", "f", "sub"])));
}

#[test]
fn symlink_reads_back_exactly_its_target() {
    let mut fs = FsState::new();
    fs.create_dir_all(&abs(&["links"])).unwrap();
    let target = abs(&["somewhere", "else"]);
    ghmd::paths::create_symlink(&mut fs, &target, &abs(&["links", "l"])).unwrap();
    let read = fs.read_link(&abs(&["links", "l"])).unwrap();
    assert_eq!(read, target);
    assert!(fs.is_symlink(&abs(&["links", "l"])));
    // A missing path is not a symlink, and not an error.
    assert!(!fs.is_symlink(&abs(&["links", "missing"])));
}

#[test]
fn create_symlink_refuses_an_occupied_path() {
    let mut fs = FsState::new();
    fs.create_dir_all(&abs(&["links"])).unwrap();
    fs.create_file(&abs(&["links", "l"]), Vec::new()).unwrap();
    let r = ghmd::paths::create_symlink(&mut fs, &abs(&["t"]), &abs(&["links", "l"]));
    assert!(matches!(r, Err(Error::SymlinkPathAlreadyExists(_))));
}

#[test]
fn read_link_on_a_regular_file_fails() {
    let mut fs = FsState::new();
    fs.create_file(&abs(&["f"]), Vec::new()).unwrap();
    let r = fs.read_link(&abs(&["f"]));
    assert!(matches!(r, Err(Error::SymlinkPathIsNotASymlink(_))));
    let r2 = fs.read_link(&abs(&["missing"]));
    assert!(matches!(r2, Err(Error::PathDoesNotExist(_))));
}

#[test]
fn move_file_renames_on_one_device() {
    let mut fs = FsState::new();
    fs.create_dir_all(&abs(&["a"])).unwrap();
    fs.create_dir_all(&abs(&["b"])).unwrap();
    fs.create_file(&abs(&["a", "f"]), b"payload".to_vec()).unwrap();
    ghmd::paths::move_file(&mut fs, &abs(&["a", "f"]), &abs(&["b", "g"])).unwrap();
    assert!(!fs.exists_entry(&abs(&["a", "f"])));
    assert_eq!(fs.read_file(&abs(&["b", "g"])).unwrap(), b"payload".to_vec());
}

#[test]
fn move_file_refuses_an_occupied_destination() {
    let mut fs = FsState::new();
    fs.create_dir_all(&abs(&["a"])).unwrap();
    fs.create_file(&abs(&["a", "f"]), b"one".to_vec()).unwrap();
    fs.create_file(&abs(&["a", "g"]), b"two".to_vec()).unwrap();
    let r = ghmd::paths::move_file(&mut fs, &abs(&["a", "f"]), &abs(&["a", "g"]));
    assert!(matches!(r, Err(Error::ConflictingPath(_))));
    assert_eq!(fs.read_file(&abs(&["a", "f"])).unwrap(), b"one".to_vec());
    assert_eq!(fs.read_file(&abs(&["a", "g"])).unwrap(), b"two".to_vec());
}

#[test]
fn move_file_missing_source_fails() {
    let mut fs = FsState::new();
    let r = ghmd::paths::move_file(&mut fs, &abs(&["nope"]), &abs(&["dst"]));
    assert!(matches!(r, Err(Error::PathDoesNotExist(_))));
}

#[test]
fn devices_follow_the_longest_mount_prefix() {
    let mut fs = FsState::new();
    fs.add_mount(&abs(&["mnt"]), 7).unwrap();
    assert_eq!(fs.device_of(&abs(&["home", "u"])).unwrap(), 0);
    assert_eq!(fs.device_of(&abs(&["mnt", "disk", "f"])).unwrap(), 7);
    // A second mount at the same prefix is refused.
    let r = fs.add_mount(&abs(&["mnt"]), 9);
    assert!(matches!(r, Err(Error::BadInput(_))));
}

#[test]
fn unknown_device_is_an_error_not_a_guess() {
    // A state with no mount table at all: device identity cannot be
    // determined, and the mover must say so rather than pick a side.
    let mut fs = FsState { entries: vec![(FsPath::root(), FsEntry::Dir)], mounts: Vec::new() };
    fs.create_file(&abs(&["f"]), Vec::new()).unwrap();
    fs.create_dir_all(&abs(&["d"])).unwrap();
    let r = ghmd::paths::move_file(&mut fs, &abs(&["f"]), &abs(&["d", "f"]));
    assert!(matches!(r, Err(Error::UnableToRetrievePathDeviceInfo(_))));
    assert!(fs.exists_entry(&abs(&["f"])));
}

#[test]
fn cross_device_copy_leaves_the_source_intact() {
    // The copy phase of a cross-device move on its own: the source is
    // still fully present after the destination holds the copy.
    let mut fs = FsState::new();
    fs.add_mount(&abs(&["mnt"]), 3).unwrap();
    fs.create_dir_all(&abs(&["mnt"])).unwrap();
    fs.create_file(&abs(&["precious"]), b"do not lose".to_vec()).unwrap();
    ghmd::paths::copy_entry(&mut fs, &abs(&["precious"]), &abs(&["mnt", "precious"])).unwrap();
    assert_eq!(fs.read_file(&abs(&["precious"])).unwrap(), b"do not lose".to_vec());
    assert_eq!(fs.read_file(&abs(&["mnt", "precious"])).unwrap(), b"do not lose".to_vec());
}

#[test]
fn cross_device_move_transfers_the_bytes() {
    let mut fs = FsState::new();
    fs.add_mount(&abs(&["mnt"]), 3).unwrap();
    fs.create_dir_all(&abs(&["mnt"])).unwrap();
    fs.create_file(&abs(&["f"]), b"bytes".to_vec()).unwrap();
    ghmd::paths::move_file(&mut fs, &abs(&["f"]), &abs(&["mnt", "f"])).unwrap();
    assert!(!fs.exists_entry(&abs(&["f"])));
    assert_eq!(fs.read_file(&abs(&["mnt", "f"])).unwrap(), b"bytes".to_vec());
}

#[test]
fn the_root_is_no_move_destination() {
    // The root has no parent directory to receive an entry.
    let mut fs = FsState::new();
    fs.create_file(&abs(&["f"]), Vec::new()).unwrap();
    let root = FsPath::root();
    let r = ghmd::paths::move_file(&mut fs, &abs(&["f"]), &root);
    assert!(matches!(r, Err(Error::ConflictingPath(_))));
    // Nor can a symlink be created at the root: there is no parent
    // directory to hold it.
    let mut bare = FsState { entries: Vec::new(), mounts: Vec::new() };
    let r2 = ghmd::paths::create_symlink(&mut bare, &abs(&["t"]), &FsPath::root());
    assert!(matches!(r2, Err(Error::InvalidSymlinkDestinationDirectory(_))));
}
