//! Dotfile sets and the registry: the validated path types, the ownership
//! test, and the stow / deploy / restore operations, each specified as an
//! exact transition on the filesystem model.

use vstd::prelude::*;

use crate::errors::Error;
use crate::fs::{
    device_known_seq, dirs_ok, spec_has_descendant, with_dirs, EntryModel, FsEntry, FsMap,
    FsState,
};
use crate::paths::{create_symlink, move_file, parent_is_dir, FsPath};

verus! {

broadcast use crate::views::lemma_segments_view_len, crate::views::lemma_segments_view_index;

/// A directory path where dotfiles are stored.  Validated at construction:
/// it is absolute and, at that moment, exists.  The type distinguishes the
/// storage root from run-of-the-mill paths, so that later operations can
/// rely on the validation instead of repeating it.
#[derive(Debug)]
pub struct DotfilesDir(pub FsPath);

/// A directory path where dotfiles appear to live and symlinks land.
/// Validated at construction like [`DotfilesDir`].
#[derive(Debug)]
pub struct SymlinkDir(pub FsPath);

/// A managed path: always relative, the identity of one dotfile.  Joined
/// to the symlink directory it names the live location; joined to the
/// dotfiles directory it names the storage location.
#[derive(Debug)]
pub struct DotfilePath(pub FsPath);

impl DotfilesDir {
    /// Validity: the wrapped path is absolute.
    pub open spec fn wf(&self) -> bool {
        self.0.absolute
    }

    /// Validate a path as a dotfiles directory: it must be absolute and
    /// exist in the filesystem.
    pub fn try_from(fs: &FsState, pb: FsPath) -> (r: Result<DotfilesDir, Error>)
        requires
            fs.wf(),
        ensures
            match r {
                Ok(d) => {
                    &&& d.0.absolute
                    &&& pb.absolute
                    &&& d.0.segs() == pb.segs()
                    &&& fs@.contains_key(pb.segs())
                },
                Err(e) => match e {
                    Error::BadInput(_) => !pb.absolute,
                    Error::PathDoesNotExist(q) => pb.absolute && !fs@.contains_key(pb.segs())
                        && q.segs() == pb.segs(),
                    _ => false,
                },
            },
    {
        if !pb.absolute {
            return Err(Error::BadInput("a dotfiles directory path must be absolute"));
        }
        if !fs.exists_entry(&pb) {
            return Err(Error::PathDoesNotExist(pb));
        }
        Ok(DotfilesDir(pb))
    }
}

impl Clone for DotfilesDir {
    /// The copy wraps an equal path.
    fn clone(&self) -> (r: Self)
        ensures
            r.0.absolute == self.0.absolute,
            r.0.segs() == self.0.segs(),
    {
        DotfilesDir(self.0.clone())
    }
}

impl SymlinkDir {
    /// Validity: the wrapped path is absolute.
    pub open spec fn wf(&self) -> bool {
        self.0.absolute
    }

    /// Validate a path as a symlink directory: it must be absolute and
    /// exist in the filesystem.
    pub fn try_from(fs: &FsState, pb: FsPath) -> (r: Result<SymlinkDir, Error>)
        requires
            fs.wf(),
        ensures
            match r {
                Ok(d) => {
                    &&& d.0.absolute
                    &&& pb.absolute
                    &&& d.0.segs() == pb.segs()
                    &&& fs@.contains_key(pb.segs())
                },
                Err(e) => match e {
                    Error::BadInput(_) => !pb.absolute,
                    Error::PathDoesNotExist(q) => pb.absolute && !fs@.contains_key(pb.segs())
                        && q.segs() == pb.segs(),
                    _ => false,
                },
            },
    {
        if !pb.absolute {
            return Err(Error::BadInput("a symlink directory path must be absolute"));
        }
        if !fs.exists_entry(&pb) {
            return Err(Error::PathDoesNotExist(pb));
        }
        Ok(SymlinkDir(pb))
    }
}

impl Clone for SymlinkDir {
    /// The copy wraps an equal path.
    fn clone(&self) -> (r: Self)
        ensures
            r.0.absolute == self.0.absolute,
            r.0.segs() == self.0.segs(),
    {
        SymlinkDir(self.0.clone())
    }
}

impl DotfilePath {
    /// Validity: the wrapped path is relative.
    pub open spec fn wf(&self) -> bool {
        !self.0.absolute
    }

    /// Validate a path as a managed path: it must be relative.
    pub fn try_from(pb: FsPath) -> (r: Result<DotfilePath, Error>)
        ensures
            match r {
                Ok(dp) => !pb.absolute && !dp.0.absolute && dp.0.segs() == pb.segs(),
                Err(e) => pb.absolute && (e matches Error::DotfilePathMustBeRelative(q)
                    && q.segs() == pb.segs()),
            },
    {
        if !pb.absolute {
            return Ok(DotfilePath(pb));
        }
        Err(Error::DotfilePathMustBeRelative(pb))
    }

    /// Build a managed path relative to a dotfiles directory: a relative
    /// input is taken as is, an absolute one must lie under the directory
    /// and is stripped of that prefix.
    pub fn try_from_dir(dir: &DotfilesDir, path: &FsPath) -> (r: Result<DotfilePath, Error>)
        requires
            dir.wf(),
        ensures
            match r {
                Ok(dp) => {
                    &&& !dp.0.absolute
                    &&& if path.absolute {
                        path.spec_starts_with(&dir.0) && dp.0.segs() == path.segs().skip(
                            dir.0.segs().len() as int,
                        )
                    } else {
                        dp.0.segs() == path.segs()
                    }
                },
                Err(e) => {
                    &&& path.absolute
                    &&& !path.spec_starts_with(&dir.0)
                    &&& e matches Error::PathDoesNotStartWithPrefix(p, pre) && p.segs()
                        == path.segs() && pre.segs() == dir.0.segs()
                },
            },
    {
        if !path.absolute {
            return Ok(DotfilePath(FsPath { absolute: false, segments: path.segments.clone() }));
        }
        match path.strip_prefix(&dir.0) {
            Ok(rest) => Ok(DotfilePath(rest)),
            Err(e) => Err(e),
        }
    }
}

impl DotfilePath {
    /// Build a managed path from a user-supplied location under the
    /// symlink directory, against the filesystem: an absolute input must
    /// lie under the symlink root and is stripped of it, a relative one
    /// is taken as is; the live location must exist, and if it is already
    /// a symlink it must point exactly at the corresponding storage
    /// location — any other symlink there is refused.
    pub fn try_from_symlink_dir(
        symlink_dir: &SymlinkDir,
        dotfile_dir: &DotfilesDir,
        path: &FsPath,
        fs: &FsState,
    ) -> (r: Result<DotfilePath, Error>)
        requires
            symlink_dir.wf(),
            dotfile_dir.wf(),
            fs.wf(),
        ensures
            ({
                let rel = if path.absolute {
                    path.segs().skip(symlink_dir.0.segs().len() as int)
                } else {
                    path.segs()
                };
                let live = symlink_dir.0.segs() + rel;
                let stored = dotfile_dir.0.segs() + rel;
                match r {
                    Ok(dp) => {
                        &&& !dp.0.absolute
                        &&& dp.0.segs() == rel
                        &&& (path.absolute ==> path.spec_starts_with(&symlink_dir.0))
                        &&& fs@.contains_key(live)
                        &&& (fs@[live] is Symlink ==> fs@[live] == (EntryModel::Symlink {
                            absolute: true,
                            target: stored,
                        }))
                    },
                    Err(e) => match e {
                        Error::PathDoesNotStartWithPrefix(p, pre) => {
                            &&& path.absolute
                            &&& !path.spec_starts_with(&symlink_dir.0)
                            &&& p.segs() == path.segs()
                            &&& pre.segs() == symlink_dir.0.segs()
                        },
                        Error::PathDoesNotExist(q) => {
                            &&& (path.absolute ==> path.spec_starts_with(&symlink_dir.0))
                            &&& !fs@.contains_key(live)
                            &&& q.segs() == live
                        },
                        Error::SymlinkPathAlreadyExists(q) => {
                            &&& (path.absolute ==> path.spec_starts_with(&symlink_dir.0))
                            &&& fs@.contains_key(live)
                            &&& fs@[live] is Symlink
                            &&& fs@[live] != (EntryModel::Symlink { absolute: true, target: stored })
                            &&& q.segs() == live
                        },
                        _ => false,
                    },
                }
            }),
    {
        let (live_path, relpath) = if path.absolute {
            if !path.starts_with(&symlink_dir.0) {
                return Err(
                    Error::PathDoesNotStartWithPrefix(path.clone(), symlink_dir.0.clone()),
                );
            }
            let r = match path.strip_prefix(&symlink_dir.0) {
                Ok(r) => r,
                Err(e) => {
                    proof {
                        assert(false);
                    }
                    return Err(e);
                },
            };
            (path.clone(), r)
        } else {
            (
                symlink_dir.0.join(path),
                FsPath { absolute: false, segments: path.segments.clone() },
            )
        };
        proof {
            if path.absolute {
                crate::paths::lemma_prefix_recompose(symlink_dir.0.segs(), path.segs());
            }
        }
        let stored_path = dotfile_dir.0.join(&relpath);
        match fs.lookup(&live_path) {
            None => Err(Error::PathDoesNotExist(live_path)),
            Some(e) => match e {
                FsEntry::Symlink { target } => {
                    if *target == stored_path {
                        Ok(DotfilePath(relpath))
                    } else {
                        Err(Error::SymlinkPathAlreadyExists(live_path.clone()))
                    }
                },
                _ => Ok(DotfilePath(relpath)),
            },
        }
    }
}

impl Clone for DotfilePath {
    /// The copy wraps an equal path.
    fn clone(&self) -> (r: Self)
        ensures
            r.0.absolute == self.0.absolute,
            r.0.segs() == self.0.segs(),
    {
        DotfilePath(self.0.clone())
    }
}

/// The mathematical value of a dotfile set: the two root paths and the set
/// of managed paths, all as plain sequences.
pub ghost struct DotfilesModel {
    /// Segments of the storage root.
    pub dotfile_directory: Seq<Seq<char>>,
    /// Segments of the symlink root.
    pub symlink_directory: Seq<Seq<char>>,
    /// The managed paths, in registration order.
    pub paths: Seq<Seq<Seq<char>>>,
}

/// The live location of a managed path: under the symlink root.
pub open spec fn live_of(dm: DotfilesModel, rel: Seq<Seq<char>>) -> Seq<Seq<char>> {
    dm.symlink_directory + rel
}

/// The storage location of a managed path: under the storage root.
pub open spec fn stored_of(dm: DotfilesModel, rel: Seq<Seq<char>>) -> Seq<Seq<char>> {
    dm.dotfile_directory + rel
}

/// The managed path is fully stowed: the storage slot holds something and
/// the live location is exactly the symlink into it.
pub open spec fn stowed_state(dm: DotfilesModel, m: FsMap, rel: Seq<Seq<char>>) -> bool {
    &&& m.contains_key(stored_of(dm, rel))
    &&& m.contains_key(live_of(dm, rel))
    &&& m[live_of(dm, rel)] == (EntryModel::Symlink {
        absolute: true,
        target: stored_of(dm, rel),
    })
}

/// A fresh stow of `rel` can go through: the live entry exists, the
/// storage slot is free with nothing beneath it, the live parent is a
/// directory (for the symlink that will replace the entry), the two
/// locations do not overlap, the storage parent chain can be created,
/// and both devices are determinable.
pub open spec fn can_stow_fresh(
    dm: DotfilesModel,
    m: FsMap,
    mounts: Seq<(FsPath, u64)>,
    rel: Seq<Seq<char>>,
) -> bool {
    let live = live_of(dm, rel);
    let stored = stored_of(dm, rel);
    &&& m.contains_key(live)
    &&& !m.contains_key(stored)
    &&& parent_is_dir(m, live)
    &&& !live.is_prefix_of(stored)
    &&& !stored.is_prefix_of(live)
    &&& stored.len() > 0
    &&& dirs_ok(m, stored.drop_last())
    &&& !spec_has_descendant(m, stored)
    &&& device_known_seq(mounts, live)
    &&& device_known_seq(mounts, stored)
}

/// What a fresh stow does to the filesystem: create the storage parent
/// chain, move the live entry into the storage slot, and leave a symlink
/// to it at the live location.
pub open spec fn stow_effect(dm: DotfilesModel, m: FsMap, rel: Seq<Seq<char>>) -> FsMap {
    let live = live_of(dm, rel);
    let stored = stored_of(dm, rel);
    crate::fs::moved_tree(with_dirs(m, stored.drop_last()), live, stored).insert(
        live,
        EntryModel::Symlink { absolute: true, target: stored },
    )
}

/// What a stow does to the set's membership: record the managed path,
/// once.
pub open spec fn stow_insert(dm: DotfilesModel, rel: Seq<Seq<char>>) -> DotfilesModel {
    DotfilesModel {
        dotfile_directory: dm.dotfile_directory,
        symlink_directory: dm.symlink_directory,
        paths: if dm.paths.contains(rel) {
            dm.paths
        } else {
            dm.paths.push(rel)
        },
    }
}

/// Whether the given path names a dotfile of this set: a relative path is
/// a membership test as is; an absolute one must lie under the storage
/// root and its remainder be a member.
pub open spec fn spec_is_dotfile(dm: DotfilesModel, path: FsPath) -> bool {
    if !path.absolute {
        dm.paths.contains(path.segs())
    } else {
        &&& dm.dotfile_directory.is_prefix_of(path.segs())
        &&& dm.paths.contains(path.segs().skip(dm.dotfile_directory.len() as int))
    }
}

/// The live-location symlink a deploy creates: absolute, pointing at the
/// storage slot.
pub open spec fn deploy_link(dm: DotfilesModel, rel: Seq<Seq<char>>) -> EntryModel {
    EntryModel::Symlink { absolute: true, target: stored_of(dm, rel) }
}

/// What one deploy of `rel` does to the filesystem: nothing when the
/// stored entry is missing (skipped) or the live location is occupied;
/// otherwise the live parent chain is created and the symlink placed.
pub open spec fn deploy_apply(dm: DotfilesModel, m: FsMap, rel: Seq<Seq<char>>) -> FsMap {
    let live = live_of(dm, rel);
    let stored = stored_of(dm, rel);
    if !m.contains_key(stored) {
        m
    } else if m.contains_key(live) {
        m
    } else if live.len() > 0 && dirs_ok(m, live.drop_last()) {
        with_dirs(m, live.drop_last()).insert(live, deploy_link(dm, rel))
    } else {
        m
    }
}

/// A deploy of `rel` fails outright (it is not merely skipped): the
/// storage root is gone, the path is not a member, the live location is
/// occupied by anything but the correct symlink, or the live parent chain
/// is blocked.
pub open spec fn deploy_hard_fail(dm: DotfilesModel, m: FsMap, rel: Seq<Seq<char>>) -> bool {
    let live = live_of(dm, rel);
    let stored = stored_of(dm, rel);
    ||| !m.contains_key(dm.dotfile_directory)
    ||| (m.contains_key(stored) && {
        ||| !dm.paths.contains(rel)
        ||| (m.contains_key(live) && m[live] != deploy_link(dm, rel))
        ||| (!m.contains_key(live) && (live.len() == 0 || !dirs_ok(m, live.drop_last())))
    })
}

/// Deploying the first `i` managed paths in order: the resulting map and
/// whether every one of them was deployed or skipped (a missing stored
/// entry is skipped; any other failure stops the batch).
pub open spec fn spec_deploy_fold(dm: DotfilesModel, m: FsMap, i: int) -> (FsMap, bool)
    decreases i,
{
    if i <= 0 {
        (m, true)
    } else {
        let prev = spec_deploy_fold(dm, m, i - 1);
        if !prev.1 {
            prev
        } else if deploy_hard_fail(dm, prev.0, dm.paths[i - 1]) {
            (prev.0, false)
        } else {
            (deploy_apply(dm, prev.0, dm.paths[i - 1]), true)
        }
    }
}

/// Where a restore of the given path would move bytes: the (live,
/// storage) pair, or nothing when this set does not own the path.  An
/// absolute path that is a symlink is owned when its target is one of the
/// set's dotfiles; an absolute non-symlink is owned when it lies in the
/// storage tree itself; a relative path is a membership test as is.
pub open spec fn restore_resolution(dm: DotfilesModel, m: FsMap, p: FsPath) -> Option<
    (Seq<Seq<char>>, Seq<Seq<char>>),
> {
    if !p.absolute {
        if dm.paths.contains(p.segs()) {
            Some((live_of(dm, p.segs()), stored_of(dm, p.segs())))
        } else {
            None
        }
    } else if m[p.segs()] is Symlink {
        let t = m[p.segs()];
        if t->Symlink_absolute {
            if dm.dotfile_directory.is_prefix_of(t->Symlink_target) && dm.paths.contains(
                t->Symlink_target.skip(dm.dotfile_directory.len() as int),
            ) {
                Some((p.segs(), t->Symlink_target))
            } else {
                None
            }
        } else {
            if dm.paths.contains(t->Symlink_target) {
                Some((p.segs(), stored_of(dm, t->Symlink_target)))
            } else {
                None
            }
        }
    } else {
        if dm.dotfile_directory.is_prefix_of(p.segs()) && dm.paths.contains(
            p.segs().skip(dm.dotfile_directory.len() as int),
        ) {
            Some((live_of(dm, p.segs().skip(dm.dotfile_directory.len() as int)), p.segs()))
        } else {
            None
        }
    }
}

/// A restore with resolved locations can go through: the stored entry
/// exists and does not lie on the way to the live slot, the live slot
/// holds no directory and has nothing beneath it, the live parent is a
/// directory, and both devices are determinable.
pub open spec fn can_restore(
    m: FsMap,
    mounts: Seq<(FsPath, u64)>,
    live: Seq<Seq<char>>,
    stored: Seq<Seq<char>>,
) -> bool {
    &&& !stored.is_prefix_of(live)
    &&& m.contains_key(stored)
    &&& !spec_has_descendant(m, live)
    &&& (m.contains_key(live) ==> !(m[live] is Dir))
    &&& parent_is_dir(m, live)
    &&& device_known_seq(mounts, stored)
    &&& device_known_seq(mounts, live)
}

/// What a restore does to the filesystem: drop the live entry (the
/// symlink being replaced), and move the stored entry — with everything
/// beneath it — back to the live location.
pub open spec fn restore_effect(
    m: FsMap,
    live: Seq<Seq<char>>,
    stored: Seq<Seq<char>>,
) -> FsMap {
    crate::fs::moved_tree(m.remove(live), stored, live)
}

/// A dotfile set: a storage root, a symlink root, and the managed paths
/// under them.
#[derive(Debug)]
pub struct Dotfiles {
    /// Path relative to which managed paths are stored.
    pub dotfile_directory: DotfilesDir,
    /// Path where managed paths "land" when deployed, and from which they
    /// are moved and symlinked when stowed.
    pub symlink_directory: SymlinkDir,
    /// The managed paths: relative, unique, iterated in registration
    /// order, which makes batch deploys deterministic.
    pub paths: Vec<DotfilePath>,
}

impl Dotfiles {
    /// Validity: the roots are absolute and the managed paths relative and
    /// unique.
    pub open spec fn wf(&self) -> bool {
        &&& self.dotfile_directory.wf()
        &&& self.symlink_directory.wf()
        &&& forall|i: int| 0 <= i < self.paths@.len() ==> !(#[trigger] self.paths@[i]).0.absolute
        &&& forall|i: int, j: int|
            0 <= i < j < self.paths@.len() ==> (#[trigger] self.paths@[i].0.segs()) != (
            #[trigger] self.paths@[j].0.segs())
    }

    /// The mathematical value of the set.
    pub open spec fn model(&self) -> DotfilesModel {
        DotfilesModel {
            dotfile_directory: self.dotfile_directory.0.segs(),
            symlink_directory: self.symlink_directory.0.segs(),
            paths: Seq::new(self.paths@.len(), |i: int| self.paths@[i].0.segs()),
        }
    }

    /// Whether `dp` is one of this set's managed paths.
    pub fn contains_path(&self, dp: &DotfilePath) -> (r: bool)
        requires
            self.wf(),
            dp.wf(),
        ensures
            r == self.model().paths.contains(dp.0.segs()),
    {
        let mut i: usize = 0;
        while i < self.paths.len()
            invariant
                i <= self.paths@.len(),
                self.wf(),
                dp.wf(),
                forall|j: int| 0 <= j < i ==> (#[trigger] self.paths@[j].0.segs()) != dp.0.segs(),
            decreases self.paths@.len() - i,
        {
            if self.paths[i].0 == dp.0 {
                proof {
                    assert(self.model().paths[i as int] == dp.0.segs());
                }
                return true;
            }
            i = i + 1;
        }
        proof {
            if self.model().paths.contains(dp.0.segs()) {
                let j = choose|j: int|
                    0 <= j < self.model().paths.len() && self.model().paths[j] == dp.0.segs();
                assert(self.paths@[j].0.segs() == dp.0.segs());
                assert(false);
            }
        }
        false
    }

    /// The ownership test: whether the given path names a dotfile of this
    /// set.  It never errs: a path outside the set's roots simply is not
    /// owned.
    pub fn is_dotfile(&self, path: &FsPath) -> (r: bool)
        requires
            self.wf(),
        ensures
            r == spec_is_dotfile(self.model(), *path),
    {
        match DotfilePath::try_from_dir(&self.dotfile_directory, path) {
            Ok(dp) => {
                let owned = self.contains_path(&dp);
                proof {
                    if path.absolute {
                        assert(self.model().dotfile_directory.is_prefix_of(path.segs()));
                    }
                }
                owned
            },
            Err(_) => false,
        }
    }

    /// Stow a managed path: move the live entry into the storage tree and
    /// replace it with a symlink pointing there.  Stowing a path that is
    /// already stowed succeeds and changes nothing; a foreign entry in the
    /// storage slot is refused, and nothing is changed on any failure.
    pub fn stow_path(&mut self, fs: &mut FsState, stow_path: &DotfilePath) -> (r: Result<
        (),
        Error,
    >)
        requires
            old(self).wf(),
            old(fs).wf(),
            stow_path.wf(),
        ensures
            final(self).wf(),
            final(fs).wf(),
            final(fs).mounts == old(fs).mounts,
            final(self).dotfile_directory.0.segs() == old(self).dotfile_directory.0.segs(),
            final(self).symlink_directory.0.segs() == old(self).symlink_directory.0.segs(),
            final(self).model().dotfile_directory == old(self).model().dotfile_directory,
            final(self).model().symlink_directory == old(self).model().symlink_directory,
            ({
                let dm = old(self).model();
                let rel = stow_path.0.segs();
                let live = live_of(dm, rel);
                let stored = stored_of(dm, rel);
                let m0 = old(fs)@;
                match r {
                    Ok(()) => {
                        ||| {
                            &&& stowed_state(dm, m0, rel)
                            &&& final(fs)@ == m0
                            &&& final(fs).entries == old(fs).entries
                            &&& final(self).model() == dm
                        }
                        ||| {
                            &&& can_stow_fresh(dm, old(fs)@, old(fs).mounts@, rel)
                            &&& final(fs)@ == stow_effect(dm, m0, rel)
                            &&& final(self).model() == stow_insert(dm, rel)
                        }
                    },
                    Err(e) => {
                        &&& final(fs)@ == m0
                        &&& final(fs).entries == old(fs).entries
                        &&& final(self).model() == dm
                        &&& !stowed_state(dm, m0, rel)
                        &&& !can_stow_fresh(dm, old(fs)@, old(fs).mounts@, rel)
                        &&& match e {
                            Error::PathDoesNotExist(q) => {
                                ||| (!m0.contains_key(live) && q.segs() == live)
                                ||| {
                                    &&& m0.contains_key(live)
                                    &&& !m0.contains_key(stored)
                                    &&& live.len() > 0
                                    &&& !parent_is_dir(m0, live)
                                    &&& q.segs() == live.drop_last()
                                }
                            },
                            Error::DotfilePathAlreadyExists(q) => {
                                &&& m0.contains_key(live)
                                &&& m0.contains_key(stored)
                                &&& !stowed_state(dm, m0, rel)
                                &&& q.segs() == rel
                            },
                            Error::InvalidSymlinkDestinationDirectory(q) => {
                                &&& m0.contains_key(live)
                                &&& !m0.contains_key(stored)
                                &&& (q.segs() == live || q.segs() == stored)
                                &&& q.segs().len() == 0
                            },
                            Error::BadInput(_) => {
                                &&& m0.contains_key(live)
                                &&& !m0.contains_key(stored)
                                &&& {
                                    ||| live.is_prefix_of(stored)
                                    ||| stored.is_prefix_of(live)
                                }
                            },
                            Error::ConflictingPath(q) => {
                                &&& m0.contains_key(live)
                                &&& !m0.contains_key(stored)
                                &&& {
                                    ||| (stored.len() > 0 && !dirs_ok(m0, stored.drop_last())
                                        && q.segs() == stored.drop_last())
                                    ||| (spec_has_descendant(m0, stored) && q.segs() == stored)
                                }
                            },
                            Error::UnableToRetrievePathDeviceInfo(q) => {
                                ||| (!old(fs).device_known(live) && q.segs() == live)
                                ||| (!old(fs).device_known(stored) && q.segs() == stored)
                            },
                            _ => false,
                        }
                    },
                }
            }),
    {
        let live_path = self.symlink_directory.0.join(&stow_path.0);
        let stored_path = self.dotfile_directory.0.join(&stow_path.0);
        let ghost dm = self.model();
        let ghost rel = stow_path.0.segs();
        let ghost live = live_of(dm, rel);
        let ghost stored = stored_of(dm, rel);
        let ghost m0 = fs@;

        if !fs.exists_entry(&live_path) {
            return Err(Error::PathDoesNotExist(live_path));
        }
        if fs.exists_entry(&stored_path) {
            // The storage slot is occupied: a no-op if the live location is
            // already the right symlink, a refusal otherwise.
            match fs.lookup(&live_path) {
                Some(e) => match e {
                    FsEntry::Symlink { target } => {
                        if *target == stored_path {
                            return Ok(());
                        }
                    },
                    _ => {},
                },
                None => {},
            }
            return Err(Error::DotfilePathAlreadyExists(stow_path.0.clone()));
        }
        let live_parent = match live_path.parent() {
            Some(q) => q,
            None => {
                return Err(Error::InvalidSymlinkDestinationDirectory(live_path));
            },
        };
        let live_parent_ok = match fs.lookup(&live_parent) {
            Some(e) => match e {
                FsEntry::Dir => true,
                _ => false,
            },
            None => false,
        };
        if !live_parent_ok {
            return Err(Error::PathDoesNotExist(live_parent));
        }
        if live_path.starts_with(&stored_path) || stored_path.starts_with(&live_path) {
            return Err(Error::BadInput("the live and storage locations overlap"));
        }
        let stored_parent = match stored_path.parent() {
            Some(q) => q,
            None => {
                return Err(Error::InvalidSymlinkDestinationDirectory(stored_path));
            },
        };
        if !fs.can_make_dirs(&stored_parent) {
            return Err(Error::ConflictingPath(stored_parent));
        }
        if fs.has_descendant(&stored_path) {
            return Err(Error::ConflictingPath(stored_path));
        }
        match fs.device_of(&live_path) {
            Ok(_) => {},
            Err(e) => {
                return Err(e);
            },
        }
        match fs.device_of(&stored_path) {
            Ok(_) => {},
            Err(e) => {
                return Err(e);
            },
        }

        // Everything is checked: the three mutations below cannot fail.
        proof {
            assert(can_stow_fresh(dm, old(fs)@, old(fs).mounts@, rel));
            crate::fs::lemma_with_dirs_props(m0, stored.drop_last());
            assert(stored.drop_last() =~= stored.take(stored.len() - 1));
        }
        match fs.create_dir_all(&stored_parent) {
            Ok(()) => {},
            Err(e) => {
                proof {
                    assert(false);
                }
                return Err(e);
            },
        }
        let ghost m1 = fs@;
        proof {
            // The chain creation touched nothing that the move depends on.
            assert(m1.contains_key(live) && m1[live] == m0[live]);
            assert(!m1.contains_key(stored)) by {
                if m1.contains_key(stored) {
                    assert(stored.is_prefix_of(stored.drop_last()));
                    assert(stored.len() <= stored.drop_last().len());
                }
            }
            assert(parent_is_dir(m1, stored));
            assert(parent_is_dir(m1, live)) by {
                assert(live.drop_last() != stored.drop_last() || m0.contains_key(live.drop_last()));
                if !m0.contains_key(live.drop_last()) {
                    assert(m1.contains_key(live.drop_last()) ==> live.drop_last().is_prefix_of(
                        stored.drop_last(),
                    ));
                }
            }
            assert(!spec_has_descendant(m1, stored)) by {
                if spec_has_descendant(m1, stored) {
                    let k = choose|k: Seq<Seq<char>>|
                        #[trigger] m1.contains_key(k) && stored.is_prefix_of(k) && k.len()
                            > stored.len();
                    if !m0.contains_key(k) {
                        assert(k.is_prefix_of(stored.drop_last()));
                        assert(k.len() <= stored.drop_last().len());
                    } else {
                        assert(spec_has_descendant(m0, stored));
                    }
                }
            }
            assert(!live.is_prefix_of(stored));
            assert(fs.mounts@ == old(fs).mounts@);
            assert(fs.device_known(live)) by {
                let i = choose|i: int|
                    0 <= i < old(fs).mounts@.len() && #[trigger] old(fs).mount_covers(i, live);
                assert(fs.mount_covers(i, live));
            }
            assert(fs.device_known(stored)) by {
                let i = choose|i: int|
                    0 <= i < old(fs).mounts@.len() && #[trigger] old(fs).mount_covers(i, stored);
                assert(fs.mount_covers(i, stored));
            }
        }
        match move_file(fs, &live_path, &stored_path) {
            Ok(()) => {},
            Err(e) => {
                proof {
                    assert(false);
                }
                return Err(e);
            },
        }
        let ghost m2 = fs@;
        proof {
            assert(m2 == crate::fs::moved_tree(m1, live, stored));
            assert(!m2.contains_key(live)) by {
                assert(!stored.is_prefix_of(live));
                assert(live.is_prefix_of(live));
            }
            assert(parent_is_dir(m2, live)) by {
                let lp = live.drop_last();
                assert(lp.is_prefix_of(live)) by {
                    assert(lp =~= live.take(live.len() - 1));
                }
                assert(!stored.is_prefix_of(lp)) by {
                    if stored.is_prefix_of(lp) {
                        crate::paths::lemma_prefix_transitive(stored, lp, live);
                    }
                }
                assert(!live.is_prefix_of(lp)) by {
                    if live.is_prefix_of(lp) {
                        assert(live.len() <= lp.len());
                    }
                }
                assert(m2.contains_key(lp) && m2[lp] == m1[lp]);
            }
        }
        match create_symlink(fs, &stored_path, &live_path) {
            Ok(()) => {},
            Err(e) => {
                proof {
                    assert(false);
                }
                return Err(e);
            },
        }
        proof {
            assert(fs@ == stow_effect(dm, m0, rel));
        }
        if !self.contains_path(stow_path) {
            let ghost p0 = self.paths@;
            self.paths.push(stow_path.clone());
            proof {
                assert forall|j: int| 0 <= j < p0.len() implies (#[trigger] self.paths@[j].0.segs())
                    == p0[j].0.segs() by {
                    assert(self.paths@[j] == p0[j]);
                }
                assert(self.model().paths =~= dm.paths.push(rel));
                assert(final(self).model() == stow_insert(dm, rel));
                assert forall|a: int, b: int| 0 <= a < b < self.paths@.len() implies (
                #[trigger] self.paths@[a].0.segs()) != (#[trigger] self.paths@[b].0.segs()) by {
                    if b < self.paths@.len() - 1 {
                        assert(self.paths@[a] == p0[a] && self.paths@[b] == p0[b]);
                    } else {
                        assert(self.paths@[a] == p0[a]);
                        assert(dm.paths[a] == p0[a].0.segs());
                        assert(self.paths@[b].0.segs() == rel);
                        if p0[a].0.segs() == rel {
                            assert(dm.paths.contains(rel));
                            assert(false);
                        }
                    }
                }
                assert forall|a: int| 0 <= a < self.paths@.len() implies !(
                #[trigger] self.paths@[a]).0.absolute by {
                    if a < self.paths@.len() - 1 {
                        assert(self.paths@[a] == p0[a]);
                    }
                }
            }
        } else {
            proof {
                assert(self.model().paths =~= dm.paths);
                assert(final(self).model() == stow_insert(dm, rel));
            }
        }
        Ok(())
    }

    /// Deploy a managed path: create the live-space symlink pointing at
    /// the already-stored entry.  No bytes move; deploying an already
    /// deployed path succeeds and changes nothing, and an occupied live
    /// location is never overwritten.
    pub fn deploy(&self, fs: &mut FsState, path: &DotfilePath) -> (r: Result<(), Error>)
        requires
            self.wf(),
            old(fs).wf(),
            path.wf(),
        ensures
            final(fs).wf(),
            final(fs).mounts == old(fs).mounts,
            ({
                let dm = self.model();
                let rel = path.0.segs();
                let live = live_of(dm, rel);
                let stored = stored_of(dm, rel);
                let m0 = old(fs)@;
                match r {
                    Ok(()) => {
                        &&& m0.contains_key(dm.dotfile_directory)
                        &&& m0.contains_key(stored)
                        &&& dm.paths.contains(rel)
                        &&& !deploy_hard_fail(dm, m0, rel)
                        &&& final(fs)@ == deploy_apply(dm, m0, rel)
                        &&& (m0.contains_key(live) ==> final(fs).entries == old(fs).entries)
                    },
                    Err(e) => {
                        &&& final(fs)@ == m0
                        &&& final(fs).entries == old(fs).entries
                        &&& match e {
                            Error::PathDoesNotExist(q) => !m0.contains_key(dm.dotfile_directory)
                                && q.segs() == dm.dotfile_directory,
                            Error::DotfileNotFound(q) => {
                                &&& m0.contains_key(dm.dotfile_directory)
                                &&& !m0.contains_key(stored)
                                &&& q.segs() == stored
                            },
                            Error::NoMatchingDotfileConfigured(q) => {
                                &&& m0.contains_key(dm.dotfile_directory)
                                &&& m0.contains_key(stored)
                                &&& !dm.paths.contains(rel)
                                &&& q.segs() == stored
                            },
                            Error::SymlinkPathAlreadyExists(q) => {
                                &&& m0.contains_key(stored) && dm.paths.contains(rel)
                                &&& m0.contains_key(live)
                                &&& m0[live] is Symlink
                                &&& m0[live] != deploy_link(dm, rel)
                                &&& q.segs() == live
                            },
                            Error::SymlinkPathIsNotASymlink(q) => {
                                &&& m0.contains_key(stored) && dm.paths.contains(rel)
                                &&& m0.contains_key(live)
                                &&& !(m0[live] is Symlink)
                                &&& q.segs() == live
                            },
                            Error::InvalidSymlinkDestinationDirectory(q) => {
                                &&& m0.contains_key(stored) && dm.paths.contains(rel)
                                &&& !m0.contains_key(live)
                                &&& live.len() == 0
                                &&& q.segs() == live
                            },
                            Error::ConflictingPath(q) => {
                                &&& m0.contains_key(stored) && dm.paths.contains(rel)
                                &&& !m0.contains_key(live)
                                &&& live.len() > 0
                                &&& !dirs_ok(m0, live.drop_last())
                                &&& q.segs() == live.drop_last()
                            },
                            _ => false,
                        }
                    },
                }
            }),
    {
        let ghost dm = self.model();
        let ghost rel = path.0.segs();
        let ghost live = live_of(dm, rel);
        let ghost stored = stored_of(dm, rel);
        let ghost m0 = fs@;
        if !fs.exists_entry(&self.dotfile_directory.0) {
            return Err(Error::PathDoesNotExist(self.dotfile_directory.0.clone()));
        }
        let stored_path = self.dotfile_directory.0.join(&path.0);
        if !fs.exists_entry(&stored_path) {
            return Err(Error::DotfileNotFound(stored_path));
        }
        if !self.contains_path(path) {
            return Err(Error::NoMatchingDotfileConfigured(stored_path));
        }
        let live_path = self.symlink_directory.0.join(&path.0);
        match fs.lookup(&live_path) {
            Some(e) => match e {
                FsEntry::Symlink { target } => {
                    if *target == stored_path {
                        return Ok(());
                    }
                    return Err(Error::SymlinkPathAlreadyExists(live_path));
                },
                _ => {
                    return Err(Error::SymlinkPathIsNotASymlink(live_path));
                },
            },
            None => {},
        }
        let live_parent = match live_path.parent() {
            Some(q) => q,
            None => {
                return Err(Error::InvalidSymlinkDestinationDirectory(live_path));
            },
        };
        if !fs.can_make_dirs(&live_parent) {
            return Err(Error::ConflictingPath(live_parent));
        }
        proof {
            crate::fs::lemma_with_dirs_props(m0, live.drop_last());
        }
        match fs.create_dir_all(&live_parent) {
            Ok(()) => {},
            Err(e) => {
                proof {
                    assert(false);
                }
                return Err(e);
            },
        }
        proof {
            assert(!fs@.contains_key(live)) by {
                if fs@.contains_key(live) {
                    assert(live.is_prefix_of(live.drop_last()));
                    assert(live.len() <= live.drop_last().len());
                }
            }
            assert(parent_is_dir(fs@, live));
        }
        match create_symlink(fs, &stored_path, &live_path) {
            Ok(()) => {},
            Err(e) => {
                proof {
                    assert(false);
                }
                return Err(e);
            },
        }
        proof {
            assert(fs@ == deploy_apply(dm, m0, rel));
        }
        Ok(())
    }

    /// Deploy every managed path of the set, in registration order: a
    /// path whose stored entry is missing is skipped, any other failure
    /// stops the batch and is reported.
    pub fn deploy_all(&self, fs: &mut FsState) -> (r: Result<(), Error>)
        requires
            self.wf(),
            old(fs).wf(),
        ensures
            final(fs).wf(),
            final(fs).mounts == old(fs).mounts,
            ({
                let dm = self.model();
                let m0 = old(fs)@;
                let outcome = spec_deploy_fold(dm, m0, dm.paths.len() as int);
                match r {
                    Ok(()) => outcome.1 && final(fs)@ == outcome.0,
                    Err(e) => !outcome.1 && final(fs)@ == outcome.0,
                }
            }),
    {
        let ghost dm = self.model();
        let ghost m0 = fs@;
        let mut i: usize = 0;
        while i < self.paths.len()
            invariant
                i <= self.paths@.len(),
                self.wf(),
                fs.wf(),
                dm == self.model(),
                m0 == old(fs)@,
                fs.mounts == old(fs).mounts,
                spec_deploy_fold(dm, m0, i as int) == (fs@, true),
            decreases self.paths@.len() - i,
        {
            let ghost prev = fs@;
            let res = self.deploy(fs, &self.paths[i]);
            proof {
                assert(dm.paths[i as int] == self.paths@[i as int].0.segs());
            }
            match res {
                Ok(()) => {
                    proof {
                        assert(!deploy_hard_fail(dm, prev, dm.paths[i as int]));
                        assert(spec_deploy_fold(dm, m0, i + 1 as int) == (fs@, true));
                    }
                },
                Err(e) => {
                    match e {
                        Error::DotfileNotFound(_) => {
                            proof {
                                assert(!deploy_hard_fail(dm, prev, dm.paths[i as int]));
                                assert(deploy_apply(dm, prev, dm.paths[i as int]) == prev);
                                assert(spec_deploy_fold(dm, m0, i + 1 as int) == (fs@, true));
                            }
                        },
                        _ => {
                            proof {
                                assert(deploy_hard_fail(dm, prev, dm.paths[i as int]));
                                assert(!spec_deploy_fold(dm, m0, dm.paths.len() as int).1
                                    && spec_deploy_fold(dm, m0, dm.paths.len() as int).0 == fs@) by {
                                    lemma_deploy_fold_stuck(dm, m0, i + 1 as int, dm.paths.len() as int);
                                }
                            }
                            return Err(e);
                        },
                    }
                },
            }
            i = i + 1;
        }
        Ok(())
    }

    /// Restore the named dotfile if this set owns it: remove the live
    /// symlink and move the stored entry back to the live location.  A
    /// path this set does not own is no error: the registry probes each
    /// set in turn.  Membership is not withdrawn: the persisted set
    /// remains the source of truth, and a later batch deploy simply skips
    /// a member whose stored entry is gone.
    pub fn restore_dotfile(&self, fs: &mut FsState, path: &FsPath) -> (r: Result<
        Option<()>,
        Error,
    >)
        requires
            self.wf(),
            old(fs).wf(),
        ensures
            final(fs).wf(),
            final(fs).mounts == old(fs).mounts,
            ({
                let dm = self.model();
                let m0 = old(fs)@;
                let resolution = restore_resolution(dm, m0, *path);
                match r {
                    Ok(s) => match s {
                        Some(()) => {
                            &&& (path.absolute ==> m0.contains_key(path.segs()))
                            &&& resolution is Some
                            &&& can_restore(m0, old(fs).mounts@, resolution->Some_0.0, resolution->Some_0.1)
                            &&& final(fs)@ == restore_effect(
                                m0,
                                resolution->Some_0.0,
                                resolution->Some_0.1,
                            )
                        },
                        None => {
                            &&& (path.absolute ==> m0.contains_key(path.segs()))
                            &&& resolution is None
                            &&& final(fs)@ == m0
                            &&& final(fs).entries == old(fs).entries
                        },
                    },
                    Err(e) => {
                        &&& final(fs)@ == m0
                        &&& final(fs).entries == old(fs).entries
                        &&& match e {
                            Error::PathDoesNotExist(q) => {
                                ||| (path.absolute && !m0.contains_key(path.segs()) && q.segs()
                                    == path.segs())
                                ||| (resolution matches Some(pair) && !m0.contains_key(pair.1)
                                    && q.segs() == pair.1)
                                ||| (resolution matches Some(pair) && pair.0.len() > 0
                                    && !parent_is_dir(m0, pair.0) && q.segs()
                                    == pair.0.drop_last())
                            },
                            Error::BadInput(_) => resolution matches Some(pair) && (
                            pair.1.is_prefix_of(pair.0) || spec_has_descendant(m0, pair.0)),
                            Error::ConflictingPath(q) => resolution matches Some(pair)
                                && m0.contains_key(pair.0) && m0[pair.0] is Dir && q.segs()
                                == pair.0,
                            Error::InvalidSymlinkDestinationDirectory(q) => resolution matches Some(
                                pair,
                            ) && pair.0.len() == 0 && q.segs() == pair.0,
                            Error::UnableToRetrievePathDeviceInfo(q) => {
                                ||| (resolution matches Some(pair) && !old(fs).device_known(pair.1)
                                    && q.segs() == pair.1)
                                ||| (resolution matches Some(pair) && !old(fs).device_known(pair.0)
                                    && q.segs() == pair.0)
                            },
                            _ => false,
                        }
                    },
                }
            }),
    {
        let ghost dm = self.model();
        let ghost m0 = fs@;
        let resolved: Option<(FsPath, FsPath)> = if !path.absolute {
            let dp = DotfilePath(path.clone());
            if self.contains_path(&dp) {
                Some(
                    (self.symlink_directory.0.join(path), self.dotfile_directory.0.join(path)),
                )
            } else {
                None
            }
        } else {
            match fs.lookup(path) {
                None => {
                    return Err(Error::PathDoesNotExist(path.clone()));
                },
                Some(e) => match e {
                    FsEntry::Symlink { target } => {
                        if self.is_dotfile(target) {
                            let stored_path = if target.absolute {
                                target.clone()
                            } else {
                                self.dotfile_directory.0.join(target)
                            };
                            Some((path.clone(), stored_path))
                        } else {
                            None
                        }
                    },
                    _ => {
                        if self.is_dotfile(path) {
                            match path.strip_prefix(&self.dotfile_directory.0) {
                                Ok(rel) => Some(
                                    (self.symlink_directory.0.join(&rel), path.clone()),
                                ),
                                Err(e) => {
                                    proof {
                                        assert(false);
                                    }
                                    return Err(e);
                                },
                            }
                        } else {
                            None
                        }
                    },
                },
            }
        };
        let (live_path, stored_path) = match resolved {
            None => {
                return Ok(None);
            },
            Some(pair) => pair,
        };
        let ghost live = live_path.segs();
        let ghost stored = stored_path.segs();
        proof {
            assert(restore_resolution(dm, m0, *path) == Some::<(Seq<Seq<char>>, Seq<Seq<char>>)>(
                (live, stored),
            ));
        }
        if live_path.starts_with(&stored_path) {
            return Err(Error::BadInput("the storage location lies on the way to the live one"));
        }
        if !fs.exists_entry(&stored_path) {
            return Err(Error::PathDoesNotExist(stored_path));
        }
        if fs.has_descendant(&live_path) {
            return Err(Error::BadInput("the live location has entries beneath it"));
        }
        let live_is_dir = match fs.lookup(&live_path) {
            Some(e) => match e {
                FsEntry::Dir => true,
                _ => false,
            },
            None => false,
        };
        if live_is_dir {
            return Err(Error::ConflictingPath(live_path));
        }
        let live_parent = match live_path.parent() {
            Some(q) => q,
            None => {
                return Err(Error::InvalidSymlinkDestinationDirectory(live_path));
            },
        };
        let live_parent_ok = match fs.lookup(&live_parent) {
            Some(e) => match e {
                FsEntry::Dir => true,
                _ => false,
            },
            None => false,
        };
        if !live_parent_ok {
            return Err(Error::PathDoesNotExist(live_parent));
        }
        match fs.device_of(&stored_path) {
            Ok(_) => {},
            Err(e) => {
                return Err(e);
            },
        }
        match fs.device_of(&live_path) {
            Ok(_) => {},
            Err(e) => {
                return Err(e);
            },
        }
        proof {
            assert(can_restore(m0, old(fs).mounts@, live, stored));
        }
        if fs.exists_entry(&live_path) {
            match fs.remove_file(&live_path) {
                Ok(()) => {},
                Err(e) => {
                    proof {
                        assert(false);
                    }
                    return Err(e);
                },
            }
        }
        let ghost m1 = fs@;
        proof {
            assert(m1 == m0.remove(live) || m1 == m0);
            assert(live != stored);
            assert(m1.contains_key(stored) && m1[stored] == m0[stored]);
            assert(!m1.contains_key(live));
            assert(parent_is_dir(m1, live)) by {
                assert(live.drop_last() != live);
            }
            assert(!spec_has_descendant(m1, live)) by {
                if spec_has_descendant(m1, live) {
                    let k = choose|k: Seq<Seq<char>>|
                        #[trigger] m1.contains_key(k) && live.is_prefix_of(k) && k.len()
                            > live.len();
                    assert(m0.contains_key(k));
                }
            }
            assert(fs.mounts@ == old(fs).mounts@);
            assert(fs.device_known(stored)) by {
                let i = choose|i: int|
                    0 <= i < old(fs).mounts@.len() && #[trigger] old(fs).mount_covers(i, stored);
                assert(fs.mount_covers(i, stored));
            }
            assert(fs.device_known(live)) by {
                let i = choose|i: int|
                    0 <= i < old(fs).mounts@.len() && #[trigger] old(fs).mount_covers(i, live);
                assert(fs.mount_covers(i, live));
            }
        }
        match move_file(fs, &stored_path, &live_path) {
            Ok(()) => {},
            Err(e) => {
                proof {
                    assert(false);
                }
                return Err(e);
            },
        }
        proof {
            if m1 == m0 {
                assert(m0.remove(live) =~= m0);
                assert(m0.remove(live) == m0);
            }
            assert(fs@ == restore_effect(m0, live, stored));
        }
        Ok(Some(()))
    }
}

/// The first registered set whose two roots are exactly the given pair,
/// or the number of sets when none matches.
pub open spec fn first_match(
    cm: Seq<DotfilesModel>,
    dot: Seq<Seq<char>>,
    sym: Seq<Seq<char>>,
    j: int,
) -> int
    decreases cm.len() - j
        when 0 <= j <= cm.len()
{
    if j >= cm.len() {
        cm.len() as int
    } else if cm[j].dotfile_directory == dot && cm[j].symlink_directory == sym {
        j
    } else {
        first_match(cm, dot, sym, j + 1)
    }
}

/// The first registered set that owns the given path for a restore, or
/// the number of sets when none does.
pub open spec fn first_restorer(cm: Seq<DotfilesModel>, m: FsMap, p: FsPath, j: int) -> int
    decreases cm.len() - j
        when 0 <= j <= cm.len()
{
    if j >= cm.len() {
        cm.len() as int
    } else if restore_resolution(cm[j], m, p) is Some {
        j
    } else {
        first_restorer(cm, m, p, j + 1)
    }
}

/// What one registry-level stow does: the first set with the given roots
/// performs it; with no such set, a new set is registered (if both roots
/// are existing directories) and performs it.  Returns the new sequence
/// of set values, the new filesystem, and whether the stow succeeded.
pub open spec fn spec_stow_one(
    cm: Seq<DotfilesModel>,
    m: FsMap,
    mounts: Seq<(FsPath, u64)>,
    dot: Seq<Seq<char>>,
    sym: Seq<Seq<char>>,
    rel: Seq<Seq<char>>,
) -> (Seq<DotfilesModel>, FsMap, bool) {
    let i = first_match(cm, dot, sym, 0);
    if i < cm.len() {
        let dm = cm[i];
        if stowed_state(dm, m, rel) {
            (cm, m, true)
        } else if can_stow_fresh(dm, m, mounts, rel) {
            (cm.update(i, stow_insert(dm, rel)), stow_effect(dm, m, rel), true)
        } else {
            (cm, m, false)
        }
    } else {
        if !(m.contains_key(dot) && m[dot] is Dir && m.contains_key(sym) && m[sym] is Dir) {
            (cm, m, false)
        } else {
            let dmn = DotfilesModel {
                dotfile_directory: dot,
                symlink_directory: sym,
                paths: Seq::empty(),
            };
            if stowed_state(dmn, m, rel) {
                (cm.push(dmn), m, true)
            } else if can_stow_fresh(dmn, m, mounts, rel) {
                (cm.push(stow_insert(dmn, rel)), stow_effect(dmn, m, rel), true)
            } else {
                (cm.push(dmn), m, false)
            }
        }
    }
}

/// Stowing the first `i` given paths in order; the batch stops at the
/// first failure.
pub open spec fn spec_stow_paths_fold(
    cm: Seq<DotfilesModel>,
    m: FsMap,
    mounts: Seq<(FsPath, u64)>,
    dot: Seq<Seq<char>>,
    sym: Seq<Seq<char>>,
    ps: Seq<Seq<Seq<char>>>,
    i: int,
) -> (Seq<DotfilesModel>, FsMap, bool)
    decreases i,
{
    if i <= 0 {
        (cm, m, true)
    } else {
        let prev = spec_stow_paths_fold(cm, m, mounts, dot, sym, ps, i - 1);
        if !prev.2 {
            prev
        } else {
            spec_stow_one(prev.0, prev.1, mounts, dot, sym, ps[i - 1])
        }
    }
}

/// Once a stow batch has failed, it stays failed and nothing more moves.
pub proof fn lemma_stow_fold_stuck(
    cm: Seq<DotfilesModel>,
    m: FsMap,
    mounts: Seq<(FsPath, u64)>,
    dot: Seq<Seq<char>>,
    sym: Seq<Seq<char>>,
    ps: Seq<Seq<Seq<char>>>,
    i: int,
    n: int,
)
    requires
        0 < i <= n,
        !spec_stow_paths_fold(cm, m, mounts, dot, sym, ps, i).2,
    ensures
        spec_stow_paths_fold(cm, m, mounts, dot, sym, ps, n) == spec_stow_paths_fold(
            cm,
            m,
            mounts,
            dot,
            sym,
            ps,
            i,
        ),
    decreases n - i,
{
    if i < n {
        lemma_stow_fold_stuck(cm, m, mounts, dot, sym, ps, i + 1, n);
    }
}

/// Deploying every path of the first `i` registered sets, set by set; the
/// batch stops at the first hard failure.
pub open spec fn spec_config_deploy_fold(cm: Seq<DotfilesModel>, m: FsMap, i: int) -> (
    FsMap,
    bool,
)
    decreases i,
{
    if i <= 0 {
        (m, true)
    } else {
        let prev = spec_config_deploy_fold(cm, m, i - 1);
        if !prev.1 {
            prev
        } else {
            spec_deploy_fold(cm[i - 1], prev.0, cm[i - 1].paths.len() as int)
        }
    }
}

/// Once a set-by-set deploy batch has failed, it stays failed.
pub proof fn lemma_config_deploy_fold_stuck(cm: Seq<DotfilesModel>, m: FsMap, i: int, n: int)
    requires
        0 < i <= n,
        !spec_config_deploy_fold(cm, m, i).1,
    ensures
        spec_config_deploy_fold(cm, m, n) == spec_config_deploy_fold(cm, m, i),
    decreases n - i,
{
    if i < n {
        lemma_config_deploy_fold_stuck(cm, m, i + 1, n);
    }
}

/// The outcome of offering one path to the registered sets in order.
pub ghost enum ProbeOutcome {
    /// Some set deployed it; the filesystem is the new map.
    Deployed { m: FsMap },
    /// No set owns it.
    NoMatch,
    /// The first set that could have deployed it failed hard.
    Failed,
}

/// Offer one path to the sets from index `j` on: the first set whose
/// storage root is a prefix (or any set, for a relative path) tries to
/// deploy it; a set without the stored entry passes it along.
pub open spec fn spec_probe_deploy(
    cm: Seq<DotfilesModel>,
    m: FsMap,
    p: FsPath,
    j: int,
) -> ProbeOutcome
    decreases cm.len() - j
        when 0 <= j <= cm.len()
{
    if j >= cm.len() {
        ProbeOutcome::NoMatch
    } else {
        let dm = cm[j];
        if p.absolute && !dm.dotfile_directory.is_prefix_of(p.segs()) {
            spec_probe_deploy(cm, m, p, j + 1)
        } else {
            let rel = if p.absolute {
                p.segs().skip(dm.dotfile_directory.len() as int)
            } else {
                p.segs()
            };
            if deploy_hard_fail(dm, m, rel) {
                ProbeOutcome::Failed
            } else if !m.contains_key(stored_of(dm, rel)) {
                spec_probe_deploy(cm, m, p, j + 1)
            } else {
                ProbeOutcome::Deployed { m: deploy_apply(dm, m, rel) }
            }
        }
    }
}

/// Deploying the first `i` given paths in order, each through the first
/// set that takes it; a path nobody takes, or a hard failure, stops the
/// batch.
pub open spec fn spec_deploy_paths_fold(
    cm: Seq<DotfilesModel>,
    m: FsMap,
    ps: Seq<FsPath>,
    i: int,
) -> (FsMap, bool)
    decreases i,
{
    if i <= 0 {
        (m, true)
    } else {
        let prev = spec_deploy_paths_fold(cm, m, ps, i - 1);
        if !prev.1 {
            prev
        } else {
            match spec_probe_deploy(cm, prev.0, ps[i - 1], 0) {
                ProbeOutcome::Deployed { m: m2 } => (m2, true),
                ProbeOutcome::NoMatch => (prev.0, false),
                ProbeOutcome::Failed => (prev.0, false),
            }
        }
    }
}

/// Once a path-by-path deploy batch has failed, it stays failed.
pub proof fn lemma_deploy_paths_fold_stuck(
    cm: Seq<DotfilesModel>,
    m: FsMap,
    ps: Seq<FsPath>,
    i: int,
    n: int,
)
    requires
        0 < i <= n,
        !spec_deploy_paths_fold(cm, m, ps, i).1,
    ensures
        spec_deploy_paths_fold(cm, m, ps, n) == spec_deploy_paths_fold(cm, m, ps, i),
    decreases n - i,
{
    if i < n {
        lemma_deploy_paths_fold_stuck(cm, m, ps, i + 1, n);
    }
}

/// Once a deploy batch has failed, it stays failed and the map stays put./// Once a deploy batch has failed, it stays failed and the map stays put.
pub proof fn lemma_deploy_fold_stuck(dm: DotfilesModel, m: FsMap, i: int, n: int)
    requires
        0 < i <= n,
        !spec_deploy_fold(dm, m, i).1,
    ensures
        !spec_deploy_fold(dm, m, n).1,
        spec_deploy_fold(dm, m, n).0 == spec_deploy_fold(dm, m, i).0,
    decreases n - i,
{
    if i < n {
        lemma_deploy_fold_stuck(dm, m, i + 1, n);
    }
}

/// The registry: an ordered collection of dotfile sets.  Operations
/// short-circuit on the first set that claims a path.  Persistence is
/// explicit: a front end loads a `Config`, passes it through the
/// operations, and saves it back.
#[derive(Debug)]
pub struct Config {
    /// The registered dotfile sets, in registration order.
    pub dotfiles: Vec<Dotfiles>,
}

impl Config {
    /// Validity: every registered set is valid.
    pub open spec fn wf(&self) -> bool {
        forall|i: int| 0 <= i < self.dotfiles@.len() ==> (#[trigger] self.dotfiles@[i]).wf()
    }

    /// The mathematical value of the registry: the set values in order.
    pub open spec fn model(&self) -> Seq<DotfilesModel> {
        Seq::new(self.dotfiles@.len(), |i: int| self.dotfiles@[i].model())
    }

    /// An empty registry.
    pub fn new() -> (r: Config)
        ensures
            r.wf(),
            r.model() =~= Seq::<DotfilesModel>::empty(),
    {
        Config { dotfiles: Vec::new() }
    }

    /// Register a new dotfile set over the given pair of roots, which must
    /// both be existing directories.
    pub fn add_dotfiles(
        &mut self,
        fs: &FsState,
        symlink_dir: &SymlinkDir,
        dotfile_dir: &DotfilesDir,
    ) -> (r: Result<(), Error>)
        requires
            old(self).wf(),
            fs.wf(),
            symlink_dir.wf(),
            dotfile_dir.wf(),
        ensures
            final(self).wf(),
            match r {
                Ok(()) => {
                    &&& fs@.contains_key(dotfile_dir.0.segs()) && fs@[dotfile_dir.0.segs()] is Dir
                    &&& fs@.contains_key(symlink_dir.0.segs()) && fs@[symlink_dir.0.segs()] is Dir
                    &&& final(self).model() =~= old(self).model().push(
                        DotfilesModel {
                            dotfile_directory: dotfile_dir.0.segs(),
                            symlink_directory: symlink_dir.0.segs(),
                            paths: Seq::empty(),
                        },
                    )
                },
                Err(e) => {
                    &&& !(fs@.contains_key(dotfile_dir.0.segs()) && fs@[dotfile_dir.0.segs()]
                        is Dir && fs@.contains_key(symlink_dir.0.segs())
                        && fs@[symlink_dir.0.segs()] is Dir)
                    &&& final(self).dotfiles == old(self).dotfiles
                    &&& e is BadInput
                },
            },
    {
        let dot_ok = match fs.lookup(&dotfile_dir.0) {
            Some(e) => match e {
                FsEntry::Dir => true,
                _ => false,
            },
            None => false,
        };
        if !dot_ok {
            return Err(Error::BadInput("the dotfiles path must be an existing directory"));
        }
        let sym_ok = match fs.lookup(&symlink_dir.0) {
            Some(e) => match e {
                FsEntry::Dir => true,
                _ => false,
            },
            None => false,
        };
        if !sym_ok {
            return Err(Error::BadInput("the symlink path must be an existing directory"));
        }
        let ghost d0 = self.dotfiles@;
        self.dotfiles.push(
            Dotfiles {
                dotfile_directory: dotfile_dir.clone(),
                symlink_directory: symlink_dir.clone(),
                paths: Vec::new(),
            },
        );
        proof {
            assert forall|j: int| 0 <= j < d0.len() implies (#[trigger] self.dotfiles@[j]) == d0[j] by {}
            assert(final(self).model() =~= old(self).model().push(
                DotfilesModel {
                    dotfile_directory: dotfile_dir.0.segs(),
                    symlink_directory: symlink_dir.0.segs(),
                    paths: Seq::empty(),
                },
            )) by {
                assert(self.dotfiles@.last().model().paths =~= Seq::<Seq<Seq<char>>>::empty());
            }
        }
        Ok(())
    }

    /// Stow one path under the given pair of roots: the first set with
    /// exactly those roots performs it; with no such set a new one is
    /// registered first.  The outcome is the registry-level stow
    /// transition; the error, when one comes, is the set-level one.
    fn stow_path(
        &mut self,
        fs: &mut FsState,
        symlink_dir: &SymlinkDir,
        dotfile_dir: &DotfilesDir,
        stow_path: &DotfilePath,
    ) -> (r: Result<(), Error>)
        requires
            old(self).wf(),
            old(fs).wf(),
            symlink_dir.wf(),
            dotfile_dir.wf(),
            stow_path.wf(),
        ensures
            final(self).wf(),
            final(fs).wf(),
            final(fs).mounts == old(fs).mounts,
            ({
                let one = spec_stow_one(
                    old(self).model(),
                    old(fs)@,
                    old(fs).mounts@,
                    dotfile_dir.0.segs(),
                    symlink_dir.0.segs(),
                    stow_path.0.segs(),
                );
                &&& final(self).model() == one.0
                &&& final(fs)@ == one.1
                &&& (r is Ok <==> one.2)
            }),
    {
        let ghost cm = self.model();
        let ghost m0 = fs@;
        let ghost dot = dotfile_dir.0.segs();
        let ghost sym = symlink_dir.0.segs();
        let ghost rel = stow_path.0.segs();
        let mut i: usize = 0;
        while i < self.dotfiles.len()
            invariant
                i <= self.dotfiles@.len(),
                self.wf(),
                fs.wf(),
                symlink_dir.wf(),
                dotfile_dir.wf(),
                stow_path.wf(),
                cm == self.model(),
                m0 == fs@,
                self.dotfiles == old(self).dotfiles,
                fs.entries == old(fs).entries,
                fs.mounts == old(fs).mounts,
                dot == dotfile_dir.0.segs(),
                sym == symlink_dir.0.segs(),
                rel == stow_path.0.segs(),
                first_match(cm, dot, sym, 0) == first_match(cm, dot, sym, i as int),
            decreases self.dotfiles@.len() - i,
        {
            if self.dotfiles[i].dotfile_directory.0 == dotfile_dir.0 && self.dotfiles[i].symlink_directory.0
                == symlink_dir.0 {
                proof {
                    assert(cm[i as int].dotfile_directory == dot && cm[i as int].symlink_directory
                        == sym);
                    assert(first_match(cm, dot, sym, i as int) == i as int);
                }
                let ghost dm = cm[i as int];
                let set = &mut self.dotfiles[i];
                let res = set.stow_path(fs, stow_path);
                proof {
                    assert forall|j: int|
                        0 <= j < self.dotfiles@.len() && j != i as int implies (
                    #[trigger] self.dotfiles@[j]) == old(self).dotfiles@[j] by {}
                    match res {
                        Ok(()) => {
                            if stowed_state(dm, m0, rel) && fs@ == m0 && self.dotfiles@[i as int].model()
                                == dm {
                                assert(self.model() =~~= cm);
                            } else {
                                assert(self.model() =~~= cm.update(i as int, stow_insert(dm, rel)));
                            }
                        },
                        Err(_) => {
                            assert(self.dotfiles@[i as int].model() == dm);
                            assert(self.model() =~~= cm);
                        },
                    }
                }
                return res;
            }
            proof {
                assert(cm[i as int].dotfile_directory != dot || cm[i as int].symlink_directory
                    != sym) by {
                    if self.dotfiles@[i as int].dotfile_directory.0.segs() == dot
                        && self.dotfiles@[i as int].symlink_directory.0.segs() == sym {
                        assert(false);
                    }
                }
            }
            i = i + 1;
        }
        proof {
            assert(first_match(cm, dot, sym, 0) == cm.len());
        }
        match self.add_dotfiles(fs, symlink_dir, dotfile_dir) {
            Ok(()) => {},
            Err(e) => {
                return Err(e);
            },
        }
        let ghost cm1 = self.model();
        let ghost dmn = DotfilesModel {
            dotfile_directory: dot,
            symlink_directory: sym,
            paths: Seq::empty(),
        };
        proof {
            assert(cm1 == cm.push(dmn));
        }
        let ghost d1 = self.dotfiles@;
        let ghost m1 = fs@;
        let n: usize = self.dotfiles.len();
        let set = &mut self.dotfiles[n - 1];
        proof {
            assert(*set == d1[n - 1]);
            assert(cm1[n - 1] == d1[n - 1].model());
            assert(cm1[n - 1] == dmn);
            assert(set.model() == dmn);
        }
        let res = set.stow_path(fs, stow_path);
        proof {
            assert forall|j: int| 0 <= j < self.dotfiles@.len() && j != n - 1 implies (
            #[trigger] self.dotfiles@[j]) == d1[j] by {}
            assert(m1 == m0);
            match res {
                Ok(()) => {
                    if stowed_state(dmn, m0, rel) && fs@ == m0 && self.dotfiles@[n - 1].model()
                        == dmn {
                        assert(self.model() =~~= cm1);
                    } else {
                        assert(can_stow_fresh(dmn, m0, old(fs).mounts@, rel)
                            && self.dotfiles@[n - 1].model() == stow_insert(dmn, rel));
                        assert(self.dotfiles@.len() == n);
                        assert(self.model().len() == n);
                        assert forall|j: int| 0 <= j < n - 1 implies self.model()[j] == cm.push(
                            stow_insert(dmn, rel),
                        )[j] by {
                            assert(self.model()[j] == self.dotfiles@[j].model());
                            assert(self.dotfiles@[j] == d1[j]);
                            assert(cm1[j] == d1[j].model());
                            assert(cm1[j] == cm[j]);
                        }
                        assert(self.model()[n - 1] == stow_insert(dmn, rel));
                        assert(self.model() =~~= cm.push(stow_insert(dmn, rel)));
                    }
                },
                Err(_) => {
                    assert(self.dotfiles@[n - 1].model() == dmn);
                    assert(self.model() =~~= cm1);
                },
            }
        }
        res
    }

    /// Stow each given path under the given pair of roots, in order,
    /// stopping at the first failure.
    pub fn stow_paths(
        &mut self,
        fs: &mut FsState,
        symlink_dir: SymlinkDir,
        dotfile_dir: DotfilesDir,
        stow_paths: Vec<DotfilePath>,
    ) -> (r: Result<(), Error>)
        requires
            old(self).wf(),
            old(fs).wf(),
            symlink_dir.wf(),
            dotfile_dir.wf(),
            forall|i: int| 0 <= i < stow_paths@.len() ==> (#[trigger] stow_paths@[i]).wf(),
        ensures
            final(self).wf(),
            final(fs).wf(),
            final(fs).mounts == old(fs).mounts,
            ({
                let ps = Seq::new(stow_paths@.len(), |i: int| stow_paths@[i].0.segs());
                let fold = spec_stow_paths_fold(
                    old(self).model(),
                    old(fs)@,
                    old(fs).mounts@,
                    dotfile_dir.0.segs(),
                    symlink_dir.0.segs(),
                    ps,
                    ps.len() as int,
                );
                &&& final(self).model() == fold.0
                &&& final(fs)@ == fold.1
                &&& (r is Ok <==> fold.2)
            }),
    {
        let ghost cm = self.model();
        let ghost m0 = fs@;
        let ghost mounts0 = fs.mounts@;
        let ghost dot = dotfile_dir.0.segs();
        let ghost sym = symlink_dir.0.segs();
        let ghost ps = Seq::new(stow_paths@.len(), |i: int| stow_paths@[i].0.segs());
        let mut i: usize = 0;
        while i < stow_paths.len()
            invariant
                i <= stow_paths@.len(),
                self.wf(),
                fs.wf(),
                symlink_dir.wf(),
                dotfile_dir.wf(),
                forall|j: int| 0 <= j < stow_paths@.len() ==> (#[trigger] stow_paths@[j]).wf(),
                cm == old(self).model(),
                m0 == old(fs)@,
                mounts0 == old(fs).mounts@,
                fs.mounts == old(fs).mounts,
                dot == dotfile_dir.0.segs(),
                sym == symlink_dir.0.segs(),
                ps == Seq::new(stow_paths@.len(), |i: int| stow_paths@[i].0.segs()),
                spec_stow_paths_fold(cm, m0, mounts0, dot, sym, ps, i as int) == (
                    self.model(),
                    fs@,
                    true,
                ),
            decreases stow_paths@.len() - i,
        {
            let res = self.stow_path(fs, &symlink_dir, &dotfile_dir, &stow_paths[i]);
            proof {
                assert(ps[i as int] == stow_paths@[i as int].0.segs());
            }
            match res {
                Ok(()) => {
                    proof {
                        assert(spec_stow_paths_fold(cm, m0, mounts0, dot, sym, ps, i + 1 as int)
                            == (self.model(), fs@, true));
                    }
                },
                Err(e) => {
                    proof {
                        assert(!spec_stow_paths_fold(
                            cm,
                            m0,
                            mounts0,
                            dot,
                            sym,
                            ps,
                            i + 1 as int,
                        ).2);
                        lemma_stow_fold_stuck(
                            cm,
                            m0,
                            mounts0,
                            dot,
                            sym,
                            ps,
                            i + 1 as int,
                            ps.len() as int,
                        );
                    }
                    return Err(e);
                },
            }
            i = i + 1;
        }
        Ok(())
    }

    /// Deploy every managed path of every registered set, set by set in
    /// registration order; a path missing from storage is skipped, any
    /// other failure stops the whole batch.
    pub fn deploy_all(&self, fs: &mut FsState) -> (r: Result<(), Error>)
        requires
            self.wf(),
            old(fs).wf(),
        ensures
            final(fs).wf(),
            final(fs).mounts == old(fs).mounts,
            ({
                let fold = spec_config_deploy_fold(
                    self.model(),
                    old(fs)@,
                    self.model().len() as int,
                );
                &&& final(fs)@ == fold.0
                &&& (r is Ok <==> fold.1)
            }),
    {
        let ghost cm = self.model();
        let ghost m0 = fs@;
        let mut i: usize = 0;
        while i < self.dotfiles.len()
            invariant
                i <= self.dotfiles@.len(),
                self.wf(),
                fs.wf(),
                cm == self.model(),
                m0 == old(fs)@,
                fs.mounts == old(fs).mounts,
                spec_config_deploy_fold(cm, m0, i as int) == (fs@, true),
            decreases self.dotfiles@.len() - i,
        {
            let set = &self.dotfiles[i];
            proof {
                assert(set.model() == cm[i as int]);
            }
            let res = set.deploy_all(fs);
            match res {
                Ok(()) => {
                    proof {
                        assert(spec_config_deploy_fold(cm, m0, i + 1 as int) == (fs@, true));
                    }
                },
                Err(e) => {
                    proof {
                        assert(!spec_config_deploy_fold(cm, m0, i + 1 as int).1);
                        lemma_config_deploy_fold_stuck(cm, m0, i + 1 as int, cm.len() as int);
                    }
                    return Err(e);
                },
            }
            i = i + 1;
        }
        Ok(())
    }

    /// Deploy the given paths, each through the first registered set that
    /// takes it.  A path no set takes fails the whole batch, as does any
    /// failure other than "not in this set's storage", which only passes
    /// the path to the next set.
    pub fn deploy_paths(&self, fs: &mut FsState, paths: Vec<FsPath>) -> (r: Result<(), Error>)
        requires
            self.wf(),
            old(fs).wf(),
        ensures
            final(fs).wf(),
            final(fs).mounts == old(fs).mounts,
            ({
                let fold = spec_deploy_paths_fold(
                    self.model(),
                    old(fs)@,
                    paths@,
                    paths@.len() as int,
                );
                &&& final(fs)@ == fold.0
                &&& (r is Ok <==> fold.1)
            }),
    {
        let ghost cm = self.model();
        let ghost m0 = fs@;
        let mut i: usize = 0;
        while i < paths.len()
            invariant
                i <= paths@.len(),
                self.wf(),
                fs.wf(),
                cm == self.model(),
                m0 == old(fs)@,
                fs.mounts == old(fs).mounts,
                spec_deploy_paths_fold(cm, m0, paths@, i as int) == (fs@, true),
            decreases paths@.len() - i,
        {
            let ghost mcur = fs@;
            let ghost p = paths@[i as int];
            let mut j: usize = 0;
            let mut deployed = false;
            while !deployed && j < self.dotfiles.len()
                invariant
                    j <= self.dotfiles@.len(),
                    self.wf(),
                    fs.wf(),
                    i < paths@.len(),
                    cm == self.model(),
                    m0 == old(fs)@,
                    p == paths@[i as int],
                    fs.mounts == old(fs).mounts,
                    spec_deploy_paths_fold(cm, m0, paths@, i as int) == (mcur, true),
                    !deployed ==> fs@ == mcur,
                    !deployed ==> spec_probe_deploy(cm, mcur, p, 0) == spec_probe_deploy(
                        cm,
                        mcur,
                        p,
                        j as int,
                    ),
                    deployed ==> spec_probe_deploy(cm, mcur, p, 0) == (ProbeOutcome::Deployed {
                        m: fs@,
                    }),
                decreases self.dotfiles@.len() - j + (if deployed { 0int } else { 1int }),
            {
                let set = &self.dotfiles[j];
                proof {
                    assert(set.model() == cm[j as int]);
                }
                match DotfilePath::try_from_dir(&set.dotfile_directory, &paths[i]) {
                    Err(_) => {
                        proof {
                            assert(spec_probe_deploy(cm, mcur, p, j as int) == spec_probe_deploy(
                                cm,
                                mcur,
                                p,
                                j + 1 as int,
                            ));
                        }
                        j = j + 1;
                    },
                    Ok(dp) => {
                        let res = set.deploy(fs, &dp);
                        match res {
                            Ok(()) => {
                                deployed = true;
                            },
                            Err(e) => match e {
                                Error::DotfileNotFound(_) => {
                                    proof {
                                        assert(spec_probe_deploy(cm, mcur, p, j as int)
                                            == spec_probe_deploy(cm, mcur, p, j + 1 as int));
                                    }
                                    j = j + 1;
                                },
                                _ => {
                                    proof {
                                        assert(spec_probe_deploy(cm, mcur, p, j as int)
                                            == ProbeOutcome::Failed);
                                        assert(!spec_deploy_paths_fold(
                                            cm,
                                            m0,
                                            paths@,
                                            i + 1 as int,
                                        ).1);
                                        lemma_deploy_paths_fold_stuck(
                                            cm,
                                            m0,
                                            paths@,
                                            i + 1 as int,
                                            paths@.len() as int,
                                        );
                                    }
                                    return Err(e);
                                },
                            },
                        }
                    },
                }
            }
            if !deployed {
                proof {
                    assert(spec_probe_deploy(cm, mcur, p, 0) == ProbeOutcome::NoMatch);
                    assert(!spec_deploy_paths_fold(cm, m0, paths@, i + 1 as int).1);
                    lemma_deploy_paths_fold_stuck(
                        cm,
                        m0,
                        paths@,
                        i + 1 as int,
                        paths@.len() as int,
                    );
                }
                return Err(Error::NoMatchingDotfileConfigured(paths[i].clone()));
            }
            proof {
                assert(spec_deploy_paths_fold(cm, m0, paths@, i + 1 as int) == (fs@, true));
            }
            i = i + 1;
        }
        Ok(())
    }

    /// Restore the named dotfile: every registered set is probed in
    /// registration order, and the first one that owns the path performs
    /// the restore; when none claims it, that is a failure.
    pub fn restore_dotfile(&mut self, fs: &mut FsState, path: &FsPath) -> (r: Result<(), Error>)
        requires
            old(self).wf(),
            old(fs).wf(),
        ensures
            final(self).dotfiles == old(self).dotfiles,
            final(self).wf(),
            final(fs).wf(),
            final(fs).mounts == old(fs).mounts,
            ({
                let cm = old(self).model();
                let m0 = old(fs)@;
                let i = first_restorer(cm, m0, *path, 0);
                match r {
                    Ok(()) => {
                        &&& i < cm.len()
                        &&& (restore_resolution(cm[i], m0, *path) matches Some(pair)
                            && can_restore(m0, old(fs).mounts@, pair.0, pair.1) && final(fs)@
                            == restore_effect(m0, pair.0, pair.1))
                    },
                    Err(e) => {
                        &&& final(fs)@ == m0
                        &&& final(fs).entries == old(fs).entries
                        &&& match e {
                            Error::DotfileNotFound(q) => {
                                &&& i == cm.len()
                                &&& (cm.len() == 0 || !path.absolute || m0.contains_key(
                                    path.segs(),
                                ))
                                &&& q.segs() == path.segs()
                            },
                            Error::PathDoesNotExist(q) => {
                                ||| (cm.len() > 0 && path.absolute && !m0.contains_key(
                                    path.segs(),
                                ) && q.segs() == path.segs())
                                ||| (i < cm.len() && (restore_resolution(cm[i], m0, *path)
                                    matches Some(pair) && {
                                    ||| (!m0.contains_key(pair.1) && q.segs() == pair.1)
                                    ||| (pair.0.len() > 0 && !parent_is_dir(m0, pair.0)
                                        && q.segs() == pair.0.drop_last())
                                }))
                            },
                            Error::BadInput(_) => i < cm.len() && (restore_resolution(
                                cm[i],
                                m0,
                                *path,
                            ) matches Some(pair) && (pair.1.is_prefix_of(pair.0)
                                || spec_has_descendant(m0, pair.0))),
                            Error::ConflictingPath(q) => i < cm.len() && (restore_resolution(
                                cm[i],
                                m0,
                                *path,
                            ) matches Some(pair) && m0.contains_key(pair.0) && m0[pair.0] is Dir
                                && q.segs() == pair.0),
                            Error::InvalidSymlinkDestinationDirectory(q) => i < cm.len() && (
                            restore_resolution(cm[i], m0, *path) matches Some(pair) && pair.0.len()
                                == 0 && q.segs() == pair.0),
                            Error::UnableToRetrievePathDeviceInfo(q) => i < cm.len() && (
                            restore_resolution(cm[i], m0, *path) matches Some(pair) && {
                                ||| (!device_known_seq(old(fs).mounts@, pair.1) && q.segs()
                                    == pair.1)
                                ||| (!device_known_seq(old(fs).mounts@, pair.0) && q.segs()
                                    == pair.0)
                            }),
                            _ => false,
                        }
                    },
                }
            }),
    {
        let ghost cm = self.model();
        let ghost m0 = fs@;
        let mut j: usize = 0;
        while j < self.dotfiles.len()
            invariant
                j <= self.dotfiles@.len(),
                self.wf(),
                fs.wf(),
                cm == self.model(),
                m0 == fs@,
                self.dotfiles == old(self).dotfiles,
                fs.entries == old(fs).entries,
                fs.mounts == old(fs).mounts,
                first_restorer(cm, m0, *path, 0) == first_restorer(cm, m0, *path, j as int),
                j > 0 && path.absolute ==> m0.contains_key(path.segs()),
            decreases self.dotfiles@.len() - j,
        {
            let set = &self.dotfiles[j];
            proof {
                assert(set.model() == cm[j as int]);
            }
            let res = set.restore_dotfile(fs, path);
            match res {
                Err(e) => {
                    proof {
                        if restore_resolution(cm[j as int], m0, *path) is Some {
                            assert(first_restorer(cm, m0, *path, j as int) == j as int);
                        }
                    }
                    return Err(e);
                },
                Ok(taken) => match taken {
                    Some(_) => {
                        proof {
                            assert(first_restorer(cm, m0, *path, j as int) == j as int);
                        }
                        return Ok(());
                    },
                    None => {
                        proof {
                            assert(first_restorer(cm, m0, *path, j as int) == first_restorer(
                                cm,
                                m0,
                                *path,
                                j + 1 as int,
                            ));
                        }
                        j = j + 1;
                    },
                },
            }
        }
        proof {
            assert(first_restorer(cm, m0, *path, 0) == cm.len());
        }
        Err(Error::DotfileNotFound(path.clone()))
    }
}

/// Round-trip: wherever a fresh stow can go through, stowing and then
/// restoring brings the live entry — together with everything that was
/// beneath it — back to the live location with identical values (for a
/// file: its bytes), the live location holds that entry and not a
/// symlink to storage any more, the storage slot is vacated, and the
/// filesystem as a whole differs from the original only by the storage
/// parent directories the stow created.
pub proof fn lemma_stow_restore_round_trip(
    dm: DotfilesModel,
    m: FsMap,
    mounts: Seq<(FsPath, u64)>,
    rel: Seq<Seq<char>>,
)
    requires
        can_stow_fresh(dm, m, mounts, rel),
    ensures
        ({
            let live = live_of(dm, rel);
            let stored = stored_of(dm, rel);
            let m1 = stow_effect(dm, m, rel);
            let m2 = restore_effect(m1, live, stored);
            &&& stowed_state(dm, m1, rel)
            &&& can_restore(m1, mounts, live, stored)
            &&& m2 == with_dirs(m, stored.drop_last())
            &&& m2.contains_key(live)
            &&& m2[live] == m[live]
            &&& !m2.contains_key(stored)
        }),
{
    let live = live_of(dm, rel);
    let stored = stored_of(dm, rel);
    let sp = stored.drop_last();
    let base = with_dirs(m, sp);
    crate::fs::lemma_with_dirs_props(m, sp);
    assert(sp =~= stored.take(stored.len() - 1));
    assert(sp.is_prefix_of(stored));
    assert(live != stored);

    // The directory creation adds only prefixes of the storage parent,
    // so nothing of it lies at or under the storage slot.
    assert(!base.contains_key(stored)) by {
        if base.contains_key(stored) {
            assert(stored.is_prefix_of(sp));
            assert(stored.len() <= sp.len());
        }
    }
    assert forall|k: Seq<Seq<char>>| #[trigger] base.contains_key(k) implies !stored.is_prefix_of(
        k,
    ) by {
        if stored.is_prefix_of(k) {
            assert(k != stored);
            assert(k.len() > stored.len()) by {
                if k.len() == stored.len() {
                    assert(k =~= stored);
                }
            }
            if !m.contains_key(k) {
                assert(k.is_prefix_of(sp));
                assert(k.len() <= sp.len());
            } else {
                assert(spec_has_descendant(m, stored));
            }
        }
    }
    assert(base.contains_key(live) && base[live] == m[live]);

    // The stow's relocation, and the symlink on top of it.
    let moved = crate::fs::moved_tree(base, live, stored);
    let m1 = stow_effect(dm, m, rel);
    assert(m1 == moved.insert(live, EntryModel::Symlink { absolute: true, target: stored }));
    assert(live + stored.skip(stored.len() as int) =~= live);
    assert(moved.contains_key(stored)) by {
        assert(stored.is_prefix_of(stored));
    }
    assert(moved[stored] == base[live]);
    assert(stowed_state(dm, m1, rel));

    // The relocated map holds nothing at or strictly under the live
    // location: whatever lies under the storage slot cannot also lie
    // under the live one, since the two do not overlap.
    assert(!moved.contains_key(live)) by {
        assert(!stored.is_prefix_of(live));
        assert(live.is_prefix_of(live));
    }
    assert forall|k: Seq<Seq<char>>| #[trigger] moved.contains_key(k) implies !live.is_prefix_of(
        k,
    ) by {
        if live.is_prefix_of(k) {
            if stored.is_prefix_of(k) {
                if live.len() <= stored.len() {
                    assert(live =~= k.take(live.len() as int));
                    assert(stored =~= k.take(stored.len() as int));
                    assert(live =~= stored.take(live.len() as int));
                    assert(live.is_prefix_of(stored));
                } else {
                    assert(live =~= k.take(live.len() as int));
                    assert(stored =~= k.take(stored.len() as int));
                    assert(stored =~= live.take(stored.len() as int));
                    assert(stored.is_prefix_of(live));
                }
            }
        }
    }

    // The restore is owed.
    assert(!spec_has_descendant(m1, live)) by {
        if spec_has_descendant(m1, live) {
            let k = choose|k: Seq<Seq<char>>|
                #[trigger] m1.contains_key(k) && live.is_prefix_of(k) && k.len() > live.len();
            assert(k != live);
            assert(moved.contains_key(k));
        }
    }
    assert(parent_is_dir(m1, live)) by {
        let lp = live.drop_last();
        assert(lp =~= live.take(live.len() - 1));
        assert(lp.is_prefix_of(live));
        assert(lp != live);
        assert(!stored.is_prefix_of(lp)) by {
            if stored.is_prefix_of(lp) {
                crate::paths::lemma_prefix_transitive(stored, lp, live);
            }
        }
        assert(!live.is_prefix_of(lp)) by {
            if live.is_prefix_of(lp) {
                assert(live.len() <= lp.len());
            }
        }
        assert(base.contains_key(lp) && base[lp] == m[lp]);
        assert(moved.contains_key(lp) && moved[lp] == base[lp]);
    }
    assert(can_restore(m1, mounts, live, stored));

    // Undo: dropping the symlink leaves exactly the relocated map, and
    // relocating back is the identity on the original.
    let x = m1.remove(live);
    assert(x =~= moved);
    assert(x == moved);
    let m2 = restore_effect(m1, live, stored);
    assert(m2 == crate::fs::moved_tree(moved, stored, live));
    assert forall|k: Seq<Seq<char>>| #[trigger] m2.contains_key(k) <==> base.contains_key(k) by {
        if live.is_prefix_of(k) {
            let kp = stored + k.skip(live.len() as int);
            assert(m2.contains_key(k) <==> moved.contains_key(kp));
            assert(stored.is_prefix_of(kp) && kp.skip(stored.len() as int) =~= k.skip(
                live.len() as int,
            )) by {
                crate::paths::lemma_space_duality(stored, stored, k.skip(live.len() as int));
            }
            assert(live + kp.skip(stored.len() as int) =~= k) by {
                crate::paths::lemma_prefix_recompose(live, k);
            }
            assert(moved.contains_key(kp) <==> base.contains_key(k));
        } else {
            assert(m2.contains_key(k) <==> (moved.contains_key(k) && !stored.is_prefix_of(k)));
            if stored.is_prefix_of(k) {
                assert(!base.contains_key(k));
                assert(!m2.contains_key(k));
            } else {
                assert(moved.contains_key(k) <==> (base.contains_key(k) && !live.is_prefix_of(
                    k,
                )));
                assert(m2.contains_key(k) <==> base.contains_key(k));
            }
        }
    }
    assert forall|k: Seq<Seq<char>>| #[trigger] m2.contains_key(k) implies m2[k] == base[k] by {
        if live.is_prefix_of(k) {
            let kp = stored + k.skip(live.len() as int);
            assert(stored.is_prefix_of(kp) && kp.skip(stored.len() as int) =~= k.skip(
                live.len() as int,
            )) by {
                crate::paths::lemma_space_duality(stored, stored, k.skip(live.len() as int));
            }
            assert(live + kp.skip(stored.len() as int) =~= k) by {
                crate::paths::lemma_prefix_recompose(live, k);
            }
            assert(m2[k] == moved[kp]);
            assert(moved[kp] == base[k]);
        } else {
            assert(m2[k] == moved[k]);
            assert(moved[k] == base[k]);
        }
    }
    assert(m2 =~= base);
    assert(m2.contains_key(live) && m2[live] == m[live]);
}

/// Idempotence: a successful fresh stow leaves the managed path in the
/// stowed state, which is exactly the state in which `stow_path` succeeds
/// again as a no-op, by its contract leaving the filesystem and the set
/// identical.
pub proof fn lemma_stow_idempotent(
    dm: DotfilesModel,
    m: FsMap,
    mounts: Seq<(FsPath, u64)>,
    rel: Seq<Seq<char>>,
)
    requires
        can_stow_fresh(dm, m, mounts, rel),
    ensures
        stowed_state(dm, stow_effect(dm, m, rel), rel),
{
    let live = live_of(dm, rel);
    let stored = stored_of(dm, rel);
    let sp = stored.drop_last();
    let base = with_dirs(m, sp);
    crate::fs::lemma_with_dirs_props(m, sp);
    assert(base.contains_key(live));
    let moved = crate::fs::moved_tree(base, live, stored);
    assert(moved.contains_key(stored)) by {
        assert(stored.is_prefix_of(stored));
        assert(live + stored.skip(stored.len() as int) =~= live);
    }
    assert(stow_effect(dm, m, rel).contains_key(stored));
}

/// Non-clobber: when the storage slot is occupied and the live location
/// is not already the correct symlink into it, a stow can neither be a
/// no-op nor go through fresh; by `stow_path`'s contract the call then
/// returns an error and modifies nothing.
pub proof fn lemma_stow_non_clobber(
    dm: DotfilesModel,
    m: FsMap,
    mounts: Seq<(FsPath, u64)>,
    rel: Seq<Seq<char>>,
)
    requires
        m.contains_key(stored_of(dm, rel)),
        !stowed_state(dm, m, rel),
    ensures
        !can_stow_fresh(dm, m, mounts, rel),
{
}

} // verus!