//! The path model: a path is a (possibly absolute) sequence of name
//! segments, and the primitives that map paths between the symlink space
//! and the storage space are plain operations on those sequences.

use vstd::prelude::*;

use crate::errors::Error;
use crate::fs::{spec_has_descendant, EntryModel, FsEntry, FsMap, FsState};

verus! {

broadcast use crate::views::lemma_segments_view_len, crate::views::lemma_segments_view_index;

/// A filesystem path, split into its name segments.
///
/// `/home/user/.gitconfig` is represented as an absolute path with segments
/// `["home", "user", ".gitconfig"]`; a relative path carries its segments
/// with `absolute` false.  No segment is ever a root marker: absoluteness is
/// carried by the flag alone, which makes the "full path join" (joining
/// under a root while discarding an embedded root of the second operand)
/// the only join there is.
#[derive(Debug)]
pub struct FsPath {
    /// True when the path starts at the filesystem root.
    pub absolute: bool,
    /// The name segments, in order from the root (when absolute) or from
    /// the contextually relevant directory (when relative).
    pub segments: Vec<String>,
}

/// Copy the first `n` segments of `v` into a fresh vector.
fn copy_prefix(v: &Vec<String>, n: usize) -> (r: Vec<String>)
    requires
        n <= v.len(),
    ensures
        r.deep_view() =~= v.deep_view().take(n as int),
{
    let mut r: Vec<String> = Vec::new();
    let mut i: usize = 0;
    while i < n
        invariant
            i <= n <= v.len(),
            r.deep_view() =~= v.deep_view().take(i as int),
        decreases n - i,
    {
        proof {
            assert(v.deep_view().len() == v@.len());
            assert(r.deep_view().len() == i);
            assert(r@.len() == i);
        }
        let x: String = v[i].clone();
        let ghost xsnap = x;
        let ghost r0 = r.deep_view();
        let ghost rv0 = r@;
        r.push(x);
        proof {
            assert(r@ == rv0.push(xsnap));
            assert forall|j: int| 0 <= j < r@.len() implies r.deep_view()[j] == v.deep_view().take(
                i + 1 as int,
            )[j] by {
                assert(r.deep_view()[j] == r@[j]@);
                if j < i as int {
                    assert(r@[j] == rv0[j]);
                    assert(r0[j] == rv0[j]@);
                    assert(r0[j] == v.deep_view()[j]);
                } else {
                    assert(r@[j] == xsnap);
                    assert(xsnap@ == v@[i as int]@);
                }
                assert(v.deep_view().take(i + 1 as int)[j] == v.deep_view()[j]);
                assert(v.deep_view()[j] == v@[j]@);
            }
            assert(r.deep_view() =~= v.deep_view().take(i + 1 as int));
        }
        i = i + 1;
    }
    r
}

/// Append to `dst` the segments of `src` from position `from` on.
fn append_segments(dst: &mut Vec<String>, src: &Vec<String>, from: usize)
    requires
        from <= src.len(),
    ensures
        final(dst).deep_view() =~= old(dst).deep_view() + src.deep_view().skip(from as int),
{
    let ghost base = old(dst).deep_view();
    let mut i: usize = from;
    while i < src.len()
        invariant
            from <= i <= src.len(),
            dst.deep_view() =~= base + src.deep_view().subrange(from as int, i as int),
        decreases src.len() - i,
    {
        proof {
            assert(src.deep_view().len() == src@.len());
            assert(dst.deep_view().len() == base.len() + i - from);
            assert(dst@.len() == base.len() + i - from);
        }
        let x: String = src[i].clone();
        let ghost xsnap = x;
        let ghost d0 = dst.deep_view();
        let ghost dv0 = dst@;
        dst.push(x);
        proof {
            assert(dst@ == dv0.push(xsnap));
            assert forall|j: int| 0 <= j < dst@.len() implies dst.deep_view()[j] == (base
                + src.deep_view().subrange(from as int, i + 1 as int))[j] by {
                assert(dst.deep_view()[j] == dst@[j]@);
                if j < dv0.len() {
                    assert(dst@[j] == dv0[j]);
                    assert(d0[j] == dv0[j]@);
                    assert(d0[j] == (base + src.deep_view().subrange(from as int, i as int))[j]);
                } else {
                    assert(dst@[j] == xsnap);
                    assert(xsnap@ == src@[i as int]@);
                    assert((base + src.deep_view().subrange(from as int, i + 1 as int))[j]
                        == src.deep_view()[i as int]);
                    assert(src.deep_view()[i as int] == src@[i as int]@);
                }
            }
            assert(dst.deep_view() =~= base + src.deep_view().subrange(from as int, i + 1 as int));
        }
        i = i + 1;
    }
    proof {
        assert(src.deep_view().subrange(from as int, src@.len() as int) =~= src.deep_view().skip(
            from as int,
        ));
    }
}

impl FsPath {
    /// The mathematical value of the segments: a sequence of character
    /// sequences.
    pub open spec fn segs(&self) -> Seq<Seq<char>> {
        self.segments.deep_view()
    }

    /// `prefix` names an ancestor of (or the same path as) `self`.
    pub open spec fn spec_starts_with(&self, prefix: &FsPath) -> bool {
        &&& self.absolute == prefix.absolute
        &&& prefix.segs().is_prefix_of(self.segs())
    }

    /// Whether this path names the filesystem root (absolute, no segments).
    pub open spec fn is_root(&self) -> bool {
        self.absolute && self.segs().len() == 0
    }

    /// The absolute path with no segments: the filesystem root.
    pub fn root() -> (r: FsPath)
        ensures
            r.absolute,
            r.segs() =~= Seq::<Seq<char>>::empty(),
    {
        FsPath { absolute: true, segments: Vec::new() }
    }

    /// Append one segment.
    pub fn push(&mut self, segment: String)
        ensures
            final(self).absolute == old(self).absolute,
            final(self).segs() =~= old(self).segs().push(segment@),
    {
        self.segments.push(segment);
    }

    /// Join `other` under `self`, mirroring directory structure: the result
    /// keeps `self`'s root and appends `other`'s segments.  An embedded root
    /// of `other` is discarded rather than allowed to replace `self`.
    pub fn join(&self, other: &FsPath) -> (r: FsPath)
        ensures
            r.absolute == self.absolute,
            r.segs() =~= self.segs() + other.segs(),
    {
        let mut segments: Vec<String> = copy_prefix(&self.segments, self.segments.len());
        proof {
            assert(segments.deep_view() =~= self.segs());
        }
        append_segments(&mut segments, &other.segments, 0);
        proof {
            assert(other.segs().skip(0) =~= other.segs());
        }
        FsPath { absolute: self.absolute, segments }
    }

    /// Whether `prefix` is an ancestor of (or equal to) this path.
    pub fn starts_with(&self, prefix: &FsPath) -> (r: bool)
        ensures
            r == self.spec_starts_with(prefix),
    {
        if self.absolute != prefix.absolute {
            return false;
        }
        if prefix.segments.len() > self.segments.len() {
            assert(!prefix.segs().is_prefix_of(self.segs()));
            return false;
        }
        let mut i: usize = 0;
        while i < prefix.segments.len()
            invariant
                i <= prefix.segments.len(),
                prefix.segments.len() <= self.segments.len(),
                self.absolute == prefix.absolute,
                forall|j: int| 0 <= j < i ==> prefix.segs()[j] == self.segs()[j],
            decreases prefix.segments.len() - i,
        {
            if !(prefix.segments[i] == self.segments[i]) {
                assert(prefix.segs()[i as int] != self.segs()[i as int]);
                assert(!prefix.segs().is_prefix_of(self.segs()));
                return false;
            }
            i = i + 1;
        }
        proof {
            assert(prefix.segs() =~= self.segs().subrange(0, prefix.segs().len() as int));
        }
        true
    }

    /// Strip a root prefix, leaving the relative remainder: the managed-path
    /// identity of an absolute location under a registered root.
    pub fn strip_prefix(&self, prefix: &FsPath) -> (r: Result<FsPath, Error>)
        ensures
            match r {
                Ok(rest) => {
                    &&& self.spec_starts_with(prefix)
                    &&& !rest.absolute
                    &&& rest.segs() =~= self.segs().skip(prefix.segs().len() as int)
                },
                Err(e) => {
                    &&& !self.spec_starts_with(prefix)
                    &&& e matches Error::PathDoesNotStartWithPrefix(p, pre)
                        && p.segs() == self.segs() && pre.segs() == prefix.segs()
                },
            },
    {
        if !self.starts_with(prefix) {
            return Err(Error::PathDoesNotStartWithPrefix(self.clone(), prefix.clone()));
        }
        let mut segments: Vec<String> = Vec::new();
        append_segments(&mut segments, &self.segments, prefix.segments.len());
        proof {
            assert(segments.deep_view() =~= self.segs().skip(prefix.segs().len() as int));
        }
        Ok(FsPath { absolute: false, segments })
    }

    /// The parent directory: the path with the last segment removed, or
    /// nothing for a segment-less path.
    pub fn parent(&self) -> (r: Option<FsPath>)
        ensures
            match r {
                Some(p) => {
                    &&& self.segs().len() > 0
                    &&& p.absolute == self.absolute
                    &&& p.segs() =~= self.segs().drop_last()
                },
                None => self.segs().len() == 0,
            },
    {
        if self.segments.len() == 0 {
            return None;
        }
        let segments: Vec<String> = copy_prefix(&self.segments, self.segments.len() - 1);
        Some(FsPath { absolute: self.absolute, segments })
    }
}

impl Clone for FsPath {
    /// The copy has the same absoluteness and the same segments.
    fn clone(&self) -> (r: Self)
        ensures
            r.absolute == self.absolute,
            r.segs() == self.segs(),
    {
        let segments: Vec<String> = copy_prefix(&self.segments, self.segments.len());
        proof {
            assert(segments.deep_view() =~= self.segs());
        }
        FsPath { absolute: self.absolute, segments }
    }
}

impl PartialEq for FsPath {
    fn eq(&self, other: &Self) -> (r: bool) {
        if self.absolute != other.absolute {
            return false;
        }
        if self.segments.len() != other.segments.len() {
            assert(self.segs().len() != other.segs().len());
            return false;
        }
        let mut i: usize = 0;
        while i < self.segments.len()
            invariant
                i <= self.segments.len(),
                self.segments.len() == other.segments.len(),
                self.absolute == other.absolute,
                forall|j: int| 0 <= j < i ==> self.segs()[j] == other.segs()[j],
            decreases self.segments.len() - i,
        {
            if !(self.segments[i] == other.segments[i]) {
                assert(self.segs()[i as int] != other.segs()[i as int]);
                return false;
            }
            i = i + 1;
        }
        proof {
            assert(self.segs() =~= other.segs());
        }
        true
    }
}

impl vstd::std_specs::cmp::PartialEqSpecImpl for FsPath {
    open spec fn obeys_eq_spec() -> bool {
        true
    }

    open spec fn eq_spec(&self, other: &Self) -> bool {
        self.absolute == other.absolute && self.segs() == other.segs()
    }
}

/// Mapping a path from symlink space into storage space and back (or the
/// other way round) yields the same managed path: the two absolute
/// locations of a managed path differ only in their root prefix.
pub proof fn lemma_space_duality(
    symlink_segs: Seq<Seq<char>>,
    storage_segs: Seq<Seq<char>>,
    managed: Seq<Seq<char>>,
)
    ensures
        (symlink_segs + managed).skip(symlink_segs.len() as int) =~= managed,
        (storage_segs + managed).skip(storage_segs.len() as int) =~= managed,
        symlink_segs.is_prefix_of(symlink_segs + managed),
        storage_segs.is_prefix_of(storage_segs + managed),
{
    assert(symlink_segs =~= (symlink_segs + managed).subrange(0, symlink_segs.len() as int));
    assert(storage_segs =~= (storage_segs + managed).subrange(0, storage_segs.len() as int));
}

/// The location `k` has a parent directory present in `m`.
pub open spec fn parent_is_dir(m: FsMap, k: Seq<Seq<char>>) -> bool {
    &&& k.len() > 0
    &&& m.contains_key(k.drop_last())
    &&& m[k.drop_last()] is Dir
}

/// Create a symlink at `dst` pointing to `src`, the symlink primitive:
/// the created link, when read back, yields exactly the target path that
/// was passed in, with no canonicalization.  An occupied `dst` is never
/// overwritten.
pub fn create_symlink(fs: &mut FsState, src: &FsPath, dst: &FsPath) -> (r: Result<(), Error>)
    requires
        old(fs).wf(),
        dst.absolute,
    ensures
        final(fs).wf(),
        final(fs).mounts == old(fs).mounts,
        match r {
            Ok(()) => {
                &&& !old(fs)@.contains_key(dst.segs())
                &&& parent_is_dir(old(fs)@, dst.segs())
                &&& final(fs)@ == old(fs)@.insert(
                    dst.segs(),
                    EntryModel::Symlink { absolute: src.absolute, target: src.segs() },
                )
            },
            Err(e) => {
                &&& final(fs)@ == old(fs)@
                &&& final(fs).entries == old(fs).entries
                &&& match e {
                    Error::SymlinkPathAlreadyExists(q) => old(fs)@.contains_key(dst.segs())
                        && q.segs() == dst.segs(),
                    Error::InvalidSymlinkDestinationDirectory(q) => !old(fs)@.contains_key(
                        dst.segs(),
                    ) && dst.segs().len() == 0 && q.segs() == dst.segs(),
                    Error::PathDoesNotExist(q) => {
                        &&& !old(fs)@.contains_key(dst.segs())
                        &&& dst.segs().len() > 0
                        &&& !parent_is_dir(old(fs)@, dst.segs())
                        &&& q.segs() == dst.segs().drop_last()
                    },
                    _ => false,
                }
            },
        },
{
    if fs.exists_entry(dst) {
        return Err(Error::SymlinkPathAlreadyExists(dst.clone()));
    }
    let parent = match dst.parent() {
        Some(q) => q,
        None => {
            return Err(Error::InvalidSymlinkDestinationDirectory(dst.clone()));
        },
    };
    let parent_ok = match fs.lookup(&parent) {
        Some(e) => match e {
            FsEntry::Dir => true,
            _ => false,
        },
        None => false,
    };
    if !parent_ok {
        return Err(Error::PathDoesNotExist(parent));
    }
    fs.insert_entry(dst, FsEntry::Symlink { target: src.clone() });
    Ok(())
}

/// Copy the entry at `src` to `dst` without touching `src`: the first
/// phase of a cross-device move.  The source is left fully intact, and an
/// occupied `dst` is refused rather than overwritten.
pub fn copy_entry(fs: &mut FsState, src: &FsPath, dst: &FsPath) -> (r: Result<(), Error>)
    requires
        old(fs).wf(),
        src.absolute,
        dst.absolute,
        old(fs)@.contains_key(src.segs()),
        !old(fs)@.contains_key(dst.segs()),
        parent_is_dir(old(fs)@, dst.segs()),
    ensures
        final(fs).wf(),
        final(fs).mounts == old(fs).mounts,
        r is Ok,
        final(fs)@ == old(fs)@.insert(dst.segs(), old(fs)@[src.segs()]),
        final(fs)@.contains_key(src.segs()),
        final(fs)@[src.segs()] == old(fs)@[src.segs()],
{
    let e = match fs.lookup(src) {
        Some(e) => e.clone(),
        None => {
            proof {
                assert(false);
            }
            FsEntry::Dir
        },
    };
    fs.insert_entry(dst, e);
    proof {
        assert(src.segs() != dst.segs());
    }
    Ok(())
}

/// Move the entry at `src` — together with everything beneath it, for a
/// directory — to `dst`, the path mover: an atomic rename when both paths
/// share a device, and copy-then-delete across devices, where the source
/// is removed only after the destination holds the full copy.  `dst`'s
/// parent directory must already exist, and an occupied `dst` is refused
/// rather than overwritten.
pub fn move_file(fs: &mut FsState, src: &FsPath, dst: &FsPath) -> (r: Result<(), Error>)
    requires
        old(fs).wf(),
        src.absolute,
        dst.absolute,
    ensures
        final(fs).wf(),
        final(fs).mounts == old(fs).mounts,
        match r {
            Ok(()) => {
                &&& old(fs)@.contains_key(src.segs())
                &&& !old(fs)@.contains_key(dst.segs())
                &&& !spec_has_descendant(old(fs)@, dst.segs())
                &&& !src.segs().is_prefix_of(dst.segs())
                &&& parent_is_dir(old(fs)@, dst.segs())
                &&& old(fs).device_known(src.segs())
                &&& old(fs).device_known(dst.segs())
                &&& final(fs)@ == crate::fs::moved_tree(old(fs)@, src.segs(), dst.segs())
            },
            Err(e) => {
                &&& final(fs)@ == old(fs)@
                &&& final(fs).entries == old(fs).entries
                &&& match e {
                    Error::PathDoesNotExist(q) => {
                        ||| (!old(fs)@.contains_key(src.segs()) && q.segs() == src.segs())
                        ||| {
                            &&& old(fs)@.contains_key(src.segs())
                            &&& !old(fs)@.contains_key(dst.segs())
                            &&& dst.segs().len() > 0
                            &&& !parent_is_dir(old(fs)@, dst.segs())
                            &&& q.segs() == dst.segs().drop_last()
                        }
                    },
                    Error::ConflictingPath(q) => {
                        &&& old(fs)@.contains_key(src.segs())
                        &&& (old(fs)@.contains_key(dst.segs()) || spec_has_descendant(
                            old(fs)@,
                            dst.segs(),
                        ))
                        &&& q.segs() == dst.segs()
                    },
                    Error::BadInput(_) => {
                        &&& old(fs)@.contains_key(src.segs())
                        &&& !old(fs)@.contains_key(dst.segs())
                        &&& !spec_has_descendant(old(fs)@, dst.segs())
                        &&& src.segs().is_prefix_of(dst.segs())
                    },
                    Error::InvalidSymlinkDestinationDirectory(q) => {
                        &&& old(fs)@.contains_key(src.segs())
                        &&& !old(fs)@.contains_key(dst.segs())
                        &&& dst.segs().len() == 0
                        &&& q.segs() == dst.segs()
                    },
                    Error::UnableToRetrievePathDeviceInfo(q) => {
                        ||| (!old(fs).device_known(src.segs()) && q.segs() == src.segs())
                        ||| (!old(fs).device_known(dst.segs()) && q.segs() == dst.segs())
                    },
                    _ => false,
                }
            },
        },
{
    if !fs.exists_entry(src) {
        return Err(Error::PathDoesNotExist(src.clone()));
    }
    if fs.exists_entry(dst) || fs.has_descendant(dst) {
        return Err(Error::ConflictingPath(dst.clone()));
    }
    if dst.starts_with(src) {
        return Err(Error::BadInput("cannot move a path to a destination beneath itself"));
    }
    let parent = match dst.parent() {
        Some(q) => q,
        None => {
            return Err(Error::InvalidSymlinkDestinationDirectory(dst.clone()));
        },
    };
    let parent_ok = match fs.lookup(&parent) {
        Some(e) => match e {
            FsEntry::Dir => true,
            _ => false,
        },
        None => false,
    };
    if !parent_ok {
        return Err(Error::PathDoesNotExist(parent));
    }
    let src_device = match fs.device_of(src) {
        Ok(d) => d,
        Err(e) => {
            return Err(e);
        },
    };
    let dst_device = match fs.device_of(dst) {
        Ok(d) => d,
        Err(e) => {
            return Err(e);
        },
    };
    let ghost m0 = fs@;
    let ghost em = old(fs)@[src.segs()];
    proof {
        assert(src.segs() != dst.segs());
    }
    if fs.has_descendant(src) {
        // A whole subtree moves.  Across devices the real mover copies the
        // tree and removes the source only afterwards; the model performs
        // the relocation as one transition either way.
        fs.move_tree(src, dst);
    } else if src_device == dst_device {
        let entry = match fs.lookup(src) {
            Some(e) => e.clone(),
            None => {
                proof {
                    assert(false);
                }
                FsEntry::Dir
            },
        };
        fs.remove_entry(src);
        fs.insert_entry(dst, entry);
        proof {
            crate::fs::lemma_moved_tree_single(m0, src.segs(), dst.segs());
            assert(fs@ == crate::fs::moved_tree(m0, src.segs(), dst.segs()));
        }
    } else {
        let _ = copy_entry(fs, src, dst);
        fs.remove_entry(src);
        proof {
            assert(m0.insert(dst.segs(), em).remove(src.segs()) =~= m0.remove(src.segs()).insert(
                dst.segs(),
                em,
            ));
            crate::fs::lemma_moved_tree_single(m0, src.segs(), dst.segs());
            assert(fs@ == crate::fs::moved_tree(m0, src.segs(), dst.segs()));
        }
    }
    Ok(())
}

/// A prefix of a prefix is a prefix./// A prefix of a prefix is a prefix.
pub proof fn lemma_prefix_transitive(a: Seq<Seq<char>>, b: Seq<Seq<char>>, c: Seq<Seq<char>>)
    requires
        a.is_prefix_of(b),
        b.is_prefix_of(c),
    ensures
        a.is_prefix_of(c),
{
    assert(a =~= b.subrange(0, a.len() as int));
    assert(b =~= c.subrange(0, b.len() as int));
    assert(a =~= c.subrange(0, a.len() as int));
}

/// A path is its prefix plus the remainder after it.
pub proof fn lemma_prefix_recompose(p: Seq<Seq<char>>, k: Seq<Seq<char>>)
    requires
        p.is_prefix_of(k),
    ensures
        p + k.skip(p.len() as int) =~= k,
{
}

/// Cross-device safety: the copy phase of a cross-device move leaves the
/// source fully intact — the destination gains the copy while every
/// entry that was present, the source included, is still there with the
/// same value.  `move_file` composes `copy_entry`, whose contract is this
/// insertion, with the removal of the source, so the source is deleted
/// only once the destination holds the complete copy.
pub proof fn lemma_cross_device_copy_preserves_source(
    m: FsMap,
    src: Seq<Seq<char>>,
    dst: Seq<Seq<char>>,
)
    requires
        m.contains_key(src),
        src != dst,
    ensures
        ({
            let copied = m.insert(dst, m[src]);
            &&& copied.contains_key(src)
            &&& copied[src] == m[src]
            &&& copied.contains_key(dst)
            &&& copied[dst] == m[src]
            &&& forall|k: Seq<Seq<char>>|
                #[trigger] m.contains_key(k) && k != dst ==> copied.contains_key(k) && copied[k]
                    == m[k]
        }),
{
}

} // verus!