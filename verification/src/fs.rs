//! The simulated filesystem: a finite map from absolute paths to entries,
//! together with a mount table assigning device identities to path
//! prefixes.  Every state-changing operation of the crate is specified and
//! verified as a transition on this model.
//!
//! An entry is addressed by the exact path under which it was created, as
//! with `lstat`: looking a path up never follows symbolic links, and the
//! target read back from a symlink is exactly the target it was created
//! with.

use vstd::prelude::*;

use crate::errors::Error;
use crate::paths::FsPath;

verus! {

broadcast use crate::views::lemma_segments_view_len, crate::views::lemma_segments_view_index;

/// One filesystem entry.
#[derive(Debug)]
pub enum FsEntry {
    /// A regular file and its byte content.
    File { content: Vec<u8> },
    /// A directory.
    Dir,
    /// A symbolic link, holding the exact target path it was created with.
    Symlink { target: FsPath },
}

/// The mathematical value of an entry.
pub ghost enum EntryModel {
    /// A regular file's bytes.
    File { content: Seq<u8> },
    /// A directory.
    Dir,
    /// A symlink's verbatim target.
    Symlink { absolute: bool, target: Seq<Seq<char>> },
}

impl FsEntry {
    /// The mathematical value of this entry.
    pub open spec fn model(&self) -> EntryModel {
        match self {
            FsEntry::File { content } => EntryModel::File { content: content@ },
            FsEntry::Dir => EntryModel::Dir,
            FsEntry::Symlink { target } => EntryModel::Symlink {
                absolute: target.absolute,
                target: target.segs(),
            },
        }
    }
}

/// Copy a byte vector.
fn clone_bytes(v: &Vec<u8>) -> (r: Vec<u8>)
    ensures
        r@ =~= v@,
{
    let mut r: Vec<u8> = Vec::new();
    let mut i: usize = 0;
    while i < v.len()
        invariant
            i <= v.len(),
            r@ =~= v@.take(i as int),
        decreases v.len() - i,
    {
        r.push(v[i]);
        assert(r@ =~= v@.take(i + 1 as int));
        i = i + 1;
    }
    r
}

impl Clone for FsEntry {
    /// The copy has the same mathematical value.
    fn clone(&self) -> (r: Self)
        ensures
            r.model() == self.model(),
    {
        match self {
            FsEntry::File { content } => FsEntry::File { content: clone_bytes(content) },
            FsEntry::Dir => FsEntry::Dir,
            FsEntry::Symlink { target } => FsEntry::Symlink { target: target.clone() },
        }
    }
}

/// The mathematical value of a whole filesystem: absolute path to entry.
pub type FsMap = Map<Seq<Seq<char>>, EntryModel>;

/// The map an association sequence of entries denotes; a later entry for
/// the same path would shadow an earlier one, but well-formed states keep
/// their paths unique.
pub open spec fn map_of(s: Seq<(FsPath, FsEntry)>) -> FsMap
    decreases s.len(),
{
    if s.len() == 0 {
        Map::empty()
    } else {
        map_of(s.drop_last()).insert(s.last().0.segs(), s.last().1.model())
    }
}

/// No two entries of the sequence are for the same path.
pub open spec fn keys_unique(s: Seq<(FsPath, FsEntry)>) -> bool {
    forall|i: int, j: int|
        0 <= i < j < s.len() ==> (#[trigger] s[i].0.segs()) != (#[trigger] s[j].0.segs())
}

/// Every entry of the sequence is addressed by an absolute path.
pub open spec fn keys_absolute(s: Seq<(FsPath, FsEntry)>) -> bool {
    forall|i: int| 0 <= i < s.len() ==> (#[trigger] s[i].0).absolute
}

/// Some entry of the sequence is for path `k`.
pub open spec fn has_key(s: Seq<(FsPath, FsEntry)>, k: Seq<Seq<char>>) -> bool {
    exists|i: int| 0 <= i < s.len() && (#[trigger] s[i].0.segs()) == k
}

/// What the denoted map holds, entry by entry: a path is in the map's
/// domain exactly when some entry carries it, and (with unique paths) maps
/// to that entry's value.
pub proof fn lemma_map_of_props(s: Seq<(FsPath, FsEntry)>)
    requires
        keys_unique(s),
    ensures
        map_of(s).dom().finite(),
        forall|k: Seq<Seq<char>>| #[trigger] map_of(s).contains_key(k) <==> has_key(s, k),
        forall|i: int|
            0 <= i < s.len() ==> map_of(s)[#[trigger] s[i].0.segs()] == s[i].1.model(),
    decreases s.len(),
{
    if s.len() == 0 {
    } else {
        let butlast = s.drop_last();
        assert(keys_unique(butlast)) by {
            assert forall|i: int, j: int| 0 <= i < j < butlast.len() implies (#[trigger] butlast[i].0.segs())
                != (#[trigger] butlast[j].0.segs()) by {
                assert(s[i].0.segs() != s[j].0.segs());
            }
        }
        lemma_map_of_props(butlast);
        let lastkey = s.last().0.segs();
        assert forall|k: Seq<Seq<char>>| #[trigger] map_of(s).contains_key(k) implies has_key(s, k) by {
            if k == lastkey {
                assert(0 <= s.len() - 1 < s.len() && s[s.len() - 1].0.segs() == k);
            } else {
                assert(map_of(butlast).contains_key(k));
                let i = choose|i: int| 0 <= i < butlast.len() && (#[trigger] butlast[i].0.segs()) == k;
                assert(s[i].0.segs() == k);
            }
        }
        assert forall|k: Seq<Seq<char>>| has_key(s, k) implies map_of(s).contains_key(k) by {
            let i = choose|i: int| 0 <= i < s.len() && (#[trigger] s[i].0.segs()) == k;
            if i < s.len() - 1 {
                assert(butlast[i].0.segs() == k);
                assert(map_of(butlast).contains_key(k));
            }
        }
        assert forall|i: int| 0 <= i < s.len() implies map_of(s)[#[trigger] s[i].0.segs()]
            == s[i].1.model() by {
            if i < s.len() - 1 {
                assert(butlast[i].0.segs() == s[i].0.segs());
                assert(s[i].0.segs() != lastkey);
                assert(map_of(butlast)[s[i].0.segs()] == butlast[i].1.model());
            }
        }
    }
}

/// Every prefix of `segs` (including `segs` itself and the root) is, if
/// present in `m`, a directory: nothing stands in the way of creating the
/// directory chain.
pub open spec fn dirs_ok(m: FsMap, segs: Seq<Seq<char>>) -> bool
    decreases segs.len(),
{
    &&& (if segs.len() == 0 {
        true
    } else {
        dirs_ok(m, segs.drop_last())
    })
    &&& (m.contains_key(segs) ==> m[segs] is Dir)
}

/// The map after creating the directory chain down to `segs`: every
/// missing prefix becomes a directory, everything else stays.
pub open spec fn with_dirs(m: FsMap, segs: Seq<Seq<char>>) -> FsMap
    decreases segs.len(),
{
    let base = if segs.len() == 0 {
        m
    } else {
        with_dirs(m, segs.drop_last())
    };
    if base.contains_key(segs) {
        base
    } else {
        base.insert(segs, EntryModel::Dir)
    }
}

/// `dirs_ok` spelled out prefix by prefix.
pub proof fn lemma_dirs_ok_iff(m: FsMap, segs: Seq<Seq<char>>)
    ensures
        dirs_ok(m, segs) <==> (forall|l: int|
            0 <= l <= segs.len() ==> ((#[trigger] m.contains_key(segs.take(l)))
                ==> m[segs.take(l)] is Dir)),
    decreases segs.len(),
{
    assert(segs.take(segs.len() as int) =~= segs);
    if segs.len() == 0 {
    } else {
        let butlast = segs.drop_last();
        lemma_dirs_ok_iff(m, butlast);
        assert forall|l: int| 0 <= l <= butlast.len() implies segs.take(l) == butlast.take(l) by {
            assert(segs.take(l) =~= butlast.take(l));
        }
        if dirs_ok(m, segs) {
            assert forall|l: int|
                0 <= l <= segs.len() && (#[trigger] m.contains_key(segs.take(l))) implies m[segs.take(
                l,
            )] is Dir by {
                if l < segs.len() {
                    assert(m.contains_key(butlast.take(l)));
                }
            }
        }
        if forall|l: int|
            0 <= l <= segs.len() ==> ((#[trigger] m.contains_key(segs.take(l))) ==> m[segs.take(l)]
                is Dir) {
            assert forall|l: int|
                0 <= l <= butlast.len() && (#[trigger] m.contains_key(butlast.take(l))) implies m[butlast.take(
                l,
            )] is Dir by {
                assert(m.contains_key(segs.take(l)));
            }
        }
    }
}

/// Some path strictly below `src` exists in `m`.
pub open spec fn spec_has_descendant(m: FsMap, src: Seq<Seq<char>>) -> bool {
    exists|k: Seq<Seq<char>>|
        #[trigger] m.contains_key(k) && src.is_prefix_of(k) && k.len() > src.len()
}

/// What creating a directory chain does to the rest of the map: present
/// entries are untouched, and everything added is a directory at a prefix
/// of the chain; after a successful creation the full chain's end is a
/// directory.
pub proof fn lemma_with_dirs_props(m: FsMap, t: Seq<Seq<char>>)
    ensures
        forall|k: Seq<Seq<char>>|
            #[trigger] m.contains_key(k) ==> with_dirs(m, t).contains_key(k) && with_dirs(m, t)[k]
                == m[k],
        forall|k: Seq<Seq<char>>|
            #[trigger] with_dirs(m, t).contains_key(k) ==> m.contains_key(k) || (k.is_prefix_of(t)
                && with_dirs(m, t)[k] is Dir),
        dirs_ok(m, t) ==> with_dirs(m, t).contains_key(t) && with_dirs(m, t)[t] is Dir,
    decreases t.len(),
{
    if t.len() == 0 {
        assert(t.is_prefix_of(t));
    } else {
        let butlast = t.drop_last();
        lemma_with_dirs_props(m, butlast);
        assert(butlast.is_prefix_of(t)) by {
            assert(butlast =~= t.subrange(0, butlast.len() as int));
        }
        assert forall|k: Seq<Seq<char>>| k.is_prefix_of(butlast) implies k.is_prefix_of(t) by {
            assert(k =~= butlast.subrange(0, k.len() as int));
            assert(k =~= t.subrange(0, k.len() as int));
        }
        let base = with_dirs(m, butlast);
        assert(t.is_prefix_of(t));
        if base.contains_key(t) {
            if !m.contains_key(t) {
                assert(base[t] is Dir);
            }
        }
    }
}

/// The mount at index `i` of the table covers path `k`.
pub open spec fn mount_covers_seq(mounts: Seq<(FsPath, u64)>, i: int, k: Seq<Seq<char>>) -> bool {
    mounts[i].0.segs().is_prefix_of(k)
}

/// Some mount prefix of the table covers `k`.
pub open spec fn device_known_seq(mounts: Seq<(FsPath, u64)>, k: Seq<Seq<char>>) -> bool {
    exists|i: int| 0 <= i < mounts.len() && #[trigger] mount_covers_seq(mounts, i, k)
}

/// The map after relocating the whole subtree at `src` (the entry at
/// `src` itself and every entry below it) to `dst`: a path under `dst`
/// holds what the corresponding path under `src` held, a path under `src`
/// is gone, and everything else is untouched.  Exact when nothing lives
/// at or under `dst` and `src` does not lie on the way to `dst`.
pub open spec fn moved_tree(m: FsMap, src: Seq<Seq<char>>, dst: Seq<Seq<char>>) -> FsMap {
    Map::new(
        |k: Seq<Seq<char>>|
            if dst.is_prefix_of(k) {
                m.contains_key(src + k.skip(dst.len() as int))
            } else {
                m.contains_key(k) && !src.is_prefix_of(k)
            },
        |k: Seq<Seq<char>>|
            if dst.is_prefix_of(k) {
                m[src + k.skip(dst.len() as int)]
            } else {
                m[k]
            },
    )
}

/// For a source with nothing beneath it, the subtree relocation is just
/// the relocation of the one entry.
pub proof fn lemma_moved_tree_single(m: FsMap, src: Seq<Seq<char>>, dst: Seq<Seq<char>>)
    requires
        m.contains_key(src),
        !spec_has_descendant(m, src),
        !m.contains_key(dst),
        !spec_has_descendant(m, dst),
        src != dst,
    ensures
        moved_tree(m, src, dst) == m.remove(src).insert(dst, m[src]),
{
    let lhs = moved_tree(m, src, dst);
    let rhs = m.remove(src).insert(dst, m[src]);
    assert(src + dst.skip(dst.len() as int) =~= src);
    assert forall|k: Seq<Seq<char>>| #[trigger] lhs.contains_key(k) implies rhs.contains_key(k)
        && lhs[k] == rhs[k] by {
        if dst.is_prefix_of(k) {
            let k0 = src + k.skip(dst.len() as int);
            if k != dst {
                assert(k.len() > dst.len()) by {
                    if k.len() == dst.len() {
                        assert(k =~= dst);
                    }
                }
                assert(k0.len() > src.len());
                assert(src.is_prefix_of(k0)) by {
                    crate::paths::lemma_space_duality(src, src, k.skip(dst.len() as int));
                }
                assert(spec_has_descendant(m, src)) by {
                    assert(m.contains_key(k0) && src.is_prefix_of(k0) && k0.len() > src.len());
                }
            }
        } else {
            assert(k != src);
            assert(k != dst);
        }
    }
    assert forall|k: Seq<Seq<char>>| #[trigger] rhs.contains_key(k) implies lhs.contains_key(
        k,
    ) by {
        if k == dst {
            assert(dst.is_prefix_of(dst));
        } else {
            assert(m.contains_key(k) && k != src);
            assert(!src.is_prefix_of(k)) by {
                if src.is_prefix_of(k) {
                    assert(k.len() > src.len()) by {
                        if k.len() == src.len() {
                            assert(k =~= src);
                        }
                    }
                    assert(spec_has_descendant(m, src));
                }
            }
            assert(!dst.is_prefix_of(k)) by {
                if dst.is_prefix_of(k) {
                    assert(k.len() > dst.len()) by {
                        if k.len() == dst.len() {
                            assert(k =~= dst);
                        }
                    }
                    assert(spec_has_descendant(m, dst));
                }
            }
        }
    }
    assert(lhs =~= rhs);
}

/// Rebuilding an entry sequence by rebasing every path under `src` onto
/// `dst` (and keeping the rest) denotes exactly the relocated map, and
/// keeps the paths unique and absolute.
pub proof fn lemma_move_rebuild(
    s: Seq<(FsPath, FsEntry)>,
    t: Seq<(FsPath, FsEntry)>,
    src: Seq<Seq<char>>,
    dst: Seq<Seq<char>>,
)
    requires
        keys_unique(s),
        keys_absolute(s),
        t.len() == s.len(),
        forall|j: int| 0 <= j < s.len() ==> (#[trigger] t[j].0).absolute,
        forall|j: int| 0 <= j < s.len() ==> (#[trigger] t[j].1).model() == s[j].1.model(),
        forall|j: int|
            0 <= j < s.len() ==> (#[trigger] t[j].0.segs()) == (if src.is_prefix_of(
                s[j].0.segs(),
            ) {
                dst + s[j].0.segs().skip(src.len() as int)
            } else {
                s[j].0.segs()
            }),
        forall|j: int| 0 <= j < s.len() ==> !dst.is_prefix_of(#[trigger] s[j].0.segs()),
        !src.is_prefix_of(dst),
    ensures
        keys_unique(t),
        keys_absolute(t),
        map_of(t) == moved_tree(map_of(s), src, dst),
{
    let m = map_of(s);
    let mt = map_of(t);
    lemma_map_of_props(s);
    assert forall|a: int, b: int| 0 <= a < b < s.len() implies (#[trigger] t[a].0.segs()) != (
    #[trigger] t[b].0.segs()) by {
        let ka = s[a].0.segs();
        let kb = s[b].0.segs();
        assert(ka != kb);
        if src.is_prefix_of(ka) && src.is_prefix_of(kb) {
            if t[a].0.segs() == t[b].0.segs() {
                assert(ka.skip(src.len() as int) =~= (dst + ka.skip(src.len() as int)).skip(
                    dst.len() as int,
                )) by {
                    crate::paths::lemma_space_duality(dst, dst, ka.skip(src.len() as int));
                }
                assert(kb.skip(src.len() as int) =~= (dst + kb.skip(src.len() as int)).skip(
                    dst.len() as int,
                )) by {
                    crate::paths::lemma_space_duality(dst, dst, kb.skip(src.len() as int));
                }
                crate::paths::lemma_prefix_recompose(src, ka);
                crate::paths::lemma_prefix_recompose(src, kb);
                assert(ka =~= kb);
            }
        } else if src.is_prefix_of(ka) {
            assert(dst.is_prefix_of(t[a].0.segs())) by {
                crate::paths::lemma_space_duality(dst, dst, ka.skip(src.len() as int));
            }
        } else if src.is_prefix_of(kb) {
            assert(dst.is_prefix_of(t[b].0.segs())) by {
                crate::paths::lemma_space_duality(dst, dst, kb.skip(src.len() as int));
            }
        }
    }
    lemma_map_of_props(t);
    assert forall|q: Seq<Seq<char>>| #[trigger] mt.contains_key(q) implies moved_tree(
        m,
        src,
        dst,
    ).contains_key(q) && mt[q] == moved_tree(m, src, dst)[q] by {
        let j = choose|j: int| 0 <= j < t.len() && (#[trigger] t[j].0.segs()) == q;
        let kj = s[j].0.segs();
        if src.is_prefix_of(kj) {
            let r = kj.skip(src.len() as int);
            assert(q == dst + r);
            assert(dst.is_prefix_of(q)) by {
                crate::paths::lemma_space_duality(dst, dst, r);
            }
            assert(q.skip(dst.len() as int) =~= r) by {
                crate::paths::lemma_space_duality(dst, dst, r);
            }
            assert(src + q.skip(dst.len() as int) =~= kj) by {
                crate::paths::lemma_prefix_recompose(src, kj);
            }
            assert(m.contains_key(kj) && m[kj] == s[j].1.model());
        } else {
            assert(q == kj);
            assert(!dst.is_prefix_of(q));
            assert(m.contains_key(q) && m[q] == s[j].1.model());
        }
    }
    assert forall|q: Seq<Seq<char>>| #[trigger] moved_tree(m, src, dst).contains_key(
        q,
    ) implies mt.contains_key(q) by {
        if dst.is_prefix_of(q) {
            let k0 = src + q.skip(dst.len() as int);
            assert(m.contains_key(k0));
            let j = choose|j: int| 0 <= j < s.len() && (#[trigger] s[j].0.segs()) == k0;
            assert(src.is_prefix_of(k0)) by {
                crate::paths::lemma_space_duality(src, src, q.skip(dst.len() as int));
            }
            assert(k0.skip(src.len() as int) =~= q.skip(dst.len() as int)) by {
                crate::paths::lemma_space_duality(src, src, q.skip(dst.len() as int));
            }
            assert(t[j].0.segs() == dst + k0.skip(src.len() as int));
            assert(dst + k0.skip(src.len() as int) =~= q) by {
                crate::paths::lemma_prefix_recompose(dst, q);
            }
            assert(has_key(t, q));
        } else {
            assert(m.contains_key(q) && !src.is_prefix_of(q));
            let j = choose|j: int| 0 <= j < s.len() && (#[trigger] s[j].0.segs()) == q;
            assert(t[j].0.segs() == q);
            assert(has_key(t, q));
        }
    }
    assert(mt =~= moved_tree(m, src, dst));
}

/// The simulated filesystem state./// The simulated filesystem state.
#[derive(Debug)]
pub struct FsState {
    /// The entries, one per existing path; paths are absolute and unique.
    pub entries: Vec<(FsPath, FsEntry)>,
    /// The mount table: a path prefix and the device it carries; prefixes
    /// are absolute and unique.
    pub mounts: Vec<(FsPath, u64)>,
}

impl View for FsState {
    type V = FsMap;

    /// The filesystem as a map from absolute paths to entries.
    open spec fn view(&self) -> FsMap {
        map_of(self.entries@)
    }
}

impl FsState {
    /// Well-formedness: entry paths and mount prefixes are absolute and
    /// unique.
    pub open spec fn wf(&self) -> bool {
        &&& keys_unique(self.entries@)
        &&& keys_absolute(self.entries@)
        &&& forall|i: int, j: int|
            0 <= i < j < self.mounts@.len() ==> (#[trigger] self.mounts@[i].0.segs())
                != (#[trigger] self.mounts@[j].0.segs())
        &&& forall|i: int| 0 <= i < self.mounts@.len() ==> (#[trigger] self.mounts@[i].0).absolute
    }

    /// The mount table as a sequence of (prefix, device) pairs.
    pub open spec fn mounts_seq(&self) -> Seq<(FsPath, u64)> {
        self.mounts@
    }

    /// A mount at index `i` covers path `k`.
    #[verifier::inline]
    pub open spec fn mount_covers(&self, i: int, k: Seq<Seq<char>>) -> bool {
        mount_covers_seq(self.mounts@, i, k)
    }

    /// Some registered mount prefix covers `k`, so `k`'s device identity
    /// can be determined.
    #[verifier::inline]
    pub open spec fn device_known(&self, k: Seq<Seq<char>>) -> bool {
        device_known_seq(self.mounts@, k)
    }

    /// Whether some entry exists strictly below `p`.
    pub fn has_descendant(&self, p: &FsPath) -> (r: bool)
        requires
            self.wf(),
            p.absolute,
        ensures
            r == spec_has_descendant(self@, p.segs()),
    {
        proof {
            lemma_map_of_props(self.entries@);
        }
        let mut i: usize = 0;
        while i < self.entries.len()
            invariant
                i <= self.entries@.len(),
                self.wf(),
                p.absolute,
                forall|j: int|
                    0 <= j < i ==> !((#[trigger] self.entries@[j].0.segs()).len() > p.segs().len()
                        && p.segs().is_prefix_of(self.entries@[j].0.segs())),
            decreases self.entries@.len() - i,
        {
            if self.entries[i].0.starts_with(p) && self.entries[i].0.segments.len()
                > p.segments.len() {
                proof {
                    lemma_map_of_props(self.entries@);
                    let k = self.entries@[i as int].0.segs();
                    assert(has_key(self.entries@, k));
                    assert(self@.contains_key(k) && p.segs().is_prefix_of(k) && k.len()
                        > p.segs().len());
                }
                return true;
            }
            i = i + 1;
        }
        proof {
            if spec_has_descendant(self@, p.segs()) {
                let k = choose|k: Seq<Seq<char>>|
                    #[trigger] self@.contains_key(k) && p.segs().is_prefix_of(k) && k.len()
                        > p.segs().len();
                assert(has_key(self.entries@, k));
                let j = choose|j: int|
                    0 <= j < self.entries@.len() && (#[trigger] self.entries@[j].0.segs()) == k;
                assert(false);
            }
        }
        false
    }

    /// A fresh filesystem: just the root directory, mounted as device 0.
    pub fn new() -> (r: FsState)
        ensures
            r.wf(),
            r@ == Map::<Seq<Seq<char>>, EntryModel>::empty().insert(
                Seq::<Seq<char>>::empty(),
                EntryModel::Dir,
            ),
            r.mounts_seq().len() == 1,
            r.mounts_seq()[0].0.is_root(),
            r.mounts_seq()[0].1 == 0u64,
    {
        let mut entries: Vec<(FsPath, FsEntry)> = Vec::new();
        entries.push((FsPath::root(), FsEntry::Dir));
        let mut mounts: Vec<(FsPath, u64)> = Vec::new();
        mounts.push((FsPath::root(), 0));
        let r = FsState { entries, mounts };
        proof {
            assert(r.entries@.len() == 1);
            assert(r.entries@.drop_last() =~= Seq::<(FsPath, FsEntry)>::empty());
            assert(map_of(r.entries@.drop_last()) == Map::<Seq<Seq<char>>, EntryModel>::empty());
            assert(r.entries@.last().0.segs() =~= Seq::<Seq<char>>::empty());
            assert(r.entries@.last().1.model() == EntryModel::Dir);
            assert(r@ == Map::<Seq<Seq<char>>, EntryModel>::empty().insert(
                Seq::<Seq<char>>::empty(),
                EntryModel::Dir,
            ));
        }
        r
    }

    /// Register a device boundary: every path under `at` (and not under a
    /// longer registered prefix) resides on `device`.
    pub fn add_mount(&mut self, at: &FsPath, device: u64) -> (r: Result<(), Error>)
        requires
            old(self).wf(),
            at.absolute,
        ensures
            final(self).wf(),
            final(self)@ == old(self)@,
            final(self).entries == old(self).entries,
            match r {
                Ok(()) => {
                    &&& forall|i: int|
                        0 <= i < old(self).mounts_seq().len() ==> (
                        #[trigger] old(self).mounts_seq()[i].0.segs()) != at.segs()
                    &&& final(self).mounts_seq().len() == old(self).mounts_seq().len() + 1
                    &&& forall|i: int|
                        0 <= i < old(self).mounts_seq().len() ==> final(self).mounts_seq()[i]
                            == old(self).mounts_seq()[i]
                    &&& final(self).mounts_seq().last().0.segs() == at.segs()
                    &&& final(self).mounts_seq().last().0.absolute
                    &&& final(self).mounts_seq().last().1 == device
                },
                Err(e) => {
                    &&& exists|i: int|
                        0 <= i < old(self).mounts_seq().len() && (
                        #[trigger] old(self).mounts_seq()[i].0.segs()) == at.segs()
                    &&& final(self).mounts_seq() == old(self).mounts_seq()
                    &&& e is BadInput
                },
            },
    {
        let mut i: usize = 0;
        while i < self.mounts.len()
            invariant
                i <= self.mounts@.len(),
                self.wf(),
                at.absolute,
                self.entries == old(self).entries,
                self.mounts == old(self).mounts,
                forall|j: int|
                    0 <= j < i ==> (#[trigger] self.mounts@[j].0.segs()) != at.segs(),
            decreases self.mounts@.len() - i,
        {
            if self.mounts[i].0 == *at {
                proof {
                    assert(0 <= (i as int) && (i as int) < old(self).mounts_seq().len()
                        && old(self).mounts_seq()[i as int].0.segs() == at.segs());
                }
                return Err(Error::BadInput("a mount is already registered at this path"));
            }
            i = i + 1;
        }
        self.mounts.push((at.clone(), device));
        Ok(())
    }

    /// The position of the entry for `p`, if any.
    fn find_index(&self, p: &FsPath) -> (r: Option<usize>)
        requires
            self.wf(),
            p.absolute,
        ensures
            match r {
                Some(i) => i < self.entries@.len() && self.entries@[i as int].0.segs()
                    == p.segs(),
                None => !has_key(self.entries@, p.segs()),
            },
    {
        let mut i: usize = 0;
        while i < self.entries.len()
            invariant
                i <= self.entries@.len(),
                self.wf(),
                p.absolute,
                forall|j: int|
                    0 <= j < i ==> (#[trigger] self.entries@[j].0.segs()) != p.segs(),
            decreases self.entries@.len() - i,
        {
            if self.entries[i].0 == *p {
                return Some(i);
            }
            i = i + 1;
        }
        None
    }

    /// The entry at `p`, if the path exists.
    pub fn lookup(&self, p: &FsPath) -> (r: Option<&FsEntry>)
        requires
            self.wf(),
            p.absolute,
        ensures
            match r {
                Some(e) => self@.contains_key(p.segs()) && e.model() == self@[p.segs()],
                None => !self@.contains_key(p.segs()),
            },
    {
        proof {
            lemma_map_of_props(self.entries@);
        }
        match self.find_index(p) {
            Some(i) => Some(&self.entries[i].1),
            None => None,
        }
    }

    /// Whether an entry exists at `p` (without following symlinks).
    pub fn exists_entry(&self, p: &FsPath) -> (r: bool)
        requires
            self.wf(),
            p.absolute,
        ensures
            r == self@.contains_key(p.segs()),
    {
        self.lookup(p).is_some()
    }

    /// Whether `p` is a symlink; a missing path is not an error, just not
    /// a symlink.
    pub fn is_symlink(&self, p: &FsPath) -> (r: bool)
        requires
            self.wf(),
            p.absolute,
        ensures
            r == (self@.contains_key(p.segs()) && self@[p.segs()] is Symlink),
    {
        match self.lookup(p) {
            Some(e) => match e {
                FsEntry::Symlink { .. } => true,
                _ => false,
            },
            None => false,
        }
    }

    /// Read a symlink's target: exactly the path the link was created
    /// with, with no canonicalization.
    pub fn read_link(&self, p: &FsPath) -> (r: Result<FsPath, Error>)
        requires
            self.wf(),
            p.absolute,
        ensures
            match r {
                Ok(t) => {
                    &&& self@.contains_key(p.segs())
                    &&& self@[p.segs()] is Symlink
                    &&& t.absolute == self@[p.segs()]->Symlink_absolute
                    &&& t.segs() == self@[p.segs()]->Symlink_target
                },
                Err(e) => match e {
                    Error::PathDoesNotExist(q) => !self@.contains_key(p.segs()) && q.segs()
                        == p.segs(),
                    Error::SymlinkPathIsNotASymlink(q) => self@.contains_key(p.segs())
                        && !(self@[p.segs()] is Symlink) && q.segs() == p.segs(),
                    _ => false,
                },
            },
    {
        match self.lookup(p) {
            Some(e) => match e {
                FsEntry::Symlink { target } => Ok(target.clone()),
                _ => Err(Error::SymlinkPathIsNotASymlink(p.clone())),
            },
            None => Err(Error::PathDoesNotExist(p.clone())),
        }
    }

    /// Read a regular file's bytes.
    pub fn read_file(&self, p: &FsPath) -> (r: Result<Vec<u8>, Error>)
        requires
            self.wf(),
            p.absolute,
        ensures
            match r {
                Ok(c) => {
                    &&& self@.contains_key(p.segs())
                    &&& self@[p.segs()] is File
                    &&& c@ == self@[p.segs()]->File_content
                },
                Err(e) => match e {
                    Error::PathDoesNotExist(q) => !self@.contains_key(p.segs()) && q.segs()
                        == p.segs(),
                    Error::ConflictingPath(q) => self@.contains_key(p.segs())
                        && !(self@[p.segs()] is File) && q.segs() == p.segs(),
                    _ => false,
                },
            },
    {
        match self.lookup(p) {
            Some(e) => match e {
                FsEntry::File { content } => Ok(clone_bytes(content)),
                _ => Err(Error::ConflictingPath(p.clone())),
            },
            None => Err(Error::PathDoesNotExist(p.clone())),
        }
    }

    /// Add an entry at a path that has none yet.
    pub(crate) fn insert_entry(&mut self, p: &FsPath, e: FsEntry)
        requires
            old(self).wf(),
            p.absolute,
            !old(self)@.contains_key(p.segs()),
        ensures
            final(self).wf(),
            final(self)@ == old(self)@.insert(p.segs(), e.model()),
            final(self).mounts == old(self).mounts,
    {
        let ghost s0 = self.entries@;
        let ghost em = e.model();
        let key = p.clone();
        self.entries.push((key, e));
        proof {
            lemma_map_of_props(s0);
            assert(!has_key(s0, p.segs()));
            assert(self.entries@.drop_last() =~= s0);
            assert(self.entries@.last().0.segs() == p.segs());
            assert(self.entries@.last().1.model() == em);
            assert(map_of(self.entries@) == map_of(s0).insert(p.segs(), em));
            assert forall|i: int, j: int| 0 <= i < j < self.entries@.len() implies (
            #[trigger] self.entries@[i].0.segs()) != (#[trigger] self.entries@[j].0.segs()) by {
                if j < self.entries@.len() - 1 {
                    assert(s0[i].0.segs() != s0[j].0.segs());
                } else {
                    assert(s0[i].0.segs() != p.segs());
                }
            }
            assert(keys_absolute(self.entries@)) by {
                assert forall|i: int| 0 <= i < self.entries@.len() implies (
                #[trigger] self.entries@[i].0).absolute by {
                    if i < self.entries@.len() - 1 {
                        assert(s0[i].0.absolute);
                    }
                }
            }
        }
    }

    /// Drop the entry at `p`, if any.
    pub(crate) fn remove_entry(&mut self, p: &FsPath)
        requires
            old(self).wf(),
            p.absolute,
        ensures
            final(self).wf(),
            final(self)@ == old(self)@.remove(p.segs()),
            final(self).mounts == old(self).mounts,
    {
        let ghost s0 = self.entries@;
        let ghost k = p.segs();
        let mut acc: Vec<(FsPath, FsEntry)> = Vec::new();
        let mut i: usize = 0;
        while i < self.entries.len()
            invariant
                i <= self.entries@.len(),
                self.entries@ == s0,
                self.wf(),
                p.absolute,
                k == p.segs(),
                map_of(acc@) == map_of(s0.take(i as int)).remove(k),
                keys_unique(acc@),
                keys_absolute(acc@),
                forall|a: int| 0 <= a < acc@.len() ==> has_key(s0.take(i as int), (#[trigger] acc@[a].0.segs())),
            decreases self.entries@.len() - i,
        {
            let ghost t0 = s0.take(i as int);
            let ghost t1 = s0.take(i + 1 as int);
            proof {
                assert(t1.drop_last() =~= t0);
                assert(t1.last() == s0[i as int]);
                assert(map_of(t1) == map_of(t0).insert(s0[i as int].0.segs(), s0[i as int].1.model()));
            }
            let pair = &self.entries[i];
            if !(pair.0 == *p) {
                let ghost acc0 = acc@;
                acc.push((pair.0.clone(), pair.1.clone()));
                proof {
                    lemma_map_of_props(acc0);
                    assert forall|a: int| 0 <= a < acc0.len() implies (#[trigger] acc0[a].0.segs())
                        != s0[i as int].0.segs() by {
                        assert(has_key(t0, acc0[a].0.segs()));
                        let b = choose|b: int|
                            0 <= b < t0.len() && (#[trigger] t0[b].0.segs()) == acc0[a].0.segs();
                        assert(s0[b].0.segs() == acc0[a].0.segs());
                        assert(s0[b].0.segs() != s0[i as int].0.segs());
                    }
                    assert(!has_key(acc0, s0[i as int].0.segs()));
                    assert(acc@.drop_last() =~= acc0);
                    assert(map_of(acc@) == map_of(acc0).insert(
                        s0[i as int].0.segs(),
                        s0[i as int].1.model(),
                    ));
                    assert(map_of(acc@) =~= map_of(t1).remove(k));
                    assert forall|a: int, b: int| 0 <= a < b < acc@.len() implies (
                    #[trigger] acc@[a].0.segs()) != (#[trigger] acc@[b].0.segs()) by {
                        if b < acc@.len() - 1 {
                            assert(acc0[a].0.segs() != acc0[b].0.segs());
                        } else {
                            assert(acc0[a].0.segs() != s0[i as int].0.segs());
                        }
                    }
                    assert(keys_absolute(acc@)) by {
                        assert forall|a: int| 0 <= a < acc@.len() implies (
                        #[trigger] acc@[a].0).absolute by {
                            if a < acc@.len() - 1 {
                                assert(acc0[a].0.absolute);
                            } else {
                                assert(s0[i as int].0.absolute);
                            }
                        }
                    }
                    assert forall|a: int| 0 <= a < acc@.len() implies has_key(
                        t1,
                        (#[trigger] acc@[a].0.segs()),
                    ) by {
                        if a < acc@.len() - 1 {
                            assert(has_key(t0, acc0[a].0.segs()));
                            let b = choose|b: int|
                                0 <= b < t0.len() && (#[trigger] t0[b].0.segs()) == acc0[a].0.segs();
                            assert(t1[b].0.segs() == acc@[a].0.segs());
                        } else {
                            assert(t1[i as int].0.segs() == acc@[a].0.segs());
                        }
                    }
                }
            } else {
                proof {
                    assert(s0[i as int].0.segs() == k);
                    assert(map_of(acc@) =~= map_of(t1).remove(k));
                    assert forall|a: int| 0 <= a < acc@.len() implies has_key(
                        t1,
                        (#[trigger] acc@[a].0.segs()),
                    ) by {
                        assert(has_key(t0, acc@[a].0.segs()));
                        let b = choose|b: int|
                            0 <= b < t0.len() && (#[trigger] t0[b].0.segs()) == acc@[a].0.segs();
                        assert(t1[b].0.segs() == acc@[a].0.segs());
                    }
                }
            }
            i = i + 1;
        }
        proof {
            assert(s0.take(s0.len() as int) =~= s0);
        }
        self.entries = acc;
    }

    /// Relocate the entry at `src`, and everything beneath it, to `dst`,
    /// as one atomic step: the rename side of the path mover.
    pub(crate) fn move_tree(&mut self, src: &FsPath, dst: &FsPath)
        requires
            old(self).wf(),
            src.absolute,
            dst.absolute,
            !old(self)@.contains_key(dst.segs()),
            !spec_has_descendant(old(self)@, dst.segs()),
            !src.segs().is_prefix_of(dst.segs()),
        ensures
            final(self).wf(),
            final(self).mounts == old(self).mounts,
            final(self)@ == moved_tree(old(self)@, src.segs(), dst.segs()),
    {
        let ghost s0 = self.entries@;
        let mut acc: Vec<(FsPath, FsEntry)> = Vec::new();
        let mut i: usize = 0;
        while i < self.entries.len()
            invariant
                i <= self.entries@.len(),
                self.entries@ == s0,
                self.wf(),
                src.absolute,
                dst.absolute,
                acc@.len() == i,
                forall|j: int| 0 <= j < i ==> (#[trigger] acc@[j].0).absolute,
                forall|j: int| 0 <= j < i ==> (#[trigger] acc@[j].1).model() == s0[j].1.model(),
                forall|j: int|
                    0 <= j < i ==> (#[trigger] acc@[j].0.segs()) == (if src.segs().is_prefix_of(
                        s0[j].0.segs(),
                    ) {
                        dst.segs() + s0[j].0.segs().skip(src.segs().len() as int)
                    } else {
                        s0[j].0.segs()
                    }),
            decreases self.entries@.len() - i,
        {
            let pair = &self.entries[i];
            if pair.0.starts_with(src) {
                let relpart = match pair.0.strip_prefix(src) {
                    Ok(r) => r,
                    Err(_) => {
                        proof {
                            assert(false);
                        }
                        FsPath { absolute: false, segments: Vec::new() }
                    },
                };
                let newkey = dst.join(&relpart);
                acc.push((newkey, pair.1.clone()));
            } else {
                acc.push((pair.0.clone(), pair.1.clone()));
            }
            i = i + 1;
        }
        proof {
            lemma_map_of_props(s0);
            assert forall|j: int|
                0 <= j < s0.len() implies !dst.segs().is_prefix_of(
                #[trigger] s0[j].0.segs()) by {
                if dst.segs().is_prefix_of(s0[j].0.segs()) {
                    assert(has_key(s0, s0[j].0.segs()));
                    assert(map_of(s0).contains_key(s0[j].0.segs()));
                    if s0[j].0.segs().len() == dst.segs().len() {
                        assert(s0[j].0.segs() =~= dst.segs());
                    } else {
                        assert(s0[j].0.segs().len() > dst.segs().len());
                        assert(spec_has_descendant(map_of(s0), dst.segs()));
                    }
                }
            }
            lemma_move_rebuild(s0, acc@, src.segs(), dst.segs());
        }
        self.entries = acc;
    }

    /// Whether the entry at `q`, if any, stands in the way of creating a
    /// directory there.
    fn dir_obstruction(&self, q: &FsPath) -> (r: bool)
        requires
            self.wf(),
            q.absolute,
        ensures
            r == (self@.contains_key(q.segs()) && !(self@[q.segs()] is Dir)),
    {
        match self.lookup(q) {
            Some(e) => match e {
                FsEntry::Dir => false,
                _ => true,
            },
            None => false,
        }
    }

    /// Make `q` a directory if nothing is there yet.
    fn ensure_dir(&mut self, q: &FsPath)
        requires
            old(self).wf(),
            q.absolute,
        ensures
            final(self).wf(),
            final(self).mounts == old(self).mounts,
            final(self)@ == if old(self)@.contains_key(q.segs()) {
                old(self)@
            } else {
                old(self)@.insert(q.segs(), EntryModel::Dir)
            },
    {
        if !self.exists_entry(q) {
            self.insert_entry(q, FsEntry::Dir);
        }
    }

    /// Whether the directory chain down to `p` can be created: nothing on
    /// the way is an existing non-directory.
    pub fn can_make_dirs(&self, p: &FsPath) -> (r: bool)
        requires
            self.wf(),
            p.absolute,
        ensures
            r == dirs_ok(self@, p.segs()),
    {
        let n: usize = p.segments.len();
        let mut cur = FsPath { absolute: true, segments: Vec::new() };
        proof {
            assert(cur.segs() =~= p.segs().take(0));
        }
        if self.dir_obstruction(&cur) {
            proof {
                lemma_dirs_ok_iff(self@, p.segs());
            }
            return false;
        }
        let mut i: usize = 0;
        while i < n
            invariant
                i <= n,
                n == p.segments@.len(),
                self.wf(),
                p.absolute,
                cur.absolute,
                cur.segs() =~= p.segs().take(i as int),
                forall|l: int|
                    0 <= l <= i ==> ((#[trigger] self@.contains_key(p.segs().take(l)))
                        ==> self@[p.segs().take(l)] is Dir),
            decreases n - i,
        {
            cur.push(p.segments[i].clone());
            proof {
                assert(cur.segs() =~= p.segs().take(i + 1 as int));
            }
            if self.dir_obstruction(&cur) {
                proof {
                    lemma_dirs_ok_iff(self@, p.segs());
                    assert(self@.contains_key(p.segs().take(i + 1 as int)));
                }
                return false;
            }
            i = i + 1;
        }
        proof {
            assert(p.segs().take(n as int) =~= p.segs());
            lemma_dirs_ok_iff(self@, p.segs());
        }
        true
    }

    /// Create the directory chain down to `p`, like `mkdir -p`: every
    /// missing prefix becomes a directory; an existing non-directory on
    /// the way is a conflict and nothing is changed.
    pub fn create_dir_all(&mut self, p: &FsPath) -> (r: Result<(), Error>)
        requires
            old(self).wf(),
            p.absolute,
        ensures
            final(self).wf(),
            final(self).mounts == old(self).mounts,
            match r {
                Ok(()) => {
                    &&& dirs_ok(old(self)@, p.segs())
                    &&& final(self)@ == with_dirs(old(self)@, p.segs())
                },
                Err(e) => {
                    &&& !dirs_ok(old(self)@, p.segs())
                    &&& final(self)@ == old(self)@
                    &&& final(self).entries == old(self).entries
                    &&& e matches Error::ConflictingPath(q) && q.segs().is_prefix_of(p.segs())
                        && old(self)@.contains_key(q.segs()) && !(old(self)@[q.segs()] is Dir)
                },
            },
    {
        let n: usize = p.segments.len();
        let mut cur = FsPath { absolute: true, segments: Vec::new() };
        proof {
            assert(cur.segs() =~= p.segs().take(0));
        }
        if self.dir_obstruction(&cur) {
            proof {
                lemma_dirs_ok_iff(self@, p.segs());
            }
            return Err(Error::ConflictingPath(cur));
        }
        let mut i: usize = 0;
        while i < n
            invariant
                i <= n,
                n == p.segments@.len(),
                self == old(self),
                self.wf(),
                p.absolute,
                cur.absolute,
                cur.segs() =~= p.segs().take(i as int),
                forall|l: int|
                    0 <= l <= i ==> ((#[trigger] self@.contains_key(p.segs().take(l)))
                        ==> self@[p.segs().take(l)] is Dir),
            decreases n - i,
        {
            cur.push(p.segments[i].clone());
            proof {
                assert(cur.segs() =~= p.segs().take(i + 1 as int));
            }
            if self.dir_obstruction(&cur) {
                proof {
                    lemma_dirs_ok_iff(self@, p.segs());
                    assert(self@.contains_key(p.segs().take(i + 1 as int)));
                }
                return Err(Error::ConflictingPath(cur));
            }
            i = i + 1;
        }
        proof {
            assert(p.segs().take(n as int) =~= p.segs());
            lemma_dirs_ok_iff(self@, p.segs());
        }
        let ghost m0 = self@;
        let mut cur = FsPath { absolute: true, segments: Vec::new() };
        proof {
            assert(cur.segs() =~= p.segs().take(0));
        }
        self.ensure_dir(&cur);
        proof {
            assert(p.segs().take(0) =~= Seq::<Seq<char>>::empty());
            assert(self@ == with_dirs(m0, p.segs().take(0)));
        }
        let mut i: usize = 0;
        while i < n
            invariant
                i <= n,
                n == p.segments@.len(),
                self.wf(),
                p.absolute,
                cur.absolute,
                self.mounts == old(self).mounts,
                m0 == old(self)@,
                cur.segs() =~= p.segs().take(i as int),
                self@ == with_dirs(m0, p.segs().take(i as int)),
            decreases n - i,
        {
            cur.push(p.segments[i].clone());
            proof {
                assert(cur.segs() =~= p.segs().take(i + 1 as int));
            }
            let ghost t = p.segs().take(i + 1 as int);
            proof {
                assert(t.drop_last() =~= p.segs().take(i as int));
            }
            self.ensure_dir(&cur);
            proof {
                assert(self@ == with_dirs(m0, t));
            }
            i = i + 1;
        }
        proof {
            assert(p.segs().take(n as int) =~= p.segs());
        }
        Ok(())
    }

    /// The device a path resides on: the device of the longest mount
    /// prefix covering it.  With no covering mount the device identity is
    /// unknown, which is an error, not a silent choice.
    pub fn device_of(&self, p: &FsPath) -> (r: Result<u64, Error>)
        requires
            self.wf(),
            p.absolute,
        ensures
            match r {
                Ok(d) => exists|i: int|
                    {
                        &&& 0 <= i < self.mounts_seq().len()
                        &&& #[trigger] self.mount_covers(i, p.segs())
                        &&& self.mounts_seq()[i].1 == d
                        &&& forall|j: int|
                            0 <= j < self.mounts_seq().len() && #[trigger] self.mount_covers(
                                j,
                                p.segs(),
                            ) ==> self.mounts_seq()[j].0.segs().len()
                                <= self.mounts_seq()[i].0.segs().len()
                    },
                Err(e) => {
                    &&& forall|j: int|
                        0 <= j < self.mounts_seq().len() ==> !(#[trigger] self.mount_covers(
                            j,
                            p.segs(),
                        ))
                    &&& e matches Error::UnableToRetrievePathDeviceInfo(q) && q.segs() == p.segs()
                },
            },
    {
        let mut best: Option<usize> = None;
        let mut i: usize = 0;
        while i < self.mounts.len()
            invariant
                i <= self.mounts@.len(),
                self.wf(),
                p.absolute,
                match best {
                    Some(b) => {
                        &&& (b as int) < i
                        &&& self.mount_covers(b as int, p.segs())
                        &&& forall|j: int|
                            0 <= j < i && #[trigger] self.mount_covers(j, p.segs())
                                ==> self.mounts@[j].0.segs().len() <= self.mounts@[b as int].0.segs().len()
                    },
                    None => forall|j: int| 0 <= j < i ==> !(#[trigger] self.mount_covers(j, p.segs())),
                },
            decreases self.mounts@.len() - i,
        {
            if p.starts_with(&self.mounts[i].0) {
                proof {
                    assert(self.mount_covers(i as int, p.segs()));
                }
                match best {
                    None => {
                        best = Some(i);
                    },
                    Some(b) => {
                        if self.mounts[i].0.segments.len() > self.mounts[b].0.segments.len() {
                            best = Some(i);
                        }
                    },
                }
            }
            i = i + 1;
        }
        match best {
            Some(b) => {
                proof {
                    assert(self.mount_covers(b as int, p.segs()));
                }
                Ok(self.mounts[b].1)
            },
            None => Err(Error::UnableToRetrievePathDeviceInfo(p.clone())),
        }
    }

    /// Create a regular file with the given bytes; the parent directory
    /// must already exist, and nothing is overwritten.
    pub fn create_file(&mut self, p: &FsPath, content: Vec<u8>) -> (r: Result<(), Error>)
        requires
            old(self).wf(),
            p.absolute,
            p.segs().len() > 0,
        ensures
            final(self).wf(),
            final(self).mounts == old(self).mounts,
            match r {
                Ok(()) => {
                    &&& !old(self)@.contains_key(p.segs())
                    &&& old(self)@.contains_key(p.segs().drop_last())
                    &&& old(self)@[p.segs().drop_last()] is Dir
                    &&& final(self)@ == old(self)@.insert(
                        p.segs(),
                        EntryModel::File { content: content@ },
                    )
                },
                Err(e) => {
                    &&& final(self)@ == old(self)@
                    &&& final(self).entries == old(self).entries
                    &&& match e {
                        Error::ConflictingPath(q) => old(self)@.contains_key(p.segs()) && q.segs()
                            == p.segs(),
                        Error::PathDoesNotExist(q) => {
                            &&& !old(self)@.contains_key(p.segs())
                            &&& !(old(self)@.contains_key(p.segs().drop_last()) && old(self)@[p.segs().drop_last()] is Dir)
                            &&& q.segs() == p.segs().drop_last()
                        },
                        _ => false,
                    }
                },
            },
    {
        if self.exists_entry(p) {
            return Err(Error::ConflictingPath(p.clone()));
        }
        let parent = match p.parent() {
            Some(q) => q,
            None => {
                proof {
                    assert(false);
                }
                return Err(Error::ConflictingPath(p.clone()));
            },
        };
        let parent_is_dir = match self.lookup(&parent) {
            Some(e) => match e {
                FsEntry::Dir => true,
                _ => false,
            },
            None => false,
        };
        if !parent_is_dir {
            return Err(Error::PathDoesNotExist(parent));
        }
        self.insert_entry(p, FsEntry::File { content });
        Ok(())
    }

    /// Remove the entry at `p`, which must exist and not be a directory:
    /// the unlink primitive used to drop a file or the symlink being
    /// replaced.
    pub fn remove_file(&mut self, p: &FsPath) -> (r: Result<(), Error>)
        requires
            old(self).wf(),
            p.absolute,
        ensures
            final(self).wf(),
            final(self).mounts == old(self).mounts,
            match r {
                Ok(()) => {
                    &&& old(self)@.contains_key(p.segs())
                    &&& !(old(self)@[p.segs()] is Dir)
                    &&& final(self)@ == old(self)@.remove(p.segs())
                },
                Err(e) => {
                    &&& final(self)@ == old(self)@
                    &&& final(self).entries == old(self).entries
                    &&& match e {
                        Error::PathDoesNotExist(q) => !old(self)@.contains_key(p.segs()) && q.segs()
                            == p.segs(),
                        Error::ConflictingPath(q) => old(self)@.contains_key(p.segs())
                            && old(self)@[p.segs()] is Dir && q.segs() == p.segs(),
                        _ => false,
                    }
                },
            },
    {
        match self.lookup(p) {
            None => Err(Error::PathDoesNotExist(p.clone())),
            Some(e) => match e {
                FsEntry::Dir => Err(Error::ConflictingPath(p.clone())),
                _ => {
                    self.remove_entry(p);
                    Ok(())
                },
            },
        }
    }
}

} // verus!
