use vstd::prelude::*;

use crate::dir::{
    children_listing, dir_suffix, dir_view, dot_entry, lemma_dir_view_push, page_of,
    push_children, push_snapshots, root_suffix, snapshots_listing, DirEntryData, DirEntrySpec,
};
use crate::record::{FileAttrData, FileKind, SigRecord, Stamp};
use crate::snapshots::{spec_sid_from_path, stamp_renderable, SnapshotsInos};
use crate::tree::{
    node_count, node_wf, subtree_last, tree_models, SnapshotTree, TreeNode,
};
use crate::Errno;

verus! {

/// Relies on time::get_time: the current wall-clock time as seconds and
/// nanoseconds since the Unix epoch. The result depends on the clock, so
/// nothing is assumed about it.
#[verifier::external_body]
fn now_stamp() -> Stamp {
    let t = time::get_time();
    Stamp { sec: t.sec, nsec: t.nsec }
}

/// What range of the inode space an inode falls into: the mount root
/// (inode 1), a snapshot directory, or (potentially) an entry inside some
/// snapshot tree.
#[derive(Clone, Copy, PartialEq, Eq, Structural, Debug)]
pub enum InoClass {
    Root,
    Snapshot,
    Entry,
}

/// The attributes of the mount root and of snapshot directories: read-only
/// directories owned by nobody, with the given time in every field.
pub open spec fn spec_attr_dir(ino: u64, ts: Stamp) -> FileAttrData {
    FileAttrData {
        ino: ino,
        size: 0,
        blocks: 0,
        atime: ts,
        mtime: ts,
        ctime: ts,
        crtime: ts,
        kind: FileKind::Directory,
        perm: 0o555,
        nlink: 0,
        uid: 0,
        gid: 0,
        rdev: 0,
        flags: 0,
    }
}

/// Whether a materialised tree answers for an inode: either the inode of
/// the snapshot directory itself, or one inside the tree's exposed inode
/// interval.
pub open spec fn tree_covers(t: SnapshotTree, ino: u64) -> bool {
    ino == t.snapshot_ino || (t.root.children@.len() > 0 && t.root.children@[0].ino <= ino && ino
        <= subtree_last(t.root))
}

/// The first sid at or after `i` whose materialised tree answers for `ino`.
pub open spec fn find_covering(trees: Seq<Option<SnapshotTree>>, i: int, ino: u64) -> Option<int>
    decreases trees.len() - i,
{
    if 0 <= i < trees.len() {
        if trees[i] is Some && tree_covers(trees[i].unwrap(), ino) {
            Some(i)
        } else {
            find_covering(trees, i + 1, ino)
        }
    } else {
        None
    }
}

/// The filesystem adapter's state: the snapshot-name index, the snapshots'
/// capture times, one lazily materialised tree per snapshot, and the
/// largest inode handed out so far.
pub struct RuplicityFs {
    pub snapshots: SnapshotsInos,
    pub times: Vec<Stamp>,
    pub trees: Vec<Option<SnapshotTree>>,
    pub last_ino: u64,
}

impl RuplicityFs {
    /// The number of snapshots in the backup.
    pub open spec fn s_count(self) -> nat {
        self.snapshots.paths@.len()
    }

    /// What holds of one materialised tree: it is well-formed, it belongs
    /// to its snapshot directory's inode, and its inodes all lie in the
    /// entry block above the snapshot directories and at or below the
    /// allocator's watermark.
    pub open spec fn tree_wf_at(self, sid: int) -> bool {
        let t = self.trees@[sid].unwrap();
        &&& node_wf(t.root)
        &&& t.root.index == 0
        &&& t.snapshot_ino == sid + 2
        &&& t.root.ino >= self.s_count() + 3
        &&& t.root.ino <= self.last_ino + 1
        &&& node_count(t.root) <= usize::MAX
        &&& (t.root.children@.len() > 0 ==> subtree_last(t.root) <= self.last_ino)
    }

    /// Well-formedness of the adapter: the index, times and tree slots
    /// agree on the snapshot count, the inode watermark sits at or above
    /// the snapshot block, every materialised tree is sound, and the
    /// exposed inode intervals of any two materialised trees are disjoint.
    pub open spec fn wf(self) -> bool {
        &&& self.times@.len() == self.s_count()
        &&& self.trees@.len() == self.s_count()
        &&& self.s_count() + 2 <= u64::MAX
        &&& self.last_ino >= self.s_count() + 2
        &&& forall|sid: int|
            0 <= sid < self.trees@.len() && (#[trigger] self.trees@[sid]) is Some
                ==> self.tree_wf_at(sid)
        &&& forall|i: int, j: int|
            0 <= i < self.trees@.len() && 0 <= j < self.trees@.len() && i != j && (
            #[trigger] self.trees@[i]) is Some && (#[trigger] self.trees@[j]) is Some
                ==> subtree_last(self.trees@[i].unwrap().root) <= self.trees@[j].unwrap().root.ino
                || subtree_last(self.trees@[j].unwrap().root) <= self.trees@[i].unwrap().root.ino
    }

    /// Builds the adapter for a backup whose snapshots were captured at the
    /// given times (in sid order): no tree is materialised yet, and the
    /// inode allocator starts right after the snapshot directories' block.
    pub fn new(times: Vec<Stamp>) -> (r: Self)
        requires
            times@.len() + 2 <= u64::MAX,
            forall|i: int| 0 <= i < times@.len() ==> stamp_renderable(#[trigger] times@[i]),
        ensures
            r.wf(),
            r.s_count() == times@.len(),
            r.times@ == times@,
            r.last_ino == times@.len() + 2,
            forall|sid: int| 0 <= sid < times@.len() ==> (#[trigger] r.trees@[sid]) is None,
    {
        let snapshots = SnapshotsInos::new(&times);
        let last_ino = snapshots.last_ino();
        let mut trees: Vec<Option<SnapshotTree>> = Vec::new();
        let mut i: usize = 0;
        while i < times.len()
            invariant
                i <= times@.len(),
                trees@.len() == i,
                forall|sid: int| 0 <= sid < i ==> (#[trigger] trees@[sid]) is None,
            decreases times@.len() - i,
        {
            trees.push(None);
            i = i + 1;
        }
        RuplicityFs { snapshots: snapshots, times: times, trees: trees, last_ino: last_ino }
    }

    /// Classifies an inode: the mount root, a snapshot directory, or a
    /// possible entry inside some snapshot tree.
    pub fn classify(&self, ino: u64) -> (r: InoClass)
        requires
            self.wf(),
        ensures
            (r == InoClass::Root) == (ino == 1),
            (r == InoClass::Snapshot) == (2 <= ino && ino < self.s_count() + 2),
            (r == InoClass::Entry) == (ino == 0 || ino >= self.s_count() + 2),
    {
        if ino == 1 {
            InoClass::Root
        } else if self.snapshots.is_snapshot(ino) {
            InoClass::Snapshot
        } else {
            InoClass::Entry
        }
    }

    /// Finds the sid of the materialised tree that answers for an inode,
    /// scanning the trees in sid order.
    pub fn find_tree_with_ino(&self, ino: u64) -> (r: Option<usize>)
        requires
            self.wf(),
        ensures
            match r {
                Some(sid) => find_covering(self.trees@, 0, ino) == Some(sid as int),
                None => find_covering(self.trees@, 0, ino) is None,
            },
    {
        let mut i: usize = 0;
        while i < self.trees.len()
            invariant
                i <= self.trees@.len(),
                find_covering(self.trees@, 0, ino) == find_covering(self.trees@, i as int, ino),
            decreases self.trees@.len() - i,
        {
            match &self.trees[i] {
                Some(t) => {
                    if t.snapshot_ino == ino {
                        return Some(i);
                    }
                    match t.inodes() {
                        Some((first, last)) => {
                            if first <= ino && ino <= last {
                                return Some(i);
                            }
                        },
                        None => {},
                    }
                },
                None => {},
            }
            i = i + 1;
        }
        None
    }

    /// Materialises the tree of snapshot `sid` from its signature records,
    /// if it is not there yet: the new tree's inodes start right above the
    /// allocator's watermark, which then moves to the tree's last inode.
    /// Once a tree is there, the call changes nothing.
    pub fn tree_for_snapshot(&mut self, sid: usize, records: &Vec<SigRecord>)
        requires
            old(self).wf(),
            sid < old(self).s_count(),
            old(self).last_ino + 1 + records@.len() <= u64::MAX,
        ensures
            final(self).wf(),
            final(self).snapshots == old(self).snapshots,
            final(self).times == old(self).times,
            final(self).trees@.len() == old(self).trees@.len(),
            final(self).last_ino >= old(self).last_ino,
            forall|j: int|
                0 <= j < final(self).trees@.len() && j != sid ==> final(self).trees@[j] == old(
                    self,
                ).trees@[j],
            old(self).trees@[sid as int] is Some ==> *final(self) == *old(self),
            final(self).trees@[sid as int] is Some,
            old(self).trees@[sid as int] is None ==> {
                let t = final(self).trees@[sid as int].unwrap();
                &&& tree_models(t, records@)
                &&& t.root.ino == old(self).last_ino + 1
                &&& t.snapshot_ino == sid + 2
                &&& (t.root.children@.len() == 0 ==> final(self).last_ino == old(self).last_ino)
                &&& (t.root.children@.len() > 0 ==> final(self).last_ino == subtree_last(t.root))
            },
    {
        if self.trees[sid].is_some() {
            return ;
        }
        let first_ino = self.last_ino + 1;
        let tree = SnapshotTree::new(records, sid as u64 + 2, first_ino);
        proof {
            crate::tree::lemma_node_bounds(tree.root);
        }
        match tree.inodes() {
            Some((_first, last)) => {
                self.last_ino = last;
            },
            None => {},
        }
        self.trees[sid] = Some(tree);
        proof {
            assert forall|j: int|
                0 <= j < self.trees@.len() && (#[trigger] self.trees@[j]) is Some
                    implies self.tree_wf_at(j) by {
                if j != sid {
                    assert(old(self).trees@[j] is Some);
                    assert(old(self).tree_wf_at(j));
                } else {
                    assert(records.len() == records@.len());
                }
            }
            assert forall|i: int, j: int|
                0 <= i < self.trees@.len() && 0 <= j < self.trees@.len() && i != j && (
                #[trigger] self.trees@[i]) is Some && (#[trigger] self.trees@[j]) is Some
                    implies subtree_last(self.trees@[i].unwrap().root)
                    <= self.trees@[j].unwrap().root.ino || subtree_last(
                    self.trees@[j].unwrap().root,
                ) <= self.trees@[i].unwrap().root.ino by {
                if i != sid && j != sid {
                    assert(old(self).trees@[i] == self.trees@[i]);
                    assert(old(self).trees@[j] == self.trees@[j]);
                } else {
                    let k: int = if i == sid {
                        j
                    } else {
                        i
                    };
                    assert(old(self).trees@[k] is Some);
                    assert(old(self).tree_wf_at(k));
                    let okroot = old(self).trees@[k].unwrap().root;
                    if okroot.children@.len() == 0 {
                        assert(subtree_last(okroot) == okroot.ino);
                    }
                }
            }
        }
    }
}

/// The sid a covering scan returns names a materialised, covering tree; a
/// miss means no materialised tree covers the inode.
pub proof fn lemma_find_covering_props(trees: Seq<Option<SnapshotTree>>, i: int, ino: u64)
    requires
        0 <= i <= trees.len(),
    ensures
        match find_covering(trees, i, ino) {
            Some(sid) => i <= sid < trees.len() && trees[sid] is Some && tree_covers(
                trees[sid].unwrap(),
                ino,
            ),
            None => forall|j: int|
                i <= j < trees.len() && (#[trigger] trees[j]) is Some ==> !tree_covers(
                    trees[j].unwrap(),
                    ino,
                ),
        },
    decreases trees.len() - i,
{
    if i < trees.len() {
        if !(trees[i] is Some && tree_covers(trees[i].unwrap(), ino)) {
            lemma_find_covering_props(trees, i + 1, ino);
        }
    }
}

/// The first child (at or after `j`, in tree order) whose listing line
/// carries exactly `name`.
pub open spec fn lookup_child(
    s: Seq<TreeNode>,
    depth: nat,
    records: Seq<SigRecord>,
    name: Seq<char>,
    j: int,
) -> Option<TreeNode>
    decreases s.len() - j,
{
    if 0 <= j < s.len() {
        match crate::dir::child_entry(s[j], j, depth, records) {
            Some(e) => if e.name == name {
                Some(s[j])
            } else {
                lookup_child(s, depth, records, name, j + 1)
            },
            None => lookup_child(s, depth, records, name, j + 1),
        }
    } else {
        None
    }
}

/// A byte-for-byte copy of a stored byte string.
fn copy_bytes(src: &Vec<u8>) -> (r: Vec<u8>)
    ensures
        r@ == src@,
{
    let mut r: Vec<u8> = Vec::new();
    let mut i: usize = 0;
    while i < src.len()
        invariant
            i <= src@.len(),
            r@ == src@.take(i as int),
        decreases src@.len() - i,
    {
        r.push(src[i]);
        proof {
            assert(r@ =~= src@.take(i + 1));
        }
        i = i + 1;
    }
    proof {
        assert(r@ =~= src@);
    }
    r
}

impl RuplicityFs {
    /// Builds the reply attributes for a snapshot directory.
    pub fn attr_snapshot(&self, time: Stamp, ino: u64) -> (r: FileAttrData)
        ensures
            r == spec_attr_dir(ino, time),
    {
        FileAttrData {
            ino: ino,
            size: 0,
            blocks: 0,
            atime: time,
            mtime: time,
            ctime: time,
            crtime: time,
            kind: FileKind::Directory,
            perm: 0o555,
            nlink: 0,
            uid: 0,
            gid: 0,
            rdev: 0,
            flags: 0,
        }
    }

    /// The mount root's attributes: a read-only directory stamped with the
    /// current wall-clock time.
    pub fn getattr_root(&self) -> (r: FileAttrData)
        ensures
            r == spec_attr_dir(1, r.atime),
    {
        let ts = now_stamp();
        self.attr_snapshot(ts, 1)
    }

    /// The attributes of a snapshot directory: its capture time in every
    /// timestamp field. Succeeds exactly on inodes of the snapshot block;
    /// anything else is no object attributes can be reported for.
    pub fn getattr_snapshot(&self, ino: u64) -> (r: Result<FileAttrData, Errno>)
        requires
            self.wf(),
        ensures
            2 <= ino && ino < self.s_count() + 2 ==> r == Ok::<FileAttrData, Errno>(
                spec_attr_dir(ino, self.times@[ino - 2]),
            ),
            !(2 <= ino && ino < self.s_count() + 2) ==> r == Err::<FileAttrData, Errno>(
                Errno::Enosys,
            ),
    {
        if !self.snapshots.is_snapshot(ino) {
            return Err(Errno::Enosys);
        }
        proof {
            assert(self.snapshots.paths.len() == self.snapshots.paths@.len());
        }
        let sid = self.snapshots.sid_from_ino(ino);
        Ok(self.attr_snapshot(self.times[sid], ino))
    }

    /// The attributes of an entry inside a materialised tree, computed from
    /// the entry's own signature record (handed in as the snapshot's record
    /// list). An inode no materialised tree answers for is outside every
    /// known range; one a tree answers for but does not hold (or whose
    /// record is missing) is a lookup miss.
    pub fn getattr_entry(&self, ino: u64, records: &Vec<SigRecord>) -> (r: Result<
        FileAttrData,
        Errno,
    >)
        requires
            self.wf(),
        ensures
            ({
                match find_covering(self.trees@, 0, ino) {
                    None => r == Err::<FileAttrData, Errno>(Errno::Enosys),
                    Some(sid) => {
                        let t = self.trees@[sid].unwrap();
                        match crate::tree::tree_find(t, ino) {
                            None => r == Err::<FileAttrData, Errno>(Errno::Enoent),
                            Some(f) => if f.0.index < records@.len() {
                                r == Ok::<FileAttrData, Errno>(
                                    crate::record::spec_attr_entry(
                                        records@[f.0.index as int],
                                        ino,
                                    ),
                                )
                            } else {
                                r == Err::<FileAttrData, Errno>(Errno::Enoent)
                            },
                        }
                    },
                }
            }),
    {
        let sid = match self.find_tree_with_ino(ino) {
            Some(sid) => sid,
            None => {
                return Err(Errno::Enosys);
            },
        };
        proof {
            lemma_find_covering_props(self.trees@, 0, ino);
        }
        let t = match &self.trees[sid] {
            Some(t) => t,
            None => {
                proof {
                    assert(false);
                }
                return Err(Errno::Enoent);
            },
        };
        match t.find_node(ino) {
            None => Err(Errno::Enoent),
            Some(e) => {
                if e.node.index < records.len() {
                    Ok(crate::record::attr_entry(&records[e.node.index], ino))
                } else {
                    Err(Errno::Enoent)
                }
            },
        }
    }

    /// Serves one page of the mount root's listing: `.` and `..`, then one
    /// line per snapshot directory, resumable at any returned cookie.
    pub fn readdir_root(&self, offset: u64, cap: usize) -> (r: Vec<DirEntryData>)
        requires
            self.wf(),
        ensures
            dir_view(r@) == page_of(root_suffix(self.snapshots.paths@, offset), cap as nat),
    {
        let ghost dot = dot_entry(1, 0, "."@);
        let ghost dotdot = dot_entry(1, 1, ".."@);
        let mut out: Vec<DirEntryData> = Vec::new();
        proof {
            assert(dir_view(out@) =~= Seq::<DirEntrySpec>::empty());
        }
        if offset == 0 {
            if out.len() < cap {
                let e = DirEntryData {
                    ino: 1,
                    offset: 0,
                    kind: FileKind::Directory,
                    name: ".".to_owned(),
                };
                proof {
                    lemma_dir_view_push(out@, e);
                }
                out.push(e);
            }
            if out.len() < cap {
                let e = DirEntryData {
                    ino: 1,
                    offset: 1,
                    kind: FileKind::Directory,
                    name: "..".to_owned(),
                };
                proof {
                    lemma_dir_view_push(out@, e);
                }
                out.push(e);
            }
            let ghost header = dir_view(out@);
            push_snapshots(&mut out, &self.snapshots.paths, 0, cap);
            proof {
                let l0 = snapshots_listing(self.snapshots.paths@, 0);
                let suffix = root_suffix(self.snapshots.paths@, 0);
                assert(suffix == seq![dot, dotdot] + l0);
                if cap == 0 {
                    assert(dir_view(out@) =~= page_of(suffix, cap as nat));
                } else if cap == 1 {
                    assert(header =~= seq![dot]);
                    assert(page_of(suffix, 1) == suffix.take(1));
                    assert(dir_view(out@) =~= page_of(suffix, cap as nat));
                } else {
                    assert(header =~= seq![dot, dotdot]);
                    if cap - 2 < l0.len() {
                        assert(page_of(l0, (cap - 2) as nat) == l0.take(cap - 2));
                        assert(page_of(suffix, cap as nat) == suffix.take(cap as int));
                        assert(dir_view(out@) =~= page_of(suffix, cap as nat));
                    } else {
                        assert(page_of(l0, (cap - 2) as nat) == l0);
                        assert(page_of(suffix, cap as nat) == suffix);
                        assert(dir_view(out@) =~= page_of(suffix, cap as nat));
                    }
                }
            }
        } else {
            if offset - 1 < self.snapshots.paths.len() as u64 {
                push_snapshots(&mut out, &self.snapshots.paths, (offset - 1) as usize, cap);
            } else {
                proof {
                    assert(snapshots_listing(self.snapshots.paths@, offset - 1)
                        =~= Seq::<DirEntrySpec>::empty());
                    assert(dir_view(out@) =~= page_of(
                        root_suffix(self.snapshots.paths@, offset),
                        cap as nat,
                    ));
                }
            }
        }
        out
    }
}

/// Serves one page of a directory's listing: `.` and `..` (with the given
/// inodes), then one line per child with a plain name, resumable at any
/// returned cookie.
fn readdir_pages(
    out: &mut Vec<DirEntryData>,
    dot_ino: u64,
    dotdot_ino: u64,
    children: &Vec<TreeNode>,
    depth: usize,
    records: &Vec<SigRecord>,
    offset: u64,
    cap: usize,
)
    requires
        old(out)@.len() == 0,
        children@.len() + 2 <= u64::MAX,
    ensures
        dir_view(final(out)@) == page_of(
            dir_suffix(
                dot_entry(dot_ino, 0, "."@),
                dot_entry(dotdot_ino, 1, ".."@),
                children@,
                depth as nat,
                records@,
                offset,
            ),
            cap as nat,
        ),
{
    let ghost dot = dot_entry(dot_ino, 0, "."@);
    let ghost dotdot = dot_entry(dotdot_ino, 1, ".."@);
    proof {
        assert(dir_view(out@) =~= Seq::<DirEntrySpec>::empty());
    }
    if offset == 0 {
        if out.len() < cap {
            let e = DirEntryData {
                ino: dot_ino,
                offset: 0,
                kind: FileKind::Directory,
                name: ".".to_owned(),
            };
            proof {
                lemma_dir_view_push(out@, e);
            }
            out.push(e);
        }
        if out.len() < cap {
            let e = DirEntryData {
                ino: dotdot_ino,
                offset: 1,
                kind: FileKind::Directory,
                name: "..".to_owned(),
            };
            proof {
                lemma_dir_view_push(out@, e);
            }
            out.push(e);
        }
        let ghost header = dir_view(out@);
        push_children(out, children, depth, records, 0, cap);
        proof {
            let l0 = children_listing(children@, depth as nat, records@, 0);
            let suffix = dir_suffix(dot, dotdot, children@, depth as nat, records@, 0);
            assert(suffix == seq![dot, dotdot] + l0);
            if cap == 0 {
                assert(dir_view(out@) =~= page_of(suffix, cap as nat));
            } else if cap == 1 {
                assert(header =~= seq![dot]);
                assert(page_of(suffix, 1) == suffix.take(1));
                assert(dir_view(out@) =~= page_of(suffix, cap as nat));
            } else {
                assert(header =~= seq![dot, dotdot]);
                if cap - 2 < l0.len() {
                    assert(page_of(l0, (cap - 2) as nat) == l0.take(cap - 2));
                    assert(page_of(suffix, cap as nat) == suffix.take(cap as int));
                    assert(dir_view(out@) =~= page_of(suffix, cap as nat));
                } else {
                    assert(page_of(l0, (cap - 2) as nat) == l0);
                    assert(page_of(suffix, cap as nat) == suffix);
                    assert(dir_view(out@) =~= page_of(suffix, cap as nat));
                }
            }
        }
    } else {
        if offset - 1 < children.len() as u64 {
            push_children(out, children, depth, records, (offset - 1) as usize, cap);
        } else {
            proof {
                assert(children_listing(children@, depth as nat, records@, offset - 1)
                    =~= Seq::<DirEntrySpec>::empty());
                assert(dir_view(out@) =~= page_of(
                    dir_suffix(dot, dotdot, children@, depth as nat, records@, offset),
                    cap as nat,
                ));
            }
        }
    }
}

impl RuplicityFs {
    /// Serves one page of a snapshot directory's listing, materialising the
    /// snapshot's tree from its signature records on first access: `.` and
    /// `..` (the latter pointing at the mount root), then one line per
    /// top-level entry, resumable at any returned cookie.
    pub fn readdir_snapshot(
        &mut self,
        ino: u64,
        offset: u64,
        records: &Vec<SigRecord>,
        cap: usize,
    ) -> (r: Vec<DirEntryData>)
        requires
            old(self).wf(),
            2 <= ino && ino < old(self).s_count() + 2,
            old(self).last_ino + 1 + records@.len() <= u64::MAX,
        ensures
            final(self).wf(),
            final(self).snapshots == old(self).snapshots,
            final(self).times == old(self).times,
            final(self).trees@.len() == old(self).trees@.len(),
            forall|j: int|
                0 <= j < final(self).trees@.len() && j != ino - 2 ==> final(self).trees@[j] == old(
                    self,
                ).trees@[j],
            old(self).trees@[ino - 2] is Some ==> *final(self) == *old(self),
            final(self).trees@[ino - 2] is Some,
            old(self).trees@[ino - 2] is None ==> tree_models(
                final(self).trees@[ino - 2].unwrap(),
                records@,
            ) && final(self).trees@[ino - 2].unwrap().root.ino == old(self).last_ino + 1,
            ({
                let t = final(self).trees@[ino - 2].unwrap();
                dir_view(r@) == page_of(
                    dir_suffix(
                        dot_entry(ino, 0, "."@),
                        dot_entry(1, 1, ".."@),
                        t.root.children@,
                        0,
                        records@,
                        offset,
                    ),
                    cap as nat,
                )
            }),
    {
        proof {
            assert(self.snapshots.paths.len() == self.snapshots.paths@.len());
        }
        let sid = self.snapshots.sid_from_ino(ino);
        self.tree_for_snapshot(sid, records);
        let mut out: Vec<DirEntryData> = Vec::new();
        let t = match &self.trees[sid] {
            Some(t) => t,
            None => {
                proof {
                    assert(false);
                }
                return out;
            },
        };
        proof {
            crate::tree::lemma_node_bounds(t.root);
            crate::tree::lemma_forest_bounds(t.root.children@, 0, t.root.index + 1, t.root.ino + 1);
        }
        readdir_pages(&mut out, ino, 1, &t.root.children, 0, records, offset, cap);
        out
    }

    /// Serves one page of an entry directory's listing: `.` and `..` (the
    /// latter pointing at the entry's parent), then one line per child,
    /// resumable at any returned cookie. Fails exactly when no materialised
    /// tree holds the inode.
    pub fn readdir_entry(
        &self,
        ino: u64,
        offset: u64,
        records: &Vec<SigRecord>,
        cap: usize,
    ) -> (r: Result<Vec<DirEntryData>, Errno>)
        requires
            self.wf(),
        ensures
            ({
                match find_covering(self.trees@, 0, ino) {
                    None => r == Err::<Vec<DirEntryData>, Errno>(Errno::Enoent),
                    Some(sid) => {
                        let t = self.trees@[sid].unwrap();
                        match crate::tree::tree_find(t, ino) {
                            None => r == Err::<Vec<DirEntryData>, Errno>(Errno::Enoent),
                            Some(f) => r is Ok && dir_view(r.unwrap()@) == page_of(
                                dir_suffix(
                                    dot_entry(ino, 0, "."@),
                                    dot_entry(f.2, 1, ".."@),
                                    f.0.children@,
                                    f.1,
                                    records@,
                                    offset,
                                ),
                                cap as nat,
                            ),
                        }
                    },
                }
            }),
    {
        let sid = match self.find_tree_with_ino(ino) {
            Some(sid) => sid,
            None => {
                return Err(Errno::Enoent);
            },
        };
        proof {
            lemma_find_covering_props(self.trees@, 0, ino);
        }
        let t = match &self.trees[sid] {
            Some(t) => t,
            None => {
                proof {
                    assert(false);
                }
                return Err(Errno::Enoent);
            },
        };
        let e = match t.find_node(ino) {
            Some(e) => e,
            None => {
                return Err(Errno::Enoent);
            },
        };
        proof {
            crate::tree::lemma_node_bounds(t.root);
            crate::tree::lemma_node_bounds(*e.node);
            crate::tree::lemma_forest_bounds(
                e.node.children@,
                0,
                e.node.index + 1,
                e.node.ino + 1,
            );
            if t.root.children@.len() == 0 {
                crate::tree::lemma_node_interval(t.root, ino);
            }
        }
        let mut out: Vec<DirEntryData> = Vec::new();
        readdir_pages(&mut out, ino, e.parent, &e.node.children, e.depth, records, offset, cap);
        Ok(out)
    }

    /// Looks a snapshot directory up by name under the mount root: the
    /// attributes of the earliest snapshot rendering to that name, or a
    /// miss when no snapshot does.
    pub fn lookup_snapshot(&self, name: &String) -> (r: Result<FileAttrData, Errno>)
        requires
            self.wf(),
        ensures
            match spec_sid_from_path(self.snapshots.paths@, name@, 0) {
                Some(sid) => r == Ok::<FileAttrData, Errno>(
                    spec_attr_dir((sid + 2) as u64, self.times@[sid]),
                ),
                None => r == Err::<FileAttrData, Errno>(Errno::Enoent),
            },
    {
        match self.snapshots.sid_from_path(name) {
            Some(sid) => {
                proof {
                    crate::snapshots::lemma_sid_from_path_range(
                        self.snapshots.paths@,
                        name@,
                        0,
                    );
                }
                let ino = self.snapshots.ino_from_sid(sid);
                Ok(self.attr_snapshot(self.times[sid], ino))
            },
            None => Err(Errno::Enoent),
        }
    }

    /// Looks a name up among the children of an entry directory: the
    /// attributes of the first child whose listing line carries the name,
    /// a miss when none does or when no materialised tree holds the parent.
    #[verifier::loop_isolation(false)]
    pub fn lookup_entry(&self, parent: u64, name: &String, records: &Vec<SigRecord>) -> (r: Result<
        FileAttrData,
        Errno,
    >)
        requires
            self.wf(),
        ensures
            ({
                match find_covering(self.trees@, 0, parent) {
                    None => r == Err::<FileAttrData, Errno>(Errno::Enoent),
                    Some(sid) => {
                        let t = self.trees@[sid].unwrap();
                        match crate::tree::tree_find(t, parent) {
                            None => r == Err::<FileAttrData, Errno>(Errno::Enoent),
                            Some(f) => match lookup_child(
                                f.0.children@,
                                f.1,
                                records@,
                                name@,
                                0,
                            ) {
                                Some(c) => r == Ok::<FileAttrData, Errno>(
                                    crate::record::spec_attr_entry(
                                        records@[c.index as int],
                                        c.ino,
                                    ),
                                ),
                                None => r == Err::<FileAttrData, Errno>(Errno::Enoent),
                            },
                        }
                    },
                }
            }),
    {
        let sid = match self.find_tree_with_ino(parent) {
            Some(sid) => sid,
            None => {
                return Err(Errno::Enoent);
            },
        };
        proof {
            lemma_find_covering_props(self.trees@, 0, parent);
        }
        let t = match &self.trees[sid] {
            Some(t) => t,
            None => {
                proof {
                    assert(false);
                }
                return Err(Errno::Enoent);
            },
        };
        let e = match t.find_node(parent) {
            Some(e) => e,
            None => {
                return Err(Errno::Enoent);
            },
        };
        let children = &e.node.children;
        let depth = e.depth;
        let mut j: usize = 0;
        while j < children.len()
            invariant
                j <= children@.len(),
                lookup_child(children@, depth as nat, records@, name@, 0) == lookup_child(
                    children@,
                    depth as nat,
                    records@,
                    name@,
                    j as int,
                ),
            decreases children@.len() - j,
        {
            let c = &children[j];
            if c.index < records.len() {
                let rec = &records[c.index];
                if depth < rec.path.len() {
                    match &rec.path[depth] {
                        crate::record::PathComp::Normal(nm) => {
                            if *nm == *name {
                                proof {
                                    let jj = j as int;
                                    let ce = crate::dir::child_entry(
                                        children@[jj],
                                        jj,
                                        depth as nat,
                                        records@,
                                    ).unwrap();
                                    assert(ce.name == nm@);
                                    assert(lookup_child(
                                        children@,
                                        depth as nat,
                                        records@,
                                        name@,
                                        jj,
                                    ) == Some(children@[jj]));
                                }
                                return Ok(crate::record::attr_entry(&records[c.index], c.ino));
                            }
                        },
                        crate::record::PathComp::Special => {},
                    }
                }
            }
            proof {
                let jj = j as int;
                assert(lookup_child(children@, depth as nat, records@, name@, jj)
                    == lookup_child(children@, depth as nat, records@, name@, jj + 1));
            }
            j = j + 1;
        }
        proof {
            assert(lookup_child(
                children@,
                depth as nat,
                records@,
                name@,
                children@.len() as int,
            ) is None);
        }
        Err(Errno::Enoent)
    }

    /// Reads the stored link target of a symbolic-link entry, as raw bytes.
    /// An entry without a stored target is not a symbolic link, which the
    /// mount cannot follow; an inode no materialised tree holds (or whose
    /// record is missing) is a miss.
    pub fn readlink_entry(&self, ino: u64, records: &Vec<SigRecord>) -> (r: Result<Vec<u8>, Errno>)
        requires
            self.wf(),
        ensures
            ({
                match find_covering(self.trees@, 0, ino) {
                    None => r == Err::<Vec<u8>, Errno>(Errno::Enoent),
                    Some(sid) => {
                        let t = self.trees@[sid].unwrap();
                        match crate::tree::tree_find(t, ino) {
                            None => r == Err::<Vec<u8>, Errno>(Errno::Enoent),
                            Some(f) => if f.0.index < records@.len() {
                                match records@[f.0.index as int].linked_path {
                                    Some(p) => r is Ok && r.unwrap()@ == p@,
                                    None => r == Err::<Vec<u8>, Errno>(Errno::Enosys),
                                }
                            } else {
                                r == Err::<Vec<u8>, Errno>(Errno::Enoent)
                            },
                        }
                    },
                }
            }),
    {
        let sid = match self.find_tree_with_ino(ino) {
            Some(sid) => sid,
            None => {
                return Err(Errno::Enoent);
            },
        };
        proof {
            lemma_find_covering_props(self.trees@, 0, ino);
        }
        let t = match &self.trees[sid] {
            Some(t) => t,
            None => {
                proof {
                    assert(false);
                }
                return Err(Errno::Enoent);
            },
        };
        let e = match t.find_node(ino) {
            Some(e) => e,
            None => {
                return Err(Errno::Enoent);
            },
        };
        if e.node.index < records.len() {
            match &records[e.node.index].linked_path {
                Some(p) => Ok(copy_bytes(p)),
                None => Err(Errno::Enosys),
            }
        } else {
            Err(Errno::Enoent)
        }
    }
}

/// The exposed inode intervals of two distinct materialised trees are
/// disjoint: inodes are handed out from a watermark that only grows, so a
/// later tree starts past everything an earlier one exposed.
pub proof fn lemma_trees_disjoint(fs: RuplicityFs, i: int, j: int, x: u64)
    requires
        fs.wf(),
        0 <= i < fs.trees@.len(),
        0 <= j < fs.trees@.len(),
        i != j,
        fs.trees@[i] is Some,
        fs.trees@[j] is Some,
    ensures
        !(crate::tree::in_subtree(fs.trees@[i].unwrap().root, x) && x
            > fs.trees@[i].unwrap().root.ino && crate::tree::in_subtree(
            fs.trees@[j].unwrap().root,
            x,
        ) && x > fs.trees@[j].unwrap().root.ino),
{
    let ti = fs.trees@[i].unwrap();
    let tj = fs.trees@[j].unwrap();
    crate::tree::lemma_node_interval(ti.root, x);
    crate::tree::lemma_node_interval(tj.root, x);
}

} // verus!
