use vstd::prelude::*;

use crate::record::SigRecord;

verus! {

/// One node of a materialised snapshot tree.
///
/// `index` is the position of the node's record in the snapshot's signature
/// stream; `ino` is the inode assigned to the node. Children are kept in
/// signature-stream order, which is the backup's depth-first ordering.
pub struct TreeNode {
    pub index: usize,
    pub ino: u64,
    pub children: Vec<TreeNode>,
}

/// Number of nodes in the subtree rooted at `n` (including `n`).
pub open spec fn node_count(n: TreeNode) -> nat
    decreases n, 0int,
{
    1 + forest_count(n.children@, 0)
}

/// Number of nodes in the forest `s[i..]`.
pub open spec fn forest_count(s: Seq<TreeNode>, i: int) -> nat
    decreases s, s.len() - i, 1int,
{
    if 0 <= i < s.len() {
        node_count(s[i]) + forest_count(s, i + 1)
    } else {
        0
    }
}

/// The largest inode of the subtree rooted at `n`: in a well-formed tree
/// this is the last inode assigned during its depth-first construction.
pub open spec fn subtree_last(n: TreeNode) -> u64
    decreases n,
{
    if n.children@.len() == 0 {
        n.ino
    } else {
        subtree_last(n.children@[n.children@.len() - 1])
    }
}

/// Whether the subtree rooted at `n` holds a node with inode `x`.
pub open spec fn in_subtree(n: TreeNode, x: u64) -> bool
    decreases n, 0int,
{
    x == n.ino || forest_has(n.children@, 0, x)
}

/// Whether some subtree of the forest `s[i..]` holds a node with inode `x`.
pub open spec fn forest_has(s: Seq<TreeNode>, i: int, x: u64) -> bool
    decreases s, s.len() - i, 1int,
{
    if 0 <= i < s.len() {
        in_subtree(s[i], x) || forest_has(s, i + 1, x)
    } else {
        false
    }
}

/// The siblings `s[i..]` carry consecutive stream indices and inodes: the
/// first starts at (`index`, `ino`), and each following sibling starts
/// right after the previous sibling's subtree. This is the shape the
/// depth-first construction produces, and it makes both numberings of a
/// subtree contiguous.
pub open spec fn forest_chained(s: Seq<TreeNode>, i: int, index: int, ino: int) -> bool
    decreases s, s.len() - i, 1int,
{
    if 0 <= i < s.len() {
        &&& s[i].index == index
        &&& s[i].ino == ino
        &&& node_wf(s[i])
        &&& forest_chained(s, i + 1, index + node_count(s[i]), ino + node_count(s[i]))
    } else {
        true
    }
}

/// Well-formedness of a tree node: its children are chained right after it,
/// recursively. All inode/index contiguity of a materialised tree follows
/// from this.
pub open spec fn node_wf(n: TreeNode) -> bool
    decreases n, 0int,
{
    forest_chained(n.children@, 0, n.index + 1, n.ino + 1)
}

/// A subtree holds one more node than its children's subtrees together,
/// and its last inode sits exactly `node_count - 1` after its root's.
pub proof fn lemma_node_bounds(n: TreeNode)
    requires
        node_wf(n),
    ensures
        node_count(n) >= 1,
        subtree_last(n) == n.ino + node_count(n) - 1,
    decreases n, 0int,
{
    lemma_forest_bounds(n.children@, 0, n.index + 1, n.ino + 1);
}

/// Bounds of a chained forest: it holds at least one node per sibling, and
/// the last inode of its last subtree closes the contiguous inode run that
/// starts at `ino`.
pub proof fn lemma_forest_bounds(s: Seq<TreeNode>, i: int, index: int, ino: int)
    requires
        forest_chained(s, i, index, ino),
        0 <= i <= s.len(),
    ensures
        forest_count(s, i) >= s.len() - i,
        i < s.len() ==> subtree_last(s[s.len() - 1]) == ino + forest_count(s, i) - 1,
    decreases s, s.len() - i, 1int,
{
    if i < s.len() {
        lemma_node_bounds(s[i]);
        lemma_forest_bounds(s, i + 1, index + node_count(s[i]), ino + node_count(s[i]));
        if i + 1 == s.len() {
            assert(forest_count(s, i + 1) == 0);
        }
    }
}

/// Facts about every sibling of a chained forest: all are well-formed, all
/// keep the same difference between stream index and inode, their inodes
/// grow from left to right, and their subtrees' inode intervals are sorted
/// and disjoint.
pub proof fn lemma_chained_facts(s: Seq<TreeNode>, i: int, index: int, ino: int)
    requires
        forest_chained(s, i, index, ino),
        0 <= i <= s.len(),
    ensures
        forall|j: int| i <= j < s.len() ==> node_wf(#[trigger] s[j]),
        forall|j: int|
            i <= j < s.len() ==> (#[trigger] s[j].index) - s[j].ino == index - ino,
        forall|j: int| i <= j < s.len() ==> (#[trigger] s[j].ino) >= ino,
        forall|j: int|
            i <= j < s.len() ==> #[trigger] subtree_last(s[j]) < ino + forest_count(s, i),
        forall|j: int, k: int|
            i <= j < k < s.len() ==> subtree_last(#[trigger] s[j]) < (#[trigger] s[k]).ino,
        i < s.len() ==> s[i].ino == ino && s[i].index == index,
    decreases s.len() - i,
{
    if i < s.len() {
        lemma_node_bounds(s[i]);
        lemma_chained_facts(s, i + 1, index + node_count(s[i]), ino + node_count(s[i]));
        assert forall|j: int, k: int| i <= j < k < s.len() implies subtree_last(
            #[trigger] s[j],
        ) < (#[trigger] s[k]).ino by {
            if j == i {
                assert(s[k].ino >= ino + node_count(s[i]));
                assert(subtree_last(s[i]) == ino + node_count(s[i]) - 1);
            }
        }
    }
}

/// A well-formed subtree holds exactly the inodes of the contiguous
/// interval from its root's inode to its last one.
pub proof fn lemma_node_interval(n: TreeNode, x: u64)
    requires
        node_wf(n),
    ensures
        in_subtree(n, x) <==> n.ino <= x <= subtree_last(n),
    decreases n, 0int,
{
    lemma_node_bounds(n);
    lemma_forest_interval(n.children@, 0, n.index + 1, n.ino + 1, x);
}

/// A chained forest holds exactly the inodes of the contiguous run of
/// length `forest_count` that starts at `ino`.
pub proof fn lemma_forest_interval(s: Seq<TreeNode>, i: int, index: int, ino: int, x: u64)
    requires
        forest_chained(s, i, index, ino),
        0 <= i <= s.len(),
    ensures
        forest_has(s, i, x) <==> ino <= x < ino + forest_count(s, i),
    decreases s, s.len() - i, 1int,
{
    if i < s.len() {
        lemma_node_bounds(s[i]);
        lemma_node_interval(s[i], x);
        lemma_forest_interval(s, i + 1, index + node_count(s[i]), ino + node_count(s[i]), x);
    }
}

/// The first position at or after `i` whose record no longer has a path
/// component at position `depth` (i.e. leaves the subtree listed at that
/// depth), or the stream's end.
pub open spec fn run_end(records: Seq<SigRecord>, depth: nat, i: int) -> int
    decreases records.len() - i,
{
    if 0 <= i < records.len() && records[i].path@.len() > depth {
        run_end(records, depth, i + 1)
    } else {
        i
    }
}

/// How a node mirrors the signature stream it was built from, at the path
/// depth of its own record's terminal component: the node's record exists
/// and reaches this depth, and the node's children fill exactly the maximal
/// following run of records that still have a component at this depth.
pub open spec fn node_models(n: TreeNode, depth: nat, records: Seq<SigRecord>) -> bool
    decreases n, 0int,
{
    &&& n.index < records.len()
    &&& records[n.index as int].path@.len() >= depth
    &&& n.index + node_count(n) == run_end(records, depth, n.index + 1)
    &&& forest_models(n.children@, 0, (depth + 1) as nat, records)
}

/// All siblings of `s[i..]` model the stream at depth `depth`.
pub open spec fn forest_models(s: Seq<TreeNode>, i: int, depth: nat, records: Seq<SigRecord>) -> bool
    decreases s, s.len() - i, 1int,
{
    if 0 <= i < s.len() {
        node_models(s[i], depth, records) && forest_models(s, i + 1, depth, records)
    } else {
        true
    }
}

/// `run_end` stays between its start position and the stream's end.
pub proof fn lemma_run_end_bounds(records: Seq<SigRecord>, depth: nat, i: int)
    requires
        0 <= i <= records.len(),
    ensures
        i <= run_end(records, depth, i) <= records.len(),
    decreases records.len() - i,
{
    if i < records.len() && records[i].path@.len() > depth {
        lemma_run_end_bounds(records, depth, i + 1);
    }
}

/// Skipping records that still have a component at `depth` does not move
/// the end of the run.
pub proof fn lemma_run_end_skip(records: Seq<SigRecord>, depth: nat, i: int, j: int)
    requires
        0 <= i <= j <= records.len(),
        forall|k: int| i <= k < j ==> (#[trigger] records[k].path@).len() > depth,
    ensures
        run_end(records, depth, i) == run_end(records, depth, j),
    decreases j - i,
{
    if i < j {
        lemma_run_end_skip(records, depth, i + 1, j);
    }
}

/// Appending a node that continues the numbering keeps a forest chained.
pub proof fn lemma_chained_push(s: Seq<TreeNode>, i: int, index: int, ino: int, c: TreeNode)
    requires
        forest_chained(s, i, index, ino),
        0 <= i <= s.len(),
        node_wf(c),
        c.index == index + forest_count(s, i),
        c.ino == ino + forest_count(s, i),
    ensures
        forest_chained(s.push(c), i, index, ino),
        forest_count(s.push(c), i) == forest_count(s, i) + node_count(c),
    decreases s.len() - i,
{
    if i < s.len() {
        assert(s.push(c)[i] == s[i]);
        lemma_chained_push(s, i + 1, index + node_count(s[i]), ino + node_count(s[i]), c);
    } else {
        assert(s.push(c)[i] == c);
        assert(forest_count(s, i) == 0);
        assert(forest_count(s.push(c), i + 1) == 0);
        assert(forest_chained(s.push(c), i + 1, index + node_count(c), ino + node_count(c)));
    }
}

/// Appending a node that models the stream keeps a forest modeling it.
pub proof fn lemma_models_push(
    s: Seq<TreeNode>,
    i: int,
    depth: nat,
    records: Seq<SigRecord>,
    c: TreeNode,
)
    requires
        forest_models(s, i, depth, records),
        0 <= i <= s.len(),
        node_models(c, depth, records),
    ensures
        forest_models(s.push(c), i, depth, records),
    decreases s.len() - i,
{
    if i < s.len() {
        assert(s.push(c)[i] == s[i]);
        lemma_models_push(s, i + 1, depth, records, c);
    } else {
        assert(s.push(c)[i] == c);
        assert(forest_models(s.push(c), i + 1, depth, records));
    }
}

/// Every record inside the region a modeled subtree covers still has a
/// component at the subtree's depth.
pub proof fn lemma_node_region_depth(n: TreeNode, depth: nat, records: Seq<SigRecord>)
    requires
        node_wf(n),
        node_models(n, depth, records),
    ensures
        n.index + node_count(n) <= records.len(),
        forall|j: int|
            n.index <= j < n.index + node_count(n) ==> (#[trigger] records[j].path@).len() >= depth,
    decreases n, 0int,
{
    lemma_run_end_bounds(records, depth, n.index + 1);
    lemma_forest_region_depth(
        n.children@,
        0,
        (depth + 1) as nat,
        records,
        n.index + 1,
        n.ino + 1,
    );
    lemma_forest_bounds(n.children@, 0, n.index + 1, n.ino + 1);
}

/// Every record inside the region a modeled chained forest covers still has
/// a component at the forest's depth.
pub proof fn lemma_forest_region_depth(
    s: Seq<TreeNode>,
    i: int,
    depth: nat,
    records: Seq<SigRecord>,
    index: int,
    ino: int,
)
    requires
        forest_chained(s, i, index, ino),
        forest_models(s, i, depth, records),
        0 <= i <= s.len(),
    ensures
        index + forest_count(s, i) <= records.len() || i == s.len(),
        forall|j: int|
            index <= j < index + forest_count(s, i) ==> (#[trigger] records[j].path@).len()
                >= depth,
    decreases s, s.len() - i, 1int,
{
    if i < s.len() {
        lemma_node_region_depth(s[i], depth, records);
        lemma_forest_region_depth(
            s,
            i + 1,
            depth,
            records,
            index + node_count(s[i]),
            ino + node_count(s[i]),
        );
        if i + 1 == s.len() {
            assert(forest_count(s, i + 1) == 0);
        }
    }
}

impl TreeNode {
    /// The first and last inode of this node's subtree.
    pub fn inodes(&self) -> (r: (u64, u64))
        ensures
            r.0 == self.ino,
            r.1 == subtree_last(*self),
        decreases *self,
    {
        if self.children.len() == 0 {
            (self.ino, self.ino)
        } else {
            let (_, last) = self.children[self.children.len() - 1].inodes();
            (self.ino, last)
        }
    }

    /// Builds the node whose record sits at stream position `pos` (if the
    /// stream still has one), giving it the inode `ino`, then builds its
    /// children from the following records while they keep a path component
    /// at `path_depth`. Returns the node and the position right after its
    /// subtree's records.
    pub fn new(path_depth: usize, ino: u64, records: &Vec<SigRecord>, pos: usize) -> (r: (
        Option<TreeNode>,
        usize,
    ))
        requires
            path_depth <= pos <= records@.len(),
            ino + (records@.len() - pos) <= u64::MAX,
            pos < records@.len() ==> records@[pos as int].path@.len() >= path_depth,
        ensures
            pos == records@.len() ==> r.0 is None && r.1 == pos,
            pos < records@.len() ==> match r.0 {
                Some(node) => {
                    &&& node.index == pos
                    &&& node.ino == ino
                    &&& node_wf(node)
                    &&& node_models(node, path_depth as nat, records@)
                    &&& r.1 == pos + node_count(node)
                    &&& r.1 <= records@.len()
                },
                None => false,
            },
        decreases records@.len() - pos, 0int,
    {
        if pos >= records.len() {
            return (None, pos);
        }
        let (children, newpos) = Self::new_children(path_depth, ino + 1, records, pos + 1);
        let node = TreeNode { index: pos, ino: ino, children: children };
        (Some(node), newpos)
    }

    /// Builds the consecutive sibling subtrees whose records start at `pos`,
    /// assigning inodes from `first_ino` on, until a record without a path
    /// component at `path_depth` (or the stream's end) closes the run.
    pub fn new_children(
        path_depth: usize,
        first_ino: u64,
        records: &Vec<SigRecord>,
        pos: usize,
    ) -> (r: (Vec<TreeNode>, usize))
        requires
            path_depth < pos <= records@.len(),
            first_ino + (records@.len() - pos) <= u64::MAX,
        ensures
            pos <= r.1 <= records@.len(),
            r.1 == run_end(records@, path_depth as nat, pos as int),
            forest_chained(r.0@, 0, pos as int, first_ino as int),
            forest_models(r.0@, 0, (path_depth + 1) as nat, records@),
            forest_count(r.0@, 0) == r.1 - pos,
        decreases records@.len() - pos, 1int,
    {
        let mut result: Vec<TreeNode> = Vec::new();
        let mut ino: u64 = first_ino;
        let mut p: usize = pos;
        loop
            invariant
                path_depth < pos <= p <= records@.len(),
                ino == first_ino + (p - pos),
                first_ino + (records@.len() - pos) <= u64::MAX,
                forest_chained(result@, 0, pos as int, first_ino as int),
                forest_models(result@, 0, (path_depth + 1) as nat, records@),
                forest_count(result@, 0) == p - pos,
                run_end(records@, path_depth as nat, pos as int) == run_end(
                    records@,
                    path_depth as nat,
                    p as int,
                ),
            ensures
                p == run_end(records@, path_depth as nat, pos as int),
                pos <= p <= records@.len(),
                ino == first_ino + (p - pos),
                forest_chained(result@, 0, pos as int, first_ino as int),
                forest_models(result@, 0, (path_depth + 1) as nat, records@),
                forest_count(result@, 0) == p - pos,
            decreases records@.len() - p,
        {
            if p >= records.len() {
                proof {
                    assert(run_end(records@, path_depth as nat, p as int) == p);
                }
                break;
            }
            if records[p].path.len() <= path_depth {
                proof {
                    assert(run_end(records@, path_depth as nat, p as int) == p);
                }
                break;
            }
            let (child_opt, np) = Self::new(path_depth + 1, ino, records, p);
            let child = match child_opt {
                Some(c) => c,
                None => {
                    proof {
                        assert(false);
                    }
                    break;
                },
            };
            proof {
                lemma_node_region_depth(child, (path_depth + 1) as nat, records@);
                assert forall|k: int| p <= k < np implies (#[trigger] records@[k].path@).len()
                    > path_depth by {}
                lemma_run_end_skip(records@, path_depth as nat, p as int, np as int);
                lemma_chained_push(result@, 0, pos as int, first_ino as int, child);
                lemma_models_push(result@, 0, (path_depth + 1) as nat, records@, child);
            }
            let delta: usize = np - p;
            ino = ino + delta as u64;
            p = np;
            result.push(child);
        }
        (result, p)
    }
}

/// A per-snapshot tree of inode-numbered nodes mirroring the snapshot's
/// signature stream. The root node is a dummy standing for the snapshot
/// directory itself (whose real inode is `snapshot_ino`); only its children
/// are exposed.
pub struct SnapshotTree {
    pub root: TreeNode,
    pub snapshot_ino: u64,
}

/// How a materialised tree mirrors the signature stream it was built from.
/// An empty stream leaves the dummy root childless; otherwise the root
/// models the whole stream from position 0 at depth 0.
pub open spec fn tree_models(t: SnapshotTree, records: Seq<SigRecord>) -> bool {
    if records.len() == 0 {
        t.root.children@.len() == 0
    } else {
        node_models(t.root, 0, records)
    }
}

impl SnapshotTree {
    /// Builds the tree for one snapshot from its signature records,
    /// assigning inodes from `first_ino` on (the dummy root takes
    /// `first_ino` itself). An empty stream yields a childless dummy root.
    pub fn new(records: &Vec<SigRecord>, snapshot_ino: u64, first_ino: u64) -> (t: SnapshotTree)
        requires
            first_ino + records@.len() <= u64::MAX,
        ensures
            t.snapshot_ino == snapshot_ino,
            t.root.index == 0,
            t.root.ino == first_ino,
            node_wf(t.root),
            tree_models(t, records@),
            records@.len() == 0 ==> node_count(t.root) == 1,
            records@.len() > 0 ==> node_count(t.root) <= records@.len(),
    {
        let (opt, _newpos) = TreeNode::new(0, first_ino, records, 0);
        let root = match opt {
            Some(node) => node,
            None => TreeNode { index: 0, ino: first_ino, children: Vec::new() },
        };
        proof {
            if records@.len() == 0 {
                assert(forest_chained(root.children@, 0, 1, first_ino + 1));
                assert(forest_count(root.children@, 0) == 0);
            }
        }
        SnapshotTree { root: root, snapshot_ino: snapshot_ino }
    }

    /// The inode interval exposed by this tree: the first child's inode and
    /// the last child's last inode, or nothing for an empty snapshot.
    pub fn inodes(&self) -> (r: Option<(u64, u64)>)
        ensures
            match r {
                Some(p) => self.root.children@.len() > 0 && p.0 == self.root.children@[0].ino
                    && p.1 == subtree_last(self.root),
                None => self.root.children@.len() == 0,
            },
    {
        if self.children_len() == 0 {
            None
        } else {
            let (first, _) = self.root.children[0].inodes();
            let (_, last) = self.root.children[self.root.children.len() - 1].inodes();
            assert(subtree_last(self.root) == subtree_last(
                self.root.children@[self.root.children@.len() - 1],
            ));
            Some((first, last))
        }
    }

    /// How many top-level entries the snapshot has.
    fn children_len(&self) -> (r: usize)
        ensures
            r == self.root.children@.len(),
    {
        self.root.children.len()
    }
}

/// What descending into a subtree by inode finds: the node carrying `x`,
/// its depth, and its parent directory's inode, or nothing when `x` lies
/// outside the subtree. The descent tries the node itself, then the unique
/// child subtree whose inode interval covers `x`.
pub open spec fn node_find(n: TreeNode, x: u64, depth: nat, parent: u64) -> Option<
    (TreeNode, nat, u64),
>
    decreases n, 0int,
{
    if x == n.ino {
        Some((n, depth, parent))
    } else {
        forest_find(n.children@, 0, x, (depth + 1) as nat, n.ino)
    }
}

/// Descends into the first sibling of `s[i..]` whose inode interval covers
/// `x`.
pub open spec fn forest_find(s: Seq<TreeNode>, i: int, x: u64, depth: nat, parent: u64) -> Option<
    (TreeNode, nat, u64),
>
    decreases s, s.len() - i, 1int,
{
    if 0 <= i < s.len() {
        if s[i].ino <= x <= subtree_last(s[i]) {
            node_find(s[i], x, depth, parent)
        } else {
            forest_find(s, i + 1, x, depth, parent)
        }
    } else {
        None
    }
}

/// What looking an inode up in a materialised tree finds. The dummy root
/// stands for the snapshot directory, so it answers both for its own inode
/// and for the snapshot directory's, and entries right below it have the
/// snapshot directory's inode as their parent.
pub open spec fn tree_find(t: SnapshotTree, x: u64) -> Option<(TreeNode, nat, u64)> {
    if x == t.root.ino || x == t.snapshot_ino {
        Some((t.root, 0, t.snapshot_ino))
    } else {
        forest_find(t.root.children@, 0, x, 1, t.snapshot_ino)
    }
}

/// Every sibling's subtree is at most as large as the whole forest.
pub proof fn lemma_forest_count_member(s: Seq<TreeNode>, i: int, j: int)
    requires
        0 <= i <= j < s.len(),
    ensures
        node_count(s[j]) <= forest_count(s, i),
    decreases j - i,
{
    if i < j {
        lemma_forest_count_member(s, i + 1, j);
    }
}

/// Siblings whose intervals miss `x` do not change what the descent finds.
pub proof fn lemma_forest_find_skip(
    s: Seq<TreeNode>,
    i: int,
    k: int,
    x: u64,
    depth: nat,
    parent: u64,
)
    requires
        0 <= i <= k <= s.len(),
        forall|j: int| i <= j < k ==> !((#[trigger] s[j]).ino <= x <= subtree_last(s[j])),
    ensures
        forest_find(s, i, x, depth, parent) == forest_find(s, k, x, depth, parent),
    decreases k - i,
{
    if i < k {
        lemma_forest_find_skip(s, i + 1, k, x, depth, parent);
    }
}

/// What the descent guarantees about a well-formed subtree: it finds a node
/// exactly when the inode lies in the subtree; the found node carries that
/// inode, is well-formed, keeps the subtree's fixed difference between
/// stream index and inode, lies at a depth less than the subtree's size
/// below the start, and models the stream at its own depth whenever the
/// subtree does.
pub proof fn lemma_node_find(n: TreeNode, x: u64, depth: nat, parent: u64)
    requires
        node_wf(n),
    ensures
        match node_find(n, x, depth, parent) {
            Some(f) => {
                &&& in_subtree(n, x)
                &&& f.0.ino == x
                &&& node_wf(f.0)
                &&& f.0.index - f.0.ino == n.index - n.ino
                &&& node_count(f.0) <= node_count(n)
                &&& depth <= f.1 < depth + node_count(n)
                &&& forall|records: Seq<SigRecord>|
                    #[trigger] node_models(n, depth, records) ==> node_models(f.0, f.1, records)
            },
            None => !in_subtree(n, x),
        },
    decreases n, 0int,
{
    lemma_node_bounds(n);
    if x == n.ino {
    } else {
        lemma_forest_find(n.children@, 0, n.index + 1, n.ino + 1, x, (depth + 1) as nat, n.ino);
        lemma_forest_bounds(n.children@, 0, n.index + 1, n.ino + 1);
        match node_find(n, x, depth, parent) {
            Some(f) => {
                assert forall|records: Seq<SigRecord>|
                    #[trigger] node_models(n, depth, records) implies node_models(
                    f.0,
                    f.1,
                    records,
                ) by {
                    assert(forest_models(n.children@, 0, (depth + 1) as nat, records));
                }
            },
            None => {},
        }
    }
}

/// The forest version of `lemma_node_find`.
pub proof fn lemma_forest_find(
    s: Seq<TreeNode>,
    i: int,
    index: int,
    ino: int,
    x: u64,
    depth: nat,
    parent: u64,
)
    requires
        forest_chained(s, i, index, ino),
        0 <= i <= s.len(),
    ensures
        match forest_find(s, i, x, depth, parent) {
            Some(f) => {
                &&& forest_has(s, i, x)
                &&& f.0.ino == x
                &&& node_wf(f.0)
                &&& f.0.index - f.0.ino == index - ino
                &&& node_count(f.0) <= forest_count(s, i)
                &&& depth <= f.1 < depth + forest_count(s, i)
                &&& forall|records: Seq<SigRecord>|
                    #[trigger] forest_models(s, i, depth, records) ==> node_models(
                        f.0,
                        f.1,
                        records,
                    )
            },
            None => !forest_has(s, i, x),
        },
    decreases s, s.len() - i, 1int,
{
    if i < s.len() {
        lemma_node_bounds(s[i]);
        if s[i].ino <= x <= subtree_last(s[i]) {
            lemma_node_find(s[i], x, depth, parent);
            lemma_node_interval(s[i], x);
            match node_find(s[i], x, depth, parent) {
                Some(f) => {
                    assert forall|records: Seq<SigRecord>|
                        #[trigger] forest_models(s, i, depth, records) implies node_models(
                        f.0,
                        f.1,
                        records,
                    ) by {
                        assert(node_models(s[i], depth, records));
                    }
                },
                None => {},
            }
        } else {
            lemma_node_interval(s[i], x);
            lemma_forest_find(
                s,
                i + 1,
                index + node_count(s[i]),
                ino + node_count(s[i]),
                x,
                depth,
                parent,
            );
            match forest_find(s, i + 1, x, depth, parent) {
                Some(f) => {
                    assert forall|records: Seq<SigRecord>|
                        #[trigger] forest_models(s, i, depth, records) implies node_models(
                        f.0,
                        f.1,
                        records,
                    ) by {
                        assert(forest_models(s, i + 1, depth, records));
                    }
                },
                None => {},
            }
        }
    }
}

/// An entry of a materialised tree found by inode: the node, its depth (the
/// dummy root sits at depth 0), and its parent directory's inode.
pub struct NodeEntry<'a> {
    pub node: &'a TreeNode,
    pub depth: usize,
    pub parent: u64,
}

impl<'a> NodeEntry<'a> {
    /// The inode of the found entry.
    pub fn ino(&self) -> (r: u64)
        ensures
            r == self.node.ino,
    {
        self.node.ino
    }
}

/// Binary search among chained siblings for the one whose inode interval
/// covers `x`, descending into it.
fn find_forest<'a>(
    s: &'a Vec<TreeNode>,
    x: u64,
    depth: usize,
    parent: u64,
    Ghost(index): Ghost<int>,
    Ghost(ino): Ghost<int>,
) -> (r: Option<NodeEntry<'a>>)
    requires
        forest_chained(s@, 0, index, ino),
        depth + forest_count(s@, 0) <= usize::MAX,
    ensures
        match r {
            Some(e) => forest_find(s@, 0, x, depth as nat, parent) == Some(
                (*e.node, e.depth as nat, e.parent),
            ),
            None => forest_find(s@, 0, x, depth as nat, parent) is None,
        },
    decreases s@, 1int,
{
    proof {
        lemma_chained_facts(s@, 0, index, ino);
    }
    let mut lo: usize = 0;
    let mut hi: usize = s.len();
    while lo < hi
        invariant
            0 <= lo <= hi <= s@.len(),
            forest_chained(s@, 0, index, ino),
            depth + forest_count(s@, 0) <= usize::MAX,
            forall|j: int| 0 <= j < lo ==> subtree_last(#[trigger] s@[j]) < x,
            forall|j: int| hi <= j < s@.len() ==> x < (#[trigger] s@[j]).ino,
        decreases hi - lo,
    {
        let mid: usize = lo + (hi - lo) / 2;
        let (first, last) = s[mid].inodes();
        proof {
            lemma_chained_facts(s@, 0, index, ino);
        }
        if x < first {
            hi = mid;
            proof {
                assert forall|j: int| hi <= j < s@.len() implies x < (#[trigger] s@[j]).ino by {
                    lemma_node_bounds(s@[mid as int]);
                }
            }
        } else if x > last {
            lo = mid + 1;
            proof {
                assert forall|j: int| 0 <= j < lo implies subtree_last(#[trigger] s@[j]) < x by {
                    lemma_node_bounds(s@[j]);
                    if j < mid {
                        assert(subtree_last(s@[j]) < s@[mid as int].ino);
                    }
                }
            }
        } else {
            proof {
                lemma_forest_find_skip(s@, 0, mid as int, x, depth as nat, parent);
                lemma_forest_count_member(s@, 0, mid as int);
            }
            return find_rec(&s[mid], x, depth, parent);
        }
    }
    proof {
        assert forall|j: int| 0 <= j < s@.len() implies !((#[trigger] s@[j]).ino <= x
            <= subtree_last(s@[j])) by {}
        lemma_forest_find_skip(s@, 0, s@.len() as int, x, depth as nat, parent);
    }
    None
}

/// Recursive descent for `find_node`: the node itself, or the unique child
/// subtree covering `x`.
fn find_rec<'a>(n: &'a TreeNode, x: u64, depth: usize, parent: u64) -> (r: Option<NodeEntry<'a>>)
    requires
        node_wf(*n),
        depth + node_count(*n) <= usize::MAX,
    ensures
        match r {
            Some(e) => node_find(*n, x, depth as nat, parent) == Some(
                (*e.node, e.depth as nat, e.parent),
            ),
            None => node_find(*n, x, depth as nat, parent) is None,
        },
    decreases *n, 0int,
{
    if n.ino == x {
        return Some(NodeEntry { node: n, depth: depth, parent: parent });
    }
    find_forest(&n.children, x, depth + 1, n.ino, Ghost(n.index + 1), Ghost(n.ino + 1))
}

impl SnapshotTree {
    /// Finds the tree node carrying an inode, by binary-searching child
    /// inode intervals at each level. Finds one exactly when the inode lies
    /// in the dummy root's subtree; the entry it returns carries that very
    /// inode, sits at the depth the descent reached, knows its parent
    /// directory's inode, and models the signature stream at its depth
    /// whenever the whole tree does.
    pub fn find_node(&self, x: u64) -> (r: Option<NodeEntry<'_>>)
        requires
            node_wf(self.root),
            node_count(self.root) <= usize::MAX,
        ensures
            match r {
                Some(e) => {
                    &&& tree_find(*self, x) == Some((*e.node, e.depth as nat, e.parent))
                    &&& node_wf(*e.node)
                    &&& e.node.index - e.node.ino == self.root.index - self.root.ino
                    &&& node_count(*e.node) <= node_count(self.root)
                    &&& e.depth < node_count(self.root)
                    &&& x != self.snapshot_ino ==> e.node.ino == x && in_subtree(self.root, x)
                    &&& x == self.snapshot_ino ==> *e.node == self.root && e.depth == 0
                    &&& forall|records: Seq<SigRecord>|
                        #[trigger] node_models(self.root, 0, records) ==> node_models(
                            *e.node,
                            e.depth as nat,
                            records,
                        )
                },
                None => tree_find(*self, x) is None && !in_subtree(self.root, x) && x
                    != self.snapshot_ino,
            },
    {
        proof {
            lemma_node_bounds(self.root);
            lemma_node_find(self.root, x, 0, self.snapshot_ino);
        }
        if self.root.ino == x || self.snapshot_ino == x {
            proof {
                lemma_node_bounds(self.root);
            }
            return Some(NodeEntry { node: &self.root, depth: 0, parent: self.snapshot_ino });
        }
        let r = find_forest(
            &self.root.children,
            x,
            1,
            self.snapshot_ino,
            Ghost(self.root.index + 1),
            Ghost(self.root.ino + 1),
        );
        let ghost gr = r;
        proof {
            lemma_forest_find(
                self.root.children@,
                0,
                self.root.index + 1,
                self.root.ino + 1,
                x,
                1,
                self.snapshot_ino,
            );
            match gr {
                Some(e) => {
                    assert forall|records: Seq<SigRecord>|
                        #[trigger] node_models(self.root, 0, records) implies node_models(
                        *e.node,
                        e.depth as nat,
                        records,
                    ) by {
                        assert(forest_models(self.root.children@, 0, 1, records));
                    }
                },
                None => {},
            }
        }
        r
    }
}

/// One entry of a directory listed from a tree: the entry's inode, the
/// stream position of its record, and the depth at which its single path
/// component sits.
#[derive(Clone, Copy, PartialEq, Eq, Structural, Debug)]
pub struct PathEntry {
    pub ino: u64,
    pub index: usize,
    pub depth: usize,
}

impl PathEntry {
    /// The single path component of this entry at the listed depth, or
    /// nothing when the component is not a plain name or the record is
    /// missing from the stream.
    pub fn path<'r>(&self, records: &'r Vec<SigRecord>) -> (r: Option<&'r String>)
        ensures
            match r {
                Some(s) => self.index < records@.len() && (self.depth as nat)
                    < records@[self.index as int].path@.len() && records@[self.index as int].path@[self.depth as int]
                    == crate::record::PathComp::Normal(*s),
                None => !(self.index < records@.len() && (self.depth as nat)
                    < records@[self.index as int].path@.len()
                    && records@[self.index as int].path@[self.depth as int] is Normal),
            },
    {
        if self.index < records.len() {
            let rec = &records[self.index];
            if self.depth < rec.path.len() {
                match &rec.path[self.depth] {
                    crate::record::PathComp::Normal(s) => Some(s),
                    crate::record::PathComp::Special => None,
                }
            } else {
                None
            }
        } else {
            None
        }
    }

    /// The signature record backing this entry, recovered from the
    /// snapshot's record list by the stored stream position.
    pub fn as_signature<'r>(&self, records: &'r Vec<SigRecord>) -> (r: Option<&'r SigRecord>)
        ensures
            match r {
                Some(rec) => self.index < records@.len() && *rec == records@[self.index as int],
                None => self.index >= records@.len(),
            },
    {
        if self.index < records.len() {
            Some(&records[self.index])
        } else {
            None
        }
    }
}

/// Hands out one `PathEntry` per node of a child list, listed at `depth`.
fn children_entries(children: &Vec<TreeNode>, depth: usize) -> (r: Vec<PathEntry>)
    ensures
        r@.len() == children@.len(),
        forall|j: int|
            0 <= j < r@.len() ==> (#[trigger] r@[j]) == (PathEntry {
                ino: children@[j].ino,
                index: children@[j].index,
                depth: depth,
            }),
{
    let mut r: Vec<PathEntry> = Vec::new();
    let mut j: usize = 0;
    while j < children.len()
        invariant
            j <= children@.len(),
            r@.len() == j,
            forall|k: int|
                0 <= k < j ==> (#[trigger] r@[k]) == (PathEntry {
                    ino: children@[k].ino,
                    index: children@[k].index,
                    depth: depth,
                }),
        decreases children@.len() - j,
    {
        let c = &children[j];
        r.push(PathEntry { ino: c.ino, index: c.index, depth: depth });
        j = j + 1;
    }
    r
}

impl SnapshotTree {
    /// Hands out the snapshot's top-level entries, in stream order; their
    /// single path components sit at depth 0.
    pub fn children(&self) -> (r: Vec<PathEntry>)
        ensures
            r@.len() == self.root.children@.len(),
            forall|j: int|
                0 <= j < r@.len() ==> (#[trigger] r@[j]) == (PathEntry {
                    ino: self.root.children@[j].ino,
                    index: self.root.children@[j].index,
                    depth: 0,
                }),
    {
        children_entries(&self.root.children, 0)
    }
}

impl<'a> NodeEntry<'a> {
    /// Hands out the found directory's entries, in stream order; their
    /// single path components sit at the directory's depth.
    pub fn children(&self) -> (r: Vec<PathEntry>)
        ensures
            r@.len() == self.node.children@.len(),
            forall|j: int|
                0 <= j < r@.len() ==> (#[trigger] r@[j]) == (PathEntry {
                    ino: self.node.children@[j].ino,
                    index: self.node.children@[j].index,
                    depth: self.depth,
                }),
    {
        children_entries(&self.node.children, self.depth)
    }

    /// The inode of the found entry's parent directory.
    pub fn parent(&self) -> (r: u64)
        ensures
            r == self.parent,
    {
        self.parent
    }
}

/// In a snapshot stream where every record after the root's carries at
/// least one path component — the shape a well-formed backup guarantees —
/// the materialised tree holds exactly one node per signature record: one
/// less than the record count once the dummy root is left out.
pub proof fn lemma_tree_covers_all_records(t: SnapshotTree, records: Seq<SigRecord>)
    requires
        node_wf(t.root),
        t.root.index == 0,
        tree_models(t, records),
        records.len() > 0,
        forall|j: int| 1 <= j < records.len() ==> (#[trigger] records[j].path@).len() >= 1,
    ensures
        node_count(t.root) == records.len(),
        forest_count(t.root.children@, 0) == records.len() - 1,
{
    lemma_run_end_skip(records, 0, 1, records.len() as int);
    assert(run_end(records, 0, records.len() as int) == records.len());
}

} // verus!
