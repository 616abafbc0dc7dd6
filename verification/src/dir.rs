use vstd::prelude::*;

use crate::record::{spec_kind_of, FileKind, PathComp, SigRecord};
use crate::tree::TreeNode;

verus! {

/// The mathematical shape of one directory-listing entry.
pub ghost struct DirEntrySpec {
    pub ino: u64,
    pub offset: u64,
    pub kind: FileKind,
    pub name: Seq<char>,
}

/// One entry of a `readdir` reply: the entry's inode, the cookie to resume
/// after it, its kind, and its name.
#[derive(Clone, PartialEq, Eq, Debug)]
pub struct DirEntryData {
    pub ino: u64,
    pub offset: u64,
    pub kind: FileKind,
    pub name: String,
}

impl View for DirEntryData {
    type V = DirEntrySpec;

    open spec fn view(&self) -> DirEntrySpec {
        DirEntrySpec { ino: self.ino, offset: self.offset, kind: self.kind, name: self.name@ }
    }
}

/// The entries of a reply, viewed mathematically.
pub open spec fn dir_view(s: Seq<DirEntryData>) -> Seq<DirEntrySpec> {
    s.map_values(|e: DirEntryData| e@)
}

/// A listing's `.` or `..` line.
pub open spec fn dot_entry(ino: u64, offset: u64, name: Seq<char>) -> DirEntrySpec {
    DirEntrySpec { ino: ino, offset: offset, kind: FileKind::Directory, name: name }
}

/// The listing line of the child at position `j`, carrying cookie `j + 2`,
/// or nothing when the child's record misses or its path component at
/// `depth` is not a plain name.
pub open spec fn child_entry(c: TreeNode, j: int, depth: nat, records: Seq<SigRecord>) -> Option<
    DirEntrySpec,
> {
    if c.index < records.len() && depth < records[c.index as int].path@.len() {
        match records[c.index as int].path@[depth as int] {
            PathComp::Normal(s) => Some(
                DirEntrySpec {
                    ino: c.ino,
                    offset: (j + 2) as u64,
                    kind: spec_kind_of(records[c.index as int].etype),
                    name: s@,
                },
            ),
            PathComp::Special => None,
        }
    } else {
        None
    }
}

/// The listing lines of the children `s[j..]` of a directory node, in tree
/// order, skipping children without a plain name at `depth`.
pub open spec fn children_listing(
    s: Seq<TreeNode>,
    depth: nat,
    records: Seq<SigRecord>,
    j: int,
) -> Seq<DirEntrySpec>
    decreases s.len() - j,
{
    if 0 <= j < s.len() {
        (match child_entry(s[j], j, depth, records) {
            Some(e) => seq![e],
            None => Seq::empty(),
        }) + children_listing(s, depth, records, j + 1)
    } else {
        Seq::empty()
    }
}

/// The listing lines of the snapshot directories `names[k..]` under the
/// mount root: snapshot `k` has inode and cookie `k + 2`.
pub open spec fn snapshots_listing(names: Seq<String>, k: int) -> Seq<DirEntrySpec>
    decreases names.len() - k,
{
    if 0 <= k < names.len() {
        seq![
            DirEntrySpec {
                ino: (k + 2) as u64,
                offset: (k + 2) as u64,
                kind: FileKind::Directory,
                name: names[k]@,
            },
        ] + snapshots_listing(names, k + 1)
    } else {
        Seq::empty()
    }
}

/// What a directory listing serves from cookie `c` on: `0` means the whole
/// listing starting at `.` and `..`; cookie `c >= 1` resumes right after
/// the line that carried `c` (`.` is 0, `..` is 1, child `j` is `j + 2`).
pub open spec fn dir_suffix(
    dot: DirEntrySpec,
    dotdot: DirEntrySpec,
    s: Seq<TreeNode>,
    depth: nat,
    records: Seq<SigRecord>,
    c: u64,
) -> Seq<DirEntrySpec> {
    if c == 0 {
        seq![dot, dotdot] + children_listing(s, depth, records, 0)
    } else {
        children_listing(s, depth, records, c - 1)
    }
}

/// What the mount root's listing serves from cookie `c` on.
pub open spec fn root_suffix(names: Seq<String>, c: u64) -> Seq<DirEntrySpec> {
    if c == 0 {
        seq![dot_entry(1, 0, "."@), dot_entry(1, 1, ".."@)] + snapshots_listing(names, 0)
    } else {
        snapshots_listing(names, c - 1)
    }
}

/// One page of a listing: the longest prefix that fits `cap` entries.
pub open spec fn page_of(l: Seq<DirEntrySpec>, cap: nat) -> Seq<DirEntrySpec> {
    if cap < l.len() {
        l.take(cap as int)
    } else {
        l
    }
}

/// Serving a page with room for the whole listing serves all of it.
pub proof fn lemma_page_complete(l: Seq<DirEntrySpec>, cap: nat)
    requires
        cap >= l.len(),
    ensures
        page_of(l, cap) == l,
{
}

/// Viewing a reply commutes with appending one entry.
pub proof fn lemma_dir_view_push(s: Seq<DirEntryData>, e: DirEntryData)
    ensures
        dir_view(s.push(e)) == dir_view(s).push(e@),
{
    assert(dir_view(s.push(e)) =~= dir_view(s).push(e@));
}

/// Children listings carry cookies at or above `j + 2`, and resuming at the
/// cookie of the listing's `k`-th line serves exactly the lines after it.
pub proof fn lemma_listing_resume(
    s: Seq<TreeNode>,
    depth: nat,
    records: Seq<SigRecord>,
    j: int,
    k: int,
)
    requires
        0 <= j,
        s.len() + 2 <= u64::MAX,
        0 <= k < children_listing(s, depth, records, j).len(),
    ensures
        children_listing(s, depth, records, j)[k].offset >= j + 2,
        children_listing(s, depth, records, j)[k].offset <= s.len() + 1,
        children_listing(
            s,
            depth,
            records,
            children_listing(s, depth, records, j)[k].offset - 1,
        ) == children_listing(s, depth, records, j).skip(k + 1),
    decreases s.len() - j,
{
    let l = children_listing(s, depth, records, j);
    let rest = children_listing(s, depth, records, j + 1);
    match child_entry(s[j], j, depth, records) {
        Some(e) => {
            assert(l == seq![e] + rest);
            if k == 0 {
                assert(l[0] == e);
                assert(e.offset == j + 2);
                assert(l.skip(1) =~= rest);
            } else {
                lemma_listing_resume(s, depth, records, j + 1, k - 1);
                assert(l[k] == rest[k - 1]);
                assert(l.skip(k + 1) =~= rest.skip(k));
            }
        },
        None => {
            assert(l == Seq::<DirEntrySpec>::empty() + rest);
            assert(l =~= rest);
            lemma_listing_resume(s, depth, records, j + 1, k);
            assert(l.skip(k + 1) =~= rest.skip(k + 1));
        },
    }
}

/// The snapshot listing under the mount root carries cookies at or above
/// `k + 2`, and resuming at the cookie of its `m`-th line serves exactly
/// the lines after it.
pub proof fn lemma_snapshots_resume(names: Seq<String>, k: int, m: int)
    requires
        0 <= k,
        names.len() + 2 <= u64::MAX,
        0 <= m < snapshots_listing(names, k).len(),
    ensures
        snapshots_listing(names, k)[m].offset == k + m + 2,
        snapshots_listing(names, snapshots_listing(names, k)[m].offset - 1) == snapshots_listing(
            names,
            k,
        ).skip(m + 1),
    decreases names.len() - k,
{
    let l = snapshots_listing(names, k);
    let rest = snapshots_listing(names, k + 1);
    if m == 0 {
        assert(l.skip(1) =~= rest);
    } else {
        lemma_snapshots_resume(names, k + 1, m - 1);
        assert(l[m] == rest[m - 1]);
        assert(l.skip(m + 1) =~= rest.skip(m));
    }
}

/// When every child of a directory carries a plain name at its depth — the
/// shape a well-formed backup guarantees — the directory's listing holds
/// exactly one line per child, in tree order.
pub proof fn lemma_listing_all_children(
    s: Seq<TreeNode>,
    depth: nat,
    records: Seq<SigRecord>,
    j: int,
)
    requires
        0 <= j <= s.len(),
        forall|k: int| j <= k < s.len() ==> child_entry(#[trigger] s[k], k, depth, records) is Some,
    ensures
        children_listing(s, depth, records, j).len() == s.len() - j,
        forall|k: int|
            j <= k < s.len() ==> children_listing(s, depth, records, j)[k - j] == child_entry(
                #[trigger] s[k],
                k,
                depth,
                records,
            )->Some_0,
    decreases s.len() - j,
{
    if j < s.len() {
        lemma_listing_all_children(s, depth, records, j + 1);
    }
}

/// A directory page ending at cookie `c'` resumes exactly where it left
/// off: the suffix served for `c'` is the rest of the suffix served for the
/// cookie the page itself started from. Together with
/// `lemma_page_complete` this makes paging through a directory serve every
/// line exactly once, in order.
pub proof fn lemma_dir_page_resume(
    dot: DirEntrySpec,
    dotdot: DirEntrySpec,
    s: Seq<TreeNode>,
    depth: nat,
    records: Seq<SigRecord>,
    c: u64,
    cap: nat,
)
    requires
        dot.offset == 0,
        dotdot.offset == 1,
        s.len() + 2 <= u64::MAX,
        page_of(dir_suffix(dot, dotdot, s, depth, records, c), cap).len() > 0,
        c == 0 ==> cap >= 2,
    ensures
        ({
            let page = page_of(dir_suffix(dot, dotdot, s, depth, records, c), cap);
            dir_suffix(dot, dotdot, s, depth, records, page.last().offset) == dir_suffix(
                dot,
                dotdot,
                s,
                depth,
                records,
                c,
            ).skip(page.len() as int)
        }),
{
    let suf = dir_suffix(dot, dotdot, s, depth, records, c);
    let page = page_of(suf, cap);
    let m = page.len() as int;
    assert(page == suf.take(m));
    assert(page.last() == suf[m - 1]);
    if c == 0 {
        let l0 = children_listing(s, depth, records, 0);
        assert(suf == seq![dot, dotdot] + l0);
        if m == 2 {
            assert(suf[1] == dotdot);
            assert(dir_suffix(dot, dotdot, s, depth, records, 1) == l0);
            assert(suf.skip(2) =~= l0);
        } else {
            assert(m > 2);
            assert(suf[m - 1] == l0[m - 3]);
            lemma_listing_resume(s, depth, records, 0, m - 3);
            assert(suf.skip(m) =~= l0.skip(m - 2));
            assert(suf[m - 1].offset >= 2);
        }
    } else {
        let j = c - 1;
        assert(suf == children_listing(s, depth, records, j as int));
        lemma_listing_resume(s, depth, records, j as int, m - 1);
        assert(suf[m - 1].offset >= 2);
    }
}

/// The mount root's analogue of `lemma_dir_page_resume`.
pub proof fn lemma_root_page_resume(names: Seq<String>, c: u64, cap: nat)
    requires
        names.len() + 2 <= u64::MAX,
        page_of(root_suffix(names, c), cap).len() > 0,
        c == 0 ==> cap >= 2,
    ensures
        ({
            let page = page_of(root_suffix(names, c), cap);
            root_suffix(names, page.last().offset) == root_suffix(names, c).skip(page.len() as int)
        }),
{
    let suf = root_suffix(names, c);
    let page = page_of(suf, cap);
    let m = page.len() as int;
    assert(page == suf.take(m));
    assert(page.last() == suf[m - 1]);
    if c == 0 {
        let l0 = snapshots_listing(names, 0);
        assert(suf == seq![dot_entry(1, 0, "."@), dot_entry(1, 1, ".."@)] + l0);
        if m == 2 {
            assert(suf[1].offset == 1);
            assert(root_suffix(names, 1) == l0);
            assert(suf.skip(2) =~= l0);
        } else {
            assert(m > 2);
            assert(suf[m - 1] == l0[m - 3]);
            lemma_snapshots_resume(names, 0, m - 3);
            assert(suf.skip(m) =~= l0.skip(m - 2));
            assert(suf[m - 1].offset >= 2);
        }
    } else {
        let j = c - 1;
        assert(suf == snapshots_listing(names, j as int));
        lemma_snapshots_resume(names, j as int, m - 1);
        assert(suf[m - 1].offset >= 2);
    }
}

/// Appends to `out`, up to a total of `cap` entries, the listing lines of
/// the children `children[start..]` of a directory node.
pub(crate) fn push_children(
    out: &mut Vec<DirEntryData>,
    children: &Vec<TreeNode>,
    depth: usize,
    records: &Vec<SigRecord>,
    start: usize,
    cap: usize,
)
    requires
        old(out)@.len() <= cap,
        children@.len() + 2 <= u64::MAX,
    ensures
        final(out)@.len() <= cap,
        dir_view(final(out)@) == dir_view(old(out)@) + page_of(
            children_listing(children@, depth as nat, records@, start as int),
            (cap - old(out)@.len()) as nat,
        ),
{
    let ghost room = (cap - old(out)@.len()) as nat;
    let ghost l = children_listing(children@, depth as nat, records@, start as int);
    let ghost mut collected: Seq<DirEntrySpec> = Seq::empty();
    proof {
        assert(l =~= collected + l);
    }
    let mut j: usize = start;
    while j < children.len() && out.len() < cap
        invariant
            start <= j,
            j <= children@.len() || j == start,
            old(out)@.len() <= out@.len() <= cap,
            children@.len() + 2 <= u64::MAX,
            room == (cap - old(out)@.len()) as nat,
            l == children_listing(children@, depth as nat, records@, start as int),
            dir_view(out@) == dir_view(old(out)@) + collected,
            collected.len() == out@.len() - old(out)@.len(),
            l == collected + children_listing(children@, depth as nat, records@, j as int),
        decreases children@.len() - j,
    {
        let c = &children[j];
        if c.index < records.len() {
            let rec = &records[c.index];
            if depth < rec.path.len() {
                match &rec.path[depth] {
                    PathComp::Normal(nm) => {
                        let e = DirEntryData {
                            ino: c.ino,
                            offset: j as u64 + 2,
                            kind: crate::record::from_entry_type(rec.etype),
                            name: nm.clone(),
                        };
                        proof {
                            lemma_dir_view_push(out@, e);
                            assert(child_entry(
                                children@[j as int],
                                j as int,
                                depth as nat,
                                records@,
                            ) == Some(e@));
                        }
                        out.push(e);
                        proof {
                            assert(dir_view(out@) =~= dir_view(old(out)@) + collected.push(e@));
                            collected = collected.push(e@);
                        }
                    },
                    PathComp::Special => {},
                }
            }
        }
        proof {
            let jj = j as int;
            let rest = children_listing(children@, depth as nat, records@, jj + 1);
            match child_entry(children@[jj], jj, depth as nat, records@) {
                Some(e) => {
                    assert(children_listing(children@, depth as nat, records@, jj) == seq![e]
                        + rest);
                    assert(collected + rest =~= (collected.drop_last() + seq![e]) + rest);
                    assert(l =~= collected + rest);
                },
                None => {
                    assert(children_listing(children@, depth as nat, records@, jj)
                        =~= Seq::<DirEntrySpec>::empty() + rest);
                    assert(l =~= collected + rest);
                },
            }
        }
        j = j + 1;
    }
    proof {
        let ghost tail = children_listing(children@, depth as nat, records@, j as int);
        if out@.len() == cap {
            assert(collected.len() == room);
            assert(page_of(l, room) =~= collected);
        } else {
            assert(j >= children@.len());
            assert(tail =~= Seq::<DirEntrySpec>::empty());
            assert(l =~= collected);
            assert(page_of(l, room) =~= collected);
        }
    }
}

/// Appends to `out`, up to a total of `cap` entries, the listing lines of
/// the snapshot directories `names[start..]` under the mount root.
pub(crate) fn push_snapshots(
    out: &mut Vec<DirEntryData>,
    names: &Vec<String>,
    start: usize,
    cap: usize,
)
    requires
        old(out)@.len() <= cap,
        names@.len() + 2 <= u64::MAX,
    ensures
        final(out)@.len() <= cap,
        dir_view(final(out)@) == dir_view(old(out)@) + page_of(
            snapshots_listing(names@, start as int),
            (cap - old(out)@.len()) as nat,
        ),
{
    let ghost room = (cap - old(out)@.len()) as nat;
    let ghost l = snapshots_listing(names@, start as int);
    let ghost mut collected: Seq<DirEntrySpec> = Seq::empty();
    proof {
        assert(l =~= collected + l);
    }
    let mut k: usize = start;
    while k < names.len() && out.len() < cap
        invariant
            start <= k,
            k <= names@.len() || k == start,
            old(out)@.len() <= out@.len() <= cap,
            names@.len() + 2 <= u64::MAX,
            room == (cap - old(out)@.len()) as nat,
            l == snapshots_listing(names@, start as int),
            dir_view(out@) == dir_view(old(out)@) + collected,
            collected.len() == out@.len() - old(out)@.len(),
            l == collected + snapshots_listing(names@, k as int),
        decreases names@.len() - k,
    {
        let e = DirEntryData {
            ino: k as u64 + 2,
            offset: k as u64 + 2,
            kind: FileKind::Directory,
            name: names[k].clone(),
        };
        proof {
            lemma_dir_view_push(out@, e);
        }
        out.push(e);
        proof {
            assert(dir_view(out@) =~= dir_view(old(out)@) + collected.push(e@));
            collected = collected.push(e@);
            let kk = k as int;
            let rest = snapshots_listing(names@, kk + 1);
            assert(snapshots_listing(names@, kk) == seq![e@] + rest);
            assert(l =~= collected + rest);
        }
        k = k + 1;
    }
    proof {
        let ghost tail = snapshots_listing(names@, k as int);
        if out@.len() == cap {
            assert(collected.len() == room);
            assert(page_of(l, room) =~= collected);
        } else {
            assert(k >= names@.len());
            assert(tail =~= Seq::<DirEntrySpec>::empty());
            assert(l =~= collected);
            assert(page_of(l, room) =~= collected);
        }
    }
}

} // verus!
