use vstd::prelude::*;

use crate::record::Stamp;

verus! {

/// The sid that belongs to a snapshot-directory inode.
pub open spec fn spec_sid_from_ino(ino: int) -> int {
    ino - 2
}

/// The inode assigned to a snapshot directory: sids map onto the inode
/// block starting right after the mount root's inode 1.
pub open spec fn spec_ino_from_sid(sid: int) -> int {
    sid + 2
}

/// The sid/inode maps invert each other: translating a sid to its inode and
/// back is the identity, and translating any inode at or beyond the start
/// of the snapshot block to its sid and back is the identity as well.
pub proof fn lemma_sid_ino_round_trip(sid: int, ino: int)
    requires
        ino >= 2,
    ensures
        spec_sid_from_ino(spec_ino_from_sid(sid)) == sid,
        spec_ino_from_sid(spec_sid_from_ino(ino)) == ino,
{
}

/// The first index in `names` at or after `i` holding exactly `name`.
pub open spec fn spec_sid_from_path(names: Seq<String>, name: Seq<char>, i: int) -> Option<int>
    decreases names.len() - i,
{
    if 0 <= i < names.len() {
        if names[i]@ == name {
            Some(i)
        } else {
            spec_sid_from_path(names, name, i + 1)
        }
    } else {
        None
    }
}

/// A found name index lies within the name list and carries the name.
pub proof fn lemma_sid_from_path_range(names: Seq<String>, name: Seq<char>, i: int)
    requires
        0 <= i,
    ensures
        spec_sid_from_path(names, name, i) matches Some(s) ==> i <= s < names.len() && names[s]@
            == name,
    decreases names.len() - i,
{
    if 0 <= i < names.len() && !(names[i]@ == name) {
        lemma_sid_from_path_range(names, name, i + 1);
    }
}

/// The latest second a snapshot capture time may carry to be rendered as a
/// directory name: 9999-12-31T23:59:59 UTC. The platform's local-time
/// conversion fails on seconds whose year does not fit its calendar
/// structure, and the time crate turns that failure into a panic; staying
/// between the epoch and year 9999 keeps the conversion total on every
/// platform.
pub const MAX_SNAPSHOT_SEC: i64 = 253_402_300_799;

/// Whether a capture time lies in the range the snapshot-name rendering
/// accepts.
pub open spec fn stamp_renderable(t: Stamp) -> bool {
    0 <= t.sec <= MAX_SNAPSHOT_SEC
}

/// Relies on time::at and time::strftime of the time crate: renders a
/// timestamp as `%Y-%m-%d_%H-%M-%S` in the machine's local time zone. The
/// result depends on the environment's time zone, so nothing is assumed
/// about it. The bound on the seconds keeps time::at away from its panic
/// on a failed local-time conversion; with it, and with this fixed valid
/// format string, neither call fails.
#[verifier::external_body]
fn time_to_path(time: Stamp) -> String
    requires
        stamp_renderable(time),
{
    let spec = time::Timespec { sec: time.sec, nsec: time.nsec };
    match time::strftime("%Y-%m-%d_%H-%M-%S", &time::at(spec)) {
        Ok(s) => s,
        Err(_) => String::new(),
    }
}

/// The index of snapshot directories: position `sid` holds the directory
/// name of the snapshot with that sid. Every sid in `0 .. len` is present
/// exactly once by construction. Two snapshots taken in the same second
/// would render to the same name; duplicity repositories guarantee unique
/// snapshot times, and a lookup of a duplicated name finds the earliest
/// snapshot carrying it.
pub struct SnapshotsInos {
    pub paths: Vec<String>,
}

impl SnapshotsInos {
    /// Builds the index from the snapshots' capture times, in sid order.
    pub fn new(times: &Vec<Stamp>) -> (r: Self)
        requires
            forall|i: int| 0 <= i < times@.len() ==> stamp_renderable(#[trigger] times@[i]),
        ensures
            r.paths@.len() == times@.len(),
    {
        let mut paths: Vec<String> = Vec::new();
        let mut i: usize = 0;
        while i < times.len()
            invariant
                i <= times@.len(),
                paths@.len() == i,
                forall|j: int| 0 <= j < times@.len() ==> stamp_renderable(#[trigger] times@[j]),
            decreases times@.len() - i,
        {
            paths.push(time_to_path(times[i]));
            i = i + 1;
        }
        SnapshotsInos { paths: paths }
    }

    /// The number of snapshots in the backup.
    pub fn len(&self) -> (r: usize)
        ensures
            r == self.paths@.len(),
    {
        self.paths.len()
    }

    /// Whether the backup holds no snapshot at all.
    pub fn is_empty(&self) -> (r: bool)
        ensures
            r == (self.paths@.len() == 0),
    {
        self.paths.len() == 0
    }

    /// Finds the sid whose snapshot directory carries this name, if any.
    pub fn sid_from_path(&self, name: &String) -> (r: Option<usize>)
        ensures
            match r {
                Some(sid) => spec_sid_from_path(self.paths@, name@, 0) == Some(sid as int),
                None => spec_sid_from_path(self.paths@, name@, 0) is None,
            },
    {
        let mut i: usize = 0;
        while i < self.paths.len()
            invariant
                i <= self.paths@.len(),
                spec_sid_from_path(self.paths@, name@, 0) == spec_sid_from_path(
                    self.paths@,
                    name@,
                    i as int,
                ),
            decreases self.paths@.len() - i,
        {
            if self.paths[i] == *name {
                return Some(i);
            }
            i = i + 1;
        }
        None
    }

    /// The sid of a snapshot-directory inode.
    pub fn sid_from_ino(&self, ino: u64) -> (r: usize)
        requires
            ino >= 2,
            spec_sid_from_ino(ino as int) <= usize::MAX,
        ensures
            r == spec_sid_from_ino(ino as int),
    {
        (ino - 2) as usize
    }

    /// The inode of a snapshot directory.
    pub fn ino_from_sid(&self, sid: usize) -> (r: u64)
        requires
            spec_ino_from_sid(sid as int) <= u64::MAX,
        ensures
            r == spec_ino_from_sid(sid as int),
    {
        sid as u64 + 2
    }

    /// The first inode beyond the block of snapshot-directory inodes.
    pub fn last_ino(&self) -> (r: u64)
        requires
            self.paths@.len() + 2 <= u64::MAX,
        ensures
            r == self.paths@.len() + 2,
    {
        self.ino_from_sid(self.paths.len())
    }

    /// Whether an inode denotes a snapshot directory.
    pub fn is_snapshot(&self, ino: u64) -> (r: bool)
        requires
            self.paths@.len() + 2 <= u64::MAX,
        ensures
            r == (2 <= ino && ino < self.paths@.len() + 2),
    {
        ino >= 2 && ino < self.ino_from_sid(self.paths.len())
    }
}

} // verus!
