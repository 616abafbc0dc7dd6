use ruplicity_fuse::fs::RuplicityFs;
use ruplicity_fuse::record::{EntryKind, FileKind, PathComp, SigRecord, Stamp};
use ruplicity_fuse::snapshots::SnapshotsInos;
use ruplicity_fuse::Errno;

fn stamp(sec: i64) -> Stamp {
    Stamp { sec, nsec: 0 }
}

fn rec(path: &[&str], etype: EntryKind) -> SigRecord {
    SigRecord {
        path: path.iter().map(|c| PathComp::Normal((*c).to_string())).collect(),
        etype,
        mode: Some(0o644),
        uid: Some(1000),
        gid: Some(1000),
        mtime: stamp(7),
        size_hint: Some((0, 42)),
        linked_path: None,
    }
}

#[test]
fn sid_ino_round_trip() {
    let index = SnapshotsInos::new(&vec![stamp(10), stamp(20), stamp(30)]);
    for sid in 0..3usize {
        let ino = index.ino_from_sid(sid);
        assert_eq!(index.sid_from_ino(ino), sid);
    }
    for ino in 2u64..5 {
        assert_eq!(index.ino_from_sid(index.sid_from_ino(ino)), ino);
    }
}

#[test]
fn index_len_and_bounds() {
    let index = SnapshotsInos::new(&vec![stamp(10), stamp(20)]);
    assert_eq!(index.len(), 2);
    assert!(!index.is_empty());
    assert_eq!(index.last_ino(), 4);
    assert!(!index.is_snapshot(0));
    assert!(!index.is_snapshot(1));
    assert!(index.is_snapshot(2));
    assert!(index.is_snapshot(3));
    assert!(!index.is_snapshot(4));
    let empty = SnapshotsInos::new(&Vec::new());
    assert_eq!(empty.len(), 0);
    assert!(empty.is_empty());
    assert_eq!(empty.last_ino(), 2);
}

#[test]
fn snapshot_names_follow_capture_time() {
    // 1_000_000_000 seconds after the epoch, rendered in this machine's
    // local time zone (UTC here).
    let index = SnapshotsInos::new(&vec![stamp(1_000_000_000)]);
    assert_eq!(index.sid_from_path(&"2001-09-09_01-46-40".to_string()), Some(0));
    assert_eq!(index.sid_from_path(&"1999-01-01_00-00-00".to_string()), None);
}

#[test]
fn one_snapshot_backup_root_listing() {
    let mut fs = RuplicityFs::new(vec![stamp(1_000_000_000)]);
    let page = fs.readdir_root(0, 100);
    assert_eq!(page.len(), 3);
    assert_eq!(page[0].name, ".");
    assert_eq!(page[0].ino, 1);
    assert_eq!(page[0].offset, 0);
    assert_eq!(page[1].name, "..");
    assert_eq!(page[1].ino, 1);
    assert_eq!(page[1].offset, 1);
    assert_eq!(page[2].name, "2001-09-09_01-46-40");
    assert_eq!(page[2].ino, 2);
    assert_eq!(page[2].offset, 2);
    assert_eq!(page[2].kind, FileKind::Directory);

    let attr = fs
        .lookup_snapshot(&"2001-09-09_01-46-40".to_string())
        .expect("snapshot name must resolve");
    assert_eq!(attr.ino, 2);
    assert_eq!(attr.kind, FileKind::Directory);
    assert_eq!(attr.perm, 0o555);
    assert_eq!(attr.mtime, stamp(1_000_000_000));

    let records = vec![rec(&[], EntryKind::Dir)];
    let page = fs.readdir_snapshot(2, 0, &records, 100);
    assert_eq!(page.len(), 2);
    assert_eq!(page[0].name, ".");
    assert_eq!(page[0].ino, 2);
    assert_eq!(page[1].name, "..");
    assert_eq!(page[1].ino, 1);
}

#[test]
fn lookup_of_unknown_snapshot_name_misses() {
    let fs = RuplicityFs::new(vec![stamp(1_000_000_000)]);
    assert_eq!(fs.lookup_snapshot(&"no-such-snapshot".to_string()), Err(Errno::Enoent));
}

#[test]
fn empty_backup_root_listing() {
    let fs = RuplicityFs::new(Vec::new());
    let page = fs.readdir_root(0, 100);
    assert_eq!(page.len(), 2);
    assert_eq!(page[0].name, ".");
    assert_eq!(page[1].name, "..");
}

#[test]
fn root_attributes() {
    let fs = RuplicityFs::new(Vec::new());
    let attr = fs.getattr_root();
    assert_eq!(attr.ino, 1);
    assert_eq!(attr.kind, FileKind::Directory);
    assert_eq!(attr.perm, 0o555);
    assert_eq!(attr.uid, 0);
    assert_eq!(attr.gid, 0);
    assert_eq!(attr.atime, attr.mtime);
    assert_eq!(attr.ctime, attr.mtime);
    assert_eq!(attr.crtime, attr.mtime);
}
