use ruplicity_fuse::fs::{InoClass, RuplicityFs};
use ruplicity_fuse::record::{
    attr_entry, from_entry_type, EntryKind, FileKind, PathComp, SigRecord, Stamp,
};
use ruplicity_fuse::Errno;

fn stamp(sec: i64) -> Stamp {
    Stamp { sec, nsec: 0 }
}

fn rec(path: &[&str], etype: EntryKind) -> SigRecord {
    SigRecord {
        path: path.iter().map(|c| PathComp::Normal((*c).to_string())).collect(),
        etype,
        mode: Some(0o7644),
        uid: Some(500),
        gid: Some(501),
        mtime: stamp(33),
        size_hint: Some((10, 1234)),
        linked_path: None,
    }
}

#[test]
fn readlink_follows_stored_target() {
    let mut link = rec(&["hosts-link"], EntryKind::SymLink);
    link.linked_path = Some(b"/etc/hosts".to_vec());
    let records = vec![rec(&[], EntryKind::Dir), link, rec(&["plain"], EntryKind::File)];
    let mut fs = RuplicityFs::new(vec![stamp(100)]);
    fs.readdir_snapshot(2, 0, &records, 1000);
    // The dummy root takes inode 4; the symlink is 5, its sibling 6.
    assert_eq!(fs.readlink_entry(5, &records), Ok(b"/etc/hosts".to_vec()));
}

#[test]
fn readlink_of_a_plain_file_is_not_supported() {
    let mut link = rec(&["hosts-link"], EntryKind::SymLink);
    link.linked_path = Some(b"/etc/hosts".to_vec());
    let records = vec![rec(&[], EntryKind::Dir), link, rec(&["plain"], EntryKind::File)];
    let mut fs = RuplicityFs::new(vec![stamp(100)]);
    fs.readdir_snapshot(2, 0, &records, 1000);
    assert_eq!(fs.readlink_entry(6, &records), Err(Errno::Enosys));
}

#[test]
fn getattr_outside_every_known_range_is_not_supported() {
    let records = vec![rec(&[], EntryKind::Dir), rec(&["a"], EntryKind::File)];
    let mut fs = RuplicityFs::new(vec![stamp(100)]);
    fs.readdir_snapshot(2, 0, &records, 1000);
    assert_eq!(fs.getattr_entry(0, &records), Err(Errno::Enosys));
    assert_eq!(fs.getattr_entry(1000, &records), Err(Errno::Enosys));
    assert_eq!(fs.getattr_snapshot(0), Err(Errno::Enosys));
    assert_eq!(fs.getattr_snapshot(3), Err(Errno::Enosys));
}

#[test]
fn getattr_entry_reads_the_backing_record() {
    let records = vec![rec(&[], EntryKind::Dir), rec(&["a"], EntryKind::File)];
    let mut fs = RuplicityFs::new(vec![stamp(100)]);
    fs.readdir_snapshot(2, 0, &records, 1000);
    let attr = fs.getattr_entry(5, &records).unwrap();
    assert_eq!(attr.ino, 5);
    assert_eq!(attr.size, 1234);
    assert_eq!(attr.perm, 0o7644u32 as u16);
    assert_eq!(attr.uid, 500);
    assert_eq!(attr.gid, 501);
    assert_eq!(attr.mtime, stamp(33));
    assert_eq!(attr.kind, FileKind::RegularFile);
}

#[test]
fn attr_entry_fills_in_defaults() {
    let bare = SigRecord {
        path: vec![PathComp::Normal("x".to_string())],
        etype: EntryKind::File,
        mode: None,
        uid: None,
        gid: None,
        mtime: stamp(9),
        size_hint: None,
        linked_path: None,
    };
    let attr = attr_entry(&bare, 42);
    assert_eq!(attr.ino, 42);
    assert_eq!(attr.size, 0);
    assert_eq!(attr.perm, 0o777);
    assert_eq!(attr.uid, 100);
    assert_eq!(attr.gid, 100);
    assert_eq!(attr.atime, stamp(9));
    assert_eq!(attr.crtime, stamp(9));
    assert_eq!(attr.blocks, 0);
    assert_eq!(attr.nlink, 0);
    assert_eq!(attr.rdev, 0);
    assert_eq!(attr.flags, 0);
}

#[test]
fn entry_kinds_map_to_file_kinds() {
    assert_eq!(from_entry_type(EntryKind::File), FileKind::RegularFile);
    assert_eq!(from_entry_type(EntryKind::HardLink), FileKind::RegularFile);
    assert_eq!(from_entry_type(EntryKind::Unknown(b'q')), FileKind::RegularFile);
    assert_eq!(from_entry_type(EntryKind::Dir), FileKind::Directory);
    assert_eq!(from_entry_type(EntryKind::SymLink), FileKind::Symlink);
    assert_eq!(from_entry_type(EntryKind::Fifo), FileKind::NamedPipe);
}

#[test]
fn lookup_entry_finds_a_child_by_name() {
    let records = vec![
        rec(&[], EntryKind::Dir),
        rec(&["a"], EntryKind::Dir),
        rec(&["a", "b"], EntryKind::Dir),
        rec(&["a", "b", "c"], EntryKind::File),
        rec(&["d"], EntryKind::File),
    ];
    let mut fs = RuplicityFs::new(vec![stamp(100)]);
    fs.readdir_snapshot(2, 0, &records, 1000);
    // Inodes: dummy root 4, a 5, b 6, c 7, d 8.
    let attr = fs.lookup_entry(6, &"c".to_string(), &records).unwrap();
    assert_eq!(attr.ino, 7);
    assert_eq!(attr.kind, FileKind::RegularFile);
    let attr = fs.lookup_entry(5, &"b".to_string(), &records).unwrap();
    assert_eq!(attr.ino, 6);
    assert_eq!(attr.kind, FileKind::Directory);
    assert_eq!(fs.lookup_entry(5, &"zzz".to_string(), &records), Err(Errno::Enoent));
    assert_eq!(fs.lookup_entry(1000, &"b".to_string(), &records), Err(Errno::Enoent));
}

#[test]
fn empty_snapshot_still_answers() {
    // A snapshot whose stream holds only the root record: its directory
    // lists just `.` and `..`, its attributes resolve, and any lookup in
    // it misses.
    let records = vec![rec(&[], EntryKind::Dir)];
    let mut fs = RuplicityFs::new(vec![stamp(100)]);
    let page = fs.readdir_snapshot(2, 0, &records, 1000);
    assert_eq!(page.len(), 2);
    let attr = fs.getattr_snapshot(2).unwrap();
    assert_eq!(attr.ino, 2);
    assert_eq!(attr.kind, FileKind::Directory);
    assert_eq!(attr.mtime, stamp(100));
    assert_eq!(fs.lookup_entry(2, &"anything".to_string(), &records), Err(Errno::Enoent));
}

#[test]
fn classify_splits_the_inode_space() {
    let fs = RuplicityFs::new(vec![stamp(100), stamp(200)]);
    assert_eq!(fs.classify(1), InoClass::Root);
    assert_eq!(fs.classify(2), InoClass::Snapshot);
    assert_eq!(fs.classify(3), InoClass::Snapshot);
    assert_eq!(fs.classify(4), InoClass::Entry);
    assert_eq!(fs.classify(0), InoClass::Entry);
}
