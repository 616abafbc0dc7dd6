use ruplicity_fuse::fs::RuplicityFs;
use ruplicity_fuse::record::{EntryKind, PathComp, SigRecord, Stamp};
use ruplicity_fuse::tree::SnapshotTree;
use ruplicity_fuse::Errno;

fn stamp(sec: i64) -> Stamp {
    Stamp { sec, nsec: 0 }
}

fn rec(path: &[&str], etype: EntryKind) -> SigRecord {
    SigRecord {
        path: path.iter().map(|c| PathComp::Normal((*c).to_string())).collect(),
        etype,
        mode: None,
        uid: None,
        gid: None,
        mtime: stamp(5),
        size_hint: None,
        linked_path: None,
    }
}

#[test]
fn resume_right_after_the_dot_entries() {
    let records = vec![
        rec(&[], EntryKind::Dir),
        rec(&["x"], EntryKind::File),
        rec(&["y"], EntryKind::File),
    ];
    let mut fs = RuplicityFs::new(vec![stamp(100)]);
    // Cookie 1 is the `..` line: resuming there serves all children.
    let page = fs.readdir_snapshot(2, 1, &records, 1000);
    let names: Vec<&str> = page.iter().map(|e| e.name.as_str()).collect();
    assert_eq!(names, vec!["x", "y"]);
    // A cookie past the last line serves nothing.
    let page = fs.readdir_snapshot(2, 4, &records, 1000);
    assert!(page.is_empty());
}

#[test]
fn tiny_capacity_pages() {
    let records = vec![
        rec(&[], EntryKind::Dir),
        rec(&["x"], EntryKind::File),
        rec(&["y"], EntryKind::File),
    ];
    let mut fs = RuplicityFs::new(vec![stamp(100)]);
    let page = fs.readdir_snapshot(2, 0, &records, 0);
    assert!(page.is_empty());
    let page = fs.readdir_snapshot(2, 0, &records, 3);
    let names: Vec<&str> = page.iter().map(|e| e.name.as_str()).collect();
    assert_eq!(names, vec![".", "..", "x"]);
}

#[test]
fn special_components_stay_invisible() {
    // The second entry's component at depth 0 is not a plain name: it is
    // skipped in listings and never matches a lookup, but it still holds
    // its inode so later siblings keep theirs.
    let special = SigRecord {
        path: vec![PathComp::Special],
        etype: EntryKind::File,
        mode: None,
        uid: None,
        gid: None,
        mtime: stamp(5),
        size_hint: None,
        linked_path: None,
    };
    let records = vec![rec(&[], EntryKind::Dir), special, rec(&["y"], EntryKind::File)];
    let mut fs = RuplicityFs::new(vec![stamp(100)]);
    let page = fs.readdir_snapshot(2, 0, &records, 1000);
    let names: Vec<&str> = page.iter().map(|e| e.name.as_str()).collect();
    assert_eq!(names, vec![".", "..", "y"]);
    assert_eq!(page[2].ino, 6);
    assert_eq!(page[2].offset, 3);
    // The skipped entry is still reachable by its inode.
    let attr = fs.getattr_entry(5, &records).unwrap();
    assert_eq!(attr.ino, 5);
}

#[test]
fn duplicate_snapshot_names_resolve_to_the_earliest() {
    // Two snapshots taken in the same second render to the same directory
    // name; a lookup finds the earliest.
    let fs = RuplicityFs::new(vec![stamp(1_000_000_000), stamp(1_000_000_000)]);
    let attr = fs
        .lookup_snapshot(&"2001-09-09_01-46-40".to_string())
        .expect("the shared name must resolve");
    assert_eq!(attr.ino, 2);
}

#[test]
fn path_entry_survives_a_short_stream() {
    // Query helpers stay total when handed fewer records than the tree was
    // built from: they miss instead of failing.
    let records = vec![
        rec(&[], EntryKind::Dir),
        rec(&["x"], EntryKind::File),
        rec(&["y"], EntryKind::File),
    ];
    let tree = SnapshotTree::new(&records, 2, 3);
    let short = vec![rec(&[], EntryKind::Dir)];
    let top = tree.children();
    assert_eq!(top.len(), 2);
    assert!(top[1].path(&short).is_none());
    assert!(top[1].as_signature(&short).is_none());
}

#[test]
fn entry_ops_on_unmaterialised_trees_miss() {
    // Before any snapshot directory was listed, no tree answers for entry
    // inodes.
    let records = vec![rec(&[], EntryKind::Dir), rec(&["x"], EntryKind::File)];
    let fs = RuplicityFs::new(vec![stamp(100)]);
    assert_eq!(fs.getattr_entry(4, &records), Err(Errno::Enosys));
    assert_eq!(fs.lookup_entry(4, &"x".to_string(), &records), Err(Errno::Enoent));
    assert_eq!(fs.readlink_entry(4, &records), Err(Errno::Enoent));
    assert!(fs.find_tree_with_ino(4).is_none());
}
