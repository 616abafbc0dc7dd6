use ruplicity_fuse::record::{EntryKind, PathComp, SigRecord, Stamp};
use ruplicity_fuse::tree::SnapshotTree;

fn rec(path: &[&str], etype: EntryKind) -> SigRecord {
    SigRecord {
        path: path.iter().map(|c| PathComp::Normal((*c).to_string())).collect(),
        etype,
        mode: None,
        uid: None,
        gid: None,
        mtime: Stamp { sec: 5, nsec: 0 },
        size_hint: None,
        linked_path: None,
    }
}

/// The stream `[root, "a", "a/b", "a/b/c", "d"]`, as a snapshot tree with
/// inodes handed out from 3 on.
fn nested_records() -> Vec<SigRecord> {
    vec![
        rec(&[], EntryKind::Dir),
        rec(&["a"], EntryKind::Dir),
        rec(&["a", "b"], EntryKind::Dir),
        rec(&["a", "b", "c"], EntryKind::File),
        rec(&["d"], EntryKind::File),
    ]
}

#[test]
fn nested_stream_assigns_depth_first_inodes() {
    let records = nested_records();
    let tree = SnapshotTree::new(&records, 2, 3);
    // Dummy root takes 3; "a" 4, "a/b" 5, "a/b/c" 6, "d" 7.
    assert_eq!(tree.inodes(), Some((4, 7)));
    let top = tree.children();
    assert_eq!(top.len(), 2);
    assert_eq!(top[0].ino, 4);
    assert_eq!(top[0].path(&records).map(|s| s.as_str()), Some("a"));
    assert_eq!(top[1].ino, 7);
    assert_eq!(top[1].path(&records).map(|s| s.as_str()), Some("d"));
}

#[test]
fn find_node_returns_the_asked_inode() {
    let records = nested_records();
    let tree = SnapshotTree::new(&records, 2, 3);
    for ino in 4u64..8 {
        let entry = tree.find_node(ino).expect("inode inside the tree interval");
        assert_eq!(entry.ino(), ino);
    }
    // The snapshot directory's own inode resolves to the dummy root.
    let root = tree.find_node(2).expect("snapshot inode aliases the dummy root");
    assert_eq!(root.ino(), 3);
    assert!(tree.find_node(1).is_none());
    assert!(tree.find_node(8).is_none());
}

#[test]
fn find_node_depth_and_parent() {
    let records = nested_records();
    let tree = SnapshotTree::new(&records, 2, 3);
    let c = tree.find_node(6).expect("the deep file is in the tree");
    assert_eq!(c.depth, 3);
    assert_eq!(c.parent(), 5);
    let b = tree.find_node(5).expect("the inner directory is in the tree");
    assert_eq!(b.depth, 2);
    assert_eq!(b.parent(), 4);
    // Entries right below the dummy root have the snapshot directory as
    // their parent.
    let a = tree.find_node(4).expect("the top directory is in the tree");
    assert_eq!(a.depth, 1);
    assert_eq!(a.parent(), 2);
}

#[test]
fn node_children_list_one_level_down() {
    let records = nested_records();
    let tree = SnapshotTree::new(&records, 2, 3);
    let a = tree.find_node(4).unwrap();
    let kids = a.children();
    assert_eq!(kids.len(), 1);
    assert_eq!(kids[0].ino, 5);
    assert_eq!(kids[0].path(&records).map(|s| s.as_str()), Some("b"));
    let sig = kids[0].as_signature(&records).unwrap();
    assert_eq!(sig.path.len(), 2);
}

#[test]
fn tree_holds_one_node_per_record() {
    // One less than the record count once the dummy root is left out: the
    // exposed interval spans records - 1 inodes.
    let records = nested_records();
    let tree = SnapshotTree::new(&records, 2, 3);
    let (first, last) = tree.inodes().unwrap();
    assert_eq!((last - first + 1) as usize, records.len() - 1);
}

#[test]
fn empty_stream_yields_childless_tree() {
    let records: Vec<SigRecord> = Vec::new();
    let tree = SnapshotTree::new(&records, 2, 3);
    assert_eq!(tree.inodes(), None);
    assert_eq!(tree.children().len(), 0);
}
