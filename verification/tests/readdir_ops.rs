use ruplicity_fuse::dir::DirEntryData;
use ruplicity_fuse::fs::RuplicityFs;
use ruplicity_fuse::record::{EntryKind, PathComp, SigRecord, Stamp};

fn stamp(sec: i64) -> Stamp {
    Stamp { sec, nsec: 0 }
}

fn rec(path: &[&str], etype: EntryKind) -> SigRecord {
    SigRecord {
        path: path.iter().map(|c| PathComp::Normal((*c).to_string())).collect(),
        etype,
        mode: None,
        uid: None,
        gid: None,
        mtime: stamp(5),
        size_hint: None,
        linked_path: None,
    }
}

/// Drives readdir pages for one snapshot directory until exhaustion,
/// resuming each page at the last cookie of the previous one, and returns
/// every line served (headers included).
fn all_pages(
    fs: &mut RuplicityFs,
    ino: u64,
    records: &Vec<SigRecord>,
    cap: usize,
) -> Vec<DirEntryData> {
    let mut collected: Vec<DirEntryData> = Vec::new();
    let mut offset: u64 = 0;
    loop {
        let page = fs.readdir_snapshot(ino, offset, records, cap);
        match page.last() {
            Some(last) => {
                offset = last.offset;
            }
            None => {
                break;
            }
        }
        collected.extend(page);
    }
    collected
}

#[test]
fn wide_directory_paginates_exactly_once() {
    // A directory of 1000 children served in pages of capacity 50: the
    // concatenation holds every child exactly once, in tree order.
    let mut records = vec![rec(&[], EntryKind::Dir)];
    for i in 0..1000 {
        records.push(rec(&[&format!("f{:04}", i)], EntryKind::File));
    }
    let mut fs = RuplicityFs::new(vec![stamp(100)]);
    let collected = all_pages(&mut fs, 2, &records, 50);
    let children: Vec<&DirEntryData> = collected.iter().filter(|e| e.offset >= 2).collect();
    assert_eq!(children.len(), 1000);
    for (i, e) in children.iter().enumerate() {
        assert_eq!(e.name, format!("f{:04}", i));
        assert_eq!(e.offset, i as u64 + 2);
        assert_eq!(e.ino, 5 + i as u64);
    }
}

#[test]
fn one_large_page_lists_whole_directory() {
    let records = vec![
        rec(&[], EntryKind::Dir),
        rec(&["x"], EntryKind::Dir),
        rec(&["y"], EntryKind::File),
        rec(&["z"], EntryKind::File),
    ];
    let mut fs = RuplicityFs::new(vec![stamp(100)]);
    let page = fs.readdir_snapshot(2, 0, &records, 1000);
    let names: Vec<&str> = page.iter().map(|e| e.name.as_str()).collect();
    assert_eq!(names, vec![".", "..", "x", "y", "z"]);
}

#[test]
fn readdir_resumes_after_a_cookie() {
    let records = vec![
        rec(&[], EntryKind::Dir),
        rec(&["x"], EntryKind::Dir),
        rec(&["y"], EntryKind::File),
        rec(&["z"], EntryKind::File),
    ];
    let mut fs = RuplicityFs::new(vec![stamp(100)]);
    let full = fs.readdir_snapshot(2, 0, &records, 1000);
    // Resume at each cookie the full listing returned: the result is the
    // suffix right after that line.
    for k in 1..full.len() {
        let resumed = fs.readdir_snapshot(2, full[k].offset, &records, 1000);
        assert_eq!(resumed, full[k + 1..].to_vec());
    }
}

#[test]
fn root_readdir_resumes_after_a_cookie() {
    let fs = RuplicityFs::new(vec![stamp(100), stamp(200), stamp(300)]);
    let full = fs.readdir_root(0, 1000);
    assert_eq!(full.len(), 5);
    for k in 1..full.len() {
        let resumed = fs.readdir_root(full[k].offset, 1000);
        assert_eq!(resumed, full[k + 1..].to_vec());
    }
}

#[test]
fn late_tree_still_gets_fresh_inodes() {
    // Two snapshots, the second larger; the second is accessed first.
    // Trees are materialised lazily in access order: the tree touched
    // first takes the inode run right after the snapshot block, the other
    // continues above it.
    let first = vec![rec(&[], EntryKind::Dir), rec(&["only"], EntryKind::File)];
    let second = vec![
        rec(&[], EntryKind::Dir),
        rec(&["p"], EntryKind::Dir),
        rec(&["p", "q"], EntryKind::File),
        rec(&["r"], EntryKind::File),
    ];
    let mut fs = RuplicityFs::new(vec![stamp(100), stamp(200)]);
    // Snapshot block: root 1, snapshots 2 and 3; entries start at 6 (the
    // dummy root of the first materialised tree takes 5).
    let page2 = fs.readdir_snapshot(3, 0, &second, 1000);
    assert_eq!(page2[2].name, "p");
    assert_eq!(page2[2].ino, 6);
    assert_eq!(page2[3].name, "r");
    assert_eq!(page2[3].ino, 8);
    let page1 = fs.readdir_snapshot(2, 0, &first, 1000);
    assert_eq!(page1[2].name, "only");
    assert_eq!(page1[2].ino, 10);
}

#[test]
fn no_inode_is_assigned_twice() {
    // Force all trees to materialise, then walk every directory: the
    // multiset of inodes handed out has no duplicates.
    let first = vec![
        rec(&[], EntryKind::Dir),
        rec(&["a"], EntryKind::Dir),
        rec(&["a", "b"], EntryKind::File),
    ];
    let second = vec![
        rec(&[], EntryKind::Dir),
        rec(&["c"], EntryKind::File),
        rec(&["d"], EntryKind::Dir),
        rec(&["d", "e"], EntryKind::File),
    ];
    let mut fs = RuplicityFs::new(vec![stamp(100), stamp(200)]);
    let mut inos: Vec<u64> = vec![1, 2, 3];
    for e in fs.readdir_snapshot(2, 0, &first, 1000) {
        if e.offset >= 2 {
            inos.push(e.ino);
        }
    }
    for e in fs.readdir_snapshot(3, 0, &second, 1000) {
        if e.offset >= 2 {
            inos.push(e.ino);
        }
    }
    // Descend into the two inner directories as well.
    let a = inos[3];
    for e in fs.readdir_entry(a, 0, &first, 1000).unwrap() {
        if e.offset >= 2 {
            inos.push(e.ino);
        }
    }
    let d = *inos.iter().max().unwrap();
    for e in fs.readdir_entry(d, 0, &second, 1000).unwrap() {
        if e.offset >= 2 {
            inos.push(e.ino);
        }
    }
    let mut sorted = inos.clone();
    sorted.sort();
    sorted.dedup();
    assert_eq!(sorted.len(), inos.len());
}

#[test]
fn readdir_entry_lists_subdirectory() {
    let records = vec![
        rec(&[], EntryKind::Dir),
        rec(&["a"], EntryKind::Dir),
        rec(&["a", "b"], EntryKind::Dir),
        rec(&["a", "b", "c"], EntryKind::File),
        rec(&["d"], EntryKind::File),
    ];
    let mut fs = RuplicityFs::new(vec![stamp(100)]);
    fs.readdir_snapshot(2, 0, &records, 1000);
    // The dummy root takes inode 4, so "a" has inode 5; its listing shows
    // "b" (inode 6) and a `..` line carrying the snapshot directory's
    // inode.
    let page = fs.readdir_entry(5, 0, &records, 1000).unwrap();
    assert_eq!(page.len(), 3);
    assert_eq!(page[0].name, ".");
    assert_eq!(page[0].ino, 5);
    assert_eq!(page[1].name, "..");
    assert_eq!(page[1].ino, 2);
    assert_eq!(page[2].name, "b");
    assert_eq!(page[2].ino, 6);
    // "b" in turn shows "c" with `..` pointing back at "a".
    let page = fs.readdir_entry(6, 0, &records, 1000).unwrap();
    assert_eq!(page[1].ino, 5);
    assert_eq!(page[2].name, "c");
    assert_eq!(page[2].ino, 7);
}

#[test]
fn readdir_of_unknown_inode_misses() {
    let mut fs = RuplicityFs::new(vec![stamp(100)]);
    let records = vec![rec(&[], EntryKind::Dir), rec(&["a"], EntryKind::File)];
    fs.readdir_snapshot(2, 0, &records, 1000);
    assert!(fs.readdir_entry(0, 0, &records, 1000).is_err());
    assert!(fs.readdir_entry(100, 0, &records, 1000).is_err());
}
