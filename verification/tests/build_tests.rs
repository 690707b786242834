use shellfs::table::InodeKind;
use shellfs::table::InodeTable;

fn seg(s: &str) -> Vec<u8> {
    s.as_bytes().to_vec()
}

#[test]
fn ancestor_synthesis() {
    let listing = b"a/b/c\n".to_vec();
    let t = InodeTable::build(&listing);
    assert_eq!(t.inodes.len(), 4);

    assert_eq!(t.inodes[0].path, Vec::<Vec<u8>>::new());
    assert!(t.inodes[0].kind == InodeKind::Directory);
    assert_eq!(t.inodes[0].parent_inode, 0);

    assert_eq!(t.inodes[1].path, vec![seg("a")]);
    assert!(t.inodes[1].kind == InodeKind::Directory);
    assert_eq!(t.inodes[1].parent_inode, 1);

    assert_eq!(t.inodes[2].path, vec![seg("a"), seg("b")]);
    assert!(t.inodes[2].kind == InodeKind::Directory);
    assert_eq!(t.inodes[2].parent_inode, 2);

    assert_eq!(t.inodes[3].path, vec![seg("a"), seg("b"), seg("c")]);
    assert!(t.inodes[3].kind == InodeKind::RegularFile);
    assert_eq!(t.inodes[3].parent_inode, 3);

    let a = t.lookup(1, &seg("a")).expect("lookup of a");
    assert_eq!(a.ino, 2);
    assert!(a.kind == InodeKind::Directory);
}

#[test]
fn directory_reuse() {
    let listing = b"a/x\na/y\n".to_vec();
    let t = InodeTable::build(&listing);
    assert_eq!(t.inodes.len(), 4);

    let dirs_named_a = t
        .inodes
        .iter()
        .filter(|n| n.path == vec![seg("a")] && n.kind == InodeKind::Directory)
        .count();
    assert_eq!(dirs_named_a, 1);

    let entries = t.readdir(2, 0).expect("readdir of a");
    let names: Vec<Vec<u8>> = entries.iter().map(|e| e.name.clone()).collect();
    assert_eq!(names, vec![seg("."), seg(".."), seg("x"), seg("y")]);
    let duplicates = entries.iter().filter(|e| e.name == seg("a")).count();
    assert_eq!(duplicates, 0);
}

#[test]
fn idempotent_build() {
    let listing = b"x/y\nz\nx/w\n".to_vec();
    let t1 = InodeTable::build(&listing);
    let t2 = InodeTable::build(&listing);
    assert_eq!(t1.inodes.len(), t2.inodes.len());
    for (a, b) in t1.inodes.iter().zip(t2.inodes.iter()) {
        assert_eq!(a.path, b.path);
        assert!(a.kind == b.kind);
        assert_eq!(a.parent_inode, b.parent_inode);
    }
}

#[test]
fn empty_listing() {
    let listing = Vec::new();
    let t = InodeTable::build(&listing);
    assert_eq!(t.len(), 1);
    assert_eq!(t.inodes.len(), 1);
    assert!(t.lookup(1, &seg("anything")).is_none());
}

#[test]
fn blank_lines_are_skipped() {
    let listing = b"\n\na\n\n".to_vec();
    let t = InodeTable::build(&listing);
    assert_eq!(t.inodes.len(), 2);
    assert_eq!(t.inodes[1].path, vec![seg("a")]);
    assert!(t.inodes[1].kind == InodeKind::RegularFile);
    assert_eq!(t.inodes[1].parent_inode, 1);
}

#[test]
fn duplicate_leaves_stay() {
    let listing = b"a\na\n".to_vec();
    let t = InodeTable::build(&listing);
    assert_eq!(t.inodes.len(), 3);
    assert_eq!(t.inodes[1].path, vec![seg("a")]);
    assert_eq!(t.inodes[2].path, vec![seg("a")]);
    // lookup resolves to the first record in table order
    let a = t.lookup(1, &seg("a")).expect("lookup of a");
    assert_eq!(a.ino, 2);
}

#[test]
fn dot_and_slash_normalization() {
    let listing = b"./a/b\n/c\nd//e\n".to_vec();
    let t = InodeTable::build(&listing);
    assert_eq!(t.inodes.len(), 6);
    assert_eq!(t.inodes[1].path, vec![seg("a")]);
    assert_eq!(t.inodes[2].path, vec![seg("a"), seg("b")]);
    assert_eq!(t.inodes[3].path, vec![seg("c")]);
    assert_eq!(t.inodes[3].parent_inode, 1);
    assert_eq!(t.inodes[4].path, vec![seg("d")]);
    assert_eq!(t.inodes[5].path, vec![seg("d"), seg("e")]);
    assert_eq!(t.inodes[5].parent_inode, 5);
}

#[test]
fn root_lines_add_nothing() {
    let listing = b".\n/\n".to_vec();
    let t = InodeTable::build(&listing);
    assert_eq!(t.inodes.len(), 1);
}

#[test]
fn file_can_become_parent() {
    // a listed file whose path is later scanned as an ancestor is reused,
    // first match in table order winning
    let listing = b"a\na/b\n".to_vec();
    let t = InodeTable::build(&listing);
    assert_eq!(t.inodes.len(), 3);
    assert!(t.inodes[1].kind == InodeKind::RegularFile);
    assert_eq!(t.inodes[2].path, vec![seg("a"), seg("b")]);
    assert_eq!(t.inodes[2].parent_inode, 2);
}
