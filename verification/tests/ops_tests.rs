use shellfs::ops::read_bytes;
use shellfs::table::attr;
use shellfs::table::InodeKind;
use shellfs::table::InodeTable;

fn seg(s: &str) -> Vec<u8> {
    s.as_bytes().to_vec()
}

#[test]
fn read_clamping() {
    let data: Vec<u8> = (0u8..10u8).collect();
    let empty = read_bytes(&data, 15, 5);
    assert_eq!(empty, Vec::<u8>::new());
    let tail = read_bytes(&data, 8, 5);
    assert_eq!(tail, vec![8u8, 9u8]);
}

#[test]
fn read_whole_and_edges() {
    let data = b"hello".to_vec();
    assert_eq!(read_bytes(&data, 0, 5), b"hello".to_vec());
    assert_eq!(read_bytes(&data, 0, 100), b"hello".to_vec());
    assert_eq!(read_bytes(&data, 2, 2), b"ll".to_vec());
    assert_eq!(read_bytes(&data, 5, 1), Vec::<u8>::new());
    assert_eq!(read_bytes(&data, -3, 5), b"he".to_vec());
    assert_eq!(read_bytes(&data, -10, 5), Vec::<u8>::new());
    let empty: Vec<u8> = Vec::new();
    assert_eq!(read_bytes(&empty, 0, 4), Vec::<u8>::new());
}

#[test]
fn unknown_id() {
    let listing = b"a\n".to_vec();
    let t = InodeTable::build(&listing);
    assert_eq!(t.inodes.len(), 2);
    assert!(t.getattr(3).is_none());
    assert!(t.getattr(100).is_none());
    assert!(t.getattr(0).is_none());
    assert!(t.getattr(2).is_some());
    assert!(t.readdir(3, 0).is_none());
    assert!(t.path_of(3).is_none());
}

#[test]
fn pagination() {
    let listing = b"d/p\nd/q\n".to_vec();
    let t = InodeTable::build(&listing);
    let entries = t.readdir(2, 2).expect("readdir of d");
    let names: Vec<Vec<u8>> = entries.iter().map(|e| e.name.clone()).collect();
    assert_eq!(names, vec![seg("p"), seg("q")]);
    assert_eq!(entries[0].ino, 3);
    assert_eq!(entries[1].ino, 4);
}

#[test]
fn readdir_cursors_advance_by_position() {
    let listing = b"d/p\nd/q\n".to_vec();
    let t = InodeTable::build(&listing);
    let entries = t.readdir(2, 0).expect("readdir of d");
    let cursors: Vec<i64> = entries.iter().map(|e| e.next_offset).collect();
    assert_eq!(cursors, vec![1, 2, 3, 4]);
    let rest = t.readdir(2, 3).expect("readdir of d from cursor 3");
    assert_eq!(rest.len(), 1);
    assert_eq!(rest[0].name, seg("q"));
    assert_eq!(rest[0].next_offset, 4);
    let done = t.readdir(2, 4).expect("readdir of d from cursor 4");
    assert!(done.is_empty());
}

#[test]
fn readdir_negative_offset_lists_all() {
    let listing = b"a\n".to_vec();
    let t = InodeTable::build(&listing);
    let entries = t.readdir(1, -1).expect("readdir of root");
    let names: Vec<Vec<u8>> = entries.iter().map(|e| e.name.clone()).collect();
    assert_eq!(names, vec![seg("."), seg(".."), seg("a")]);
}

#[test]
fn readdir_of_file_has_only_dot_entries() {
    let listing = b"a\n".to_vec();
    let t = InodeTable::build(&listing);
    let entries = t.readdir(2, 0).expect("readdir of file id");
    let names: Vec<Vec<u8>> = entries.iter().map(|e| e.name.clone()).collect();
    assert_eq!(names, vec![seg("."), seg("..")]);
    assert_eq!(entries[0].ino, 2);
    assert_eq!(entries[1].ino, 2);
    assert!(entries[0].kind == InodeKind::Directory);
}

#[test]
fn lookup_misses() {
    let listing = b"a/b\n".to_vec();
    let t = InodeTable::build(&listing);
    assert!(t.lookup(1, &seg("b")).is_none());
    assert!(t.lookup(2, &seg("a")).is_none());
    assert!(t.lookup(9, &seg("a")).is_none());
}

#[test]
fn lookup_in_subdirectory() {
    let listing = b"a/b\n".to_vec();
    let t = InodeTable::build(&listing);
    let b = t.lookup(2, &seg("b")).expect("lookup of a/b");
    assert_eq!(b.ino, 3);
    assert!(b.kind == InodeKind::RegularFile);
}

#[test]
fn attr_reports_fixed_values() {
    let a = attr(7, InodeKind::Directory);
    assert_eq!(a.ino, 7);
    assert_eq!(a.size, 1_000_000_000_000);
    assert_eq!(a.blocks, 1);
    assert_eq!(a.perm, 0o644);
    assert_eq!(a.nlink, 1);
    assert_eq!(a.uid, 0);
    assert_eq!(a.gid, 0);
    assert_eq!(a.rdev, 0);
    assert_eq!(a.flags, 0);
    assert_eq!(a.atime_secs, 0);
    assert_eq!(a.mtime_secs, 0);
    assert_eq!(a.ctime_secs, 0);
    assert_eq!(a.crtime_secs, 0);
    assert!(a.kind == InodeKind::Directory);
}

#[test]
fn getattr_reports_kind_of_record() {
    let listing = b"a/b\n".to_vec();
    let t = InodeTable::build(&listing);
    let root = t.getattr(1).expect("getattr of root");
    assert!(root.kind == InodeKind::Directory);
    let dir = t.getattr(2).expect("getattr of a");
    assert!(dir.kind == InodeKind::Directory);
    let file = t.getattr(3).expect("getattr of a/b");
    assert!(file.kind == InodeKind::RegularFile);
    assert_eq!(file.ino, 3);
}

#[test]
fn path_of_joins_segments() {
    let listing = b"a/b\n".to_vec();
    let t = InodeTable::build(&listing);
    assert_eq!(t.path_of(1).expect("root path"), Vec::<u8>::new());
    assert_eq!(t.path_of(2).expect("path of a"), seg("a"));
    assert_eq!(t.path_of(3).expect("path of a/b"), seg("a/b"));
}

#[test]
fn path_of_normalized_listing_line() {
    let listing = b"./x//y\n".to_vec();
    let t = InodeTable::build(&listing);
    assert_eq!(t.path_of(3).expect("path of x/y"), seg("x/y"));
}
