//! The inode table: the data model of the synthetic filesystem.
//!
//! A path is a sequence of byte-string segments. The table is a vector of
//! inodes whose first element is a sentinel for the root directory; the
//! public id of the record at index `i` is `i + 1`, so the root always has
//! id 1.

use vstd::prelude::*;

verus! {

/// View of a list of byte vectors as a sequence of byte sequences.
pub open spec fn segs_view(v: Seq<Vec<u8>>) -> Seq<Seq<u8>> {
    v.map_values(|s: Vec<u8>| s@)
}

/// View of a list of paths (each a list of segments) as a sequence of
/// sequences of byte sequences.
pub open spec fn paths_view(v: Seq<Vec<Vec<u8>>>) -> Seq<Seq<Seq<u8>>> {
    v.map_values(|p: Vec<Vec<u8>>| segs_view(p@))
}

/// Whether a filesystem entry is a directory or a regular file.
///
/// Every synthesized ancestor and the root are directories; every path the
/// external listing emitted verbatim is a regular file.
#[derive(Clone, Copy, PartialEq, Eq, Structural, Debug)]
pub enum InodeKind {
    Directory,
    RegularFile,
}

/// Mathematical model of one inode: a path (sequence of segments), a kind,
/// and the id of the containing directory's record.
#[verifier::ext_equal]
pub ghost struct GInode {
    pub path: Seq<Seq<u8>>,
    pub kind: InodeKind,
    pub parent: int,
}

/// One filesystem entry: its logical path as a list of segments, its kind,
/// and the id of its parent directory's record.
pub struct Inode {
    pub path: Vec<Vec<u8>>,
    pub kind: InodeKind,
    pub parent_inode: u64,
}

impl View for Inode {
    type V = GInode;

    open spec fn view(&self) -> GInode {
        GInode {
            path: segs_view(self.path@),
            kind: self.kind,
            parent: self.parent_inode as int,
        }
    }
}

/// View of a record list as its mathematical model.
pub open spec fn table_view(t: Seq<Inode>) -> Seq<GInode> {
    t.map_values(|ino: Inode| ino@)
}

/// The complete table of inodes for one build; index 0 holds the root
/// sentinel, and the record at index `i` answers to public id `i + 1`.
pub struct InodeTable {
    pub inodes: Vec<Inode>,
}

impl View for InodeTable {
    type V = Seq<GInode>;

    open spec fn view(&self) -> Seq<GInode> {
        table_view(self.inodes@)
    }
}

/// The root sentinel record: empty path, directory, parent id 0.
pub open spec fn root_ginode() -> GInode {
    GInode { path: Seq::empty(), kind: InodeKind::Directory, parent: 0 }
}

impl InodeTable {
    /// A table that holds only the root sentinel.
    pub fn new() -> (r: InodeTable)
        ensures
            r@ == seq![root_ginode()],
    {
        let root = Inode { path: Vec::new(), kind: InodeKind::Directory, parent_inode: 0 };
        let mut inodes: Vec<Inode> = Vec::new();
        inodes.push(root);
        let t = InodeTable { inodes };
        proof {
            assert(t@ =~~= seq![root_ginode()]);
        }
        t
    }

    /// The number of records, root sentinel included.
    pub fn len(&self) -> (r: usize)
        ensures
            r == self@.len(),
    {
        self.inodes.len()
    }
}

/// Synthesized attribute record for one inode, as reported to the
/// virtual-filesystem transport. Sizes and timestamps are fixed nominal
/// values, deliberately independent of the actual content.
pub struct Attr {
    pub ino: u64,
    pub size: u64,
    pub blocks: u64,
    pub atime_secs: u64,
    pub mtime_secs: u64,
    pub ctime_secs: u64,
    pub crtime_secs: u64,
    pub kind: InodeKind,
    pub perm: u16,
    pub nlink: u32,
    pub uid: u32,
    pub gid: u32,
    pub rdev: u32,
    pub flags: u32,
}

/// The attribute record every query reports: a fixed nominal size, epoch
/// timestamps, mode 644, and the queried id and kind.
pub open spec fn attr_spec(ino: u64, kind: InodeKind) -> Attr {
    Attr {
        ino: ino,
        size: 1_000_000_000_000u64,
        blocks: 1u64,
        atime_secs: 0u64,
        mtime_secs: 0u64,
        ctime_secs: 0u64,
        crtime_secs: 0u64,
        kind: kind,
        perm: 0o644u16,
        nlink: 1u32,
        uid: 0u32,
        gid: 0u32,
        rdev: 0u32,
        flags: 0u32,
    }
}

/// Builds the synthesized attribute record for id `ino` with kind `kind`.
pub fn attr(ino: u64, kind: InodeKind) -> (r: Attr)
    ensures
        r == attr_spec(ino, kind),
{
    Attr {
        ino: ino,
        size: 1_000_000_000_000u64,
        blocks: 1u64,
        atime_secs: 0u64,
        mtime_secs: 0u64,
        ctime_secs: 0u64,
        crtime_secs: 0u64,
        kind: kind,
        perm: 0o644u16,
        nlink: 1u32,
        uid: 0u32,
        gid: 0u32,
        rdev: 0u32,
        flags: 0u32,
    }
}

} // verus!
