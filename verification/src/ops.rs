//! The four virtual-filesystem request handlers, as pure queries against a
//! built inode table.
//!
//! Public inode ids are 1-based table positions; id 1 is always the root.
//! An id outside `1..=len` answers "no such entry" (`None`); everything
//! else is answered from the table alone.

use vstd::prelude::*;

use crate::parse::bytes_eq;
use crate::parse::copy_bytes;
use crate::table::attr;
use crate::table::attr_spec;
use crate::table::segs_view;
use crate::table::Attr;
use crate::table::GInode;
use crate::table::InodeKind;
use crate::table::InodeTable;

verus! {

/// A record is the child of directory id `parent` under `name` when its
/// parent id matches and its final path segment is `name`. The root
/// sentinel has no final segment and is never anybody's child.
pub open spec fn is_child(g: GInode, parent: u64, name: Seq<u8>) -> bool {
    &&& g.parent == parent as int
    &&& g.path.len() >= 1
    &&& g.path.last() == name
}

/// Clamps an offset into `[0, len]`, so out-of-range offsets denote the
/// empty range rather than an error.
pub open spec fn clamp_to(x: int, len: int) -> int {
    if x < 0 {
        0
    } else if x > len {
        len
    } else {
        x
    }
}

/// The segments of a path joined with `/` separators into one byte string.
pub open spec fn joined(p: Seq<Seq<u8>>) -> Seq<u8>
    decreases p.len(),
{
    if p.len() == 0 {
        Seq::empty()
    } else if p.len() == 1 {
        p[0]
    } else {
        joined(p.drop_last()) + seq![47u8] + p.last()
    }
}

/// One directory entry as reported to the transport: the entry's id, the
/// cursor value after it (its position + 1), its kind and its name.
#[verifier::ext_equal]
pub ghost struct GDirEntry {
    pub ino: u64,
    pub next_offset: int,
    pub kind: InodeKind,
    pub name: Seq<u8>,
}

/// One directory entry as handed back by `readdir`.
pub struct DirEntry {
    pub ino: u64,
    pub next_offset: i64,
    pub kind: InodeKind,
    pub name: Vec<u8>,
}

impl View for DirEntry {
    type V = GDirEntry;

    open spec fn view(&self) -> GDirEntry {
        GDirEntry {
            ino: self.ino,
            next_offset: self.next_offset as int,
            kind: self.kind,
            name: self.name@,
        }
    }
}

/// View of an entry list as its mathematical model.
pub open spec fn entries_view(v: Seq<DirEntry>) -> Seq<GDirEntry> {
    v.map_values(|e: DirEntry| e@)
}

/// The name `.`.
pub open spec fn dot_name() -> Seq<u8> {
    seq![46u8]
}

/// The name `..`.
pub open spec fn dotdot_name() -> Seq<u8> {
    seq![46u8, 46u8]
}

/// The children of directory id `ino` among the first `i` records, in
/// table order, numbered behind the two synthesized entries: the child at
/// overall position `pos` carries cursor `pos + 1`.
pub open spec fn child_entries(t: Seq<GInode>, ino: u64, i: int) -> Seq<GDirEntry>
    decreases i,
{
    if i <= 0 {
        Seq::empty()
    } else {
        let rest = child_entries(t, ino, i - 1);
        if t[i - 1].parent == ino as int && t[i - 1].path.len() >= 1 {
            rest.push(
                GDirEntry {
                    ino: i as u64,
                    next_offset: 3 + rest.len() as int,
                    kind: t[i - 1].kind,
                    name: t[i - 1].path.last(),
                },
            )
        } else {
            rest
        }
    }
}

/// The full synthesized listing of directory id `ino`: `.` and `..`
/// pointing at `ino` itself, then every child in table order.
pub open spec fn dir_entries(t: Seq<GInode>, ino: u64) -> Seq<GDirEntry> {
    seq![
        GDirEntry { ino: ino, next_offset: 1, kind: InodeKind::Directory, name: dot_name() },
        GDirEntry { ino: ino, next_offset: 2, kind: InodeKind::Directory, name: dotdot_name() },
    ] + child_entries(t, ino, t.len() as int)
}

/// Appending an entry to the generated listing keeps the emitted suffix in
/// step: once the cursor is reached the entry is emitted, before that
/// nothing has been.
proof fn lemma_skip_push(prefix: Seq<GDirEntry>, e: GDirEntry, offset: int)
    ensures
        prefix.len() >= offset ==> prefix.push(e).skip(clamp_to(offset, prefix.len() as int + 1))
            == prefix.skip(clamp_to(offset, prefix.len() as int)).push(e),
        prefix.len() < offset ==> prefix.push(e).skip(clamp_to(offset, prefix.len() as int + 1))
            == Seq::<GDirEntry>::empty() && prefix.skip(clamp_to(offset, prefix.len() as int))
            == Seq::<GDirEntry>::empty(),
{
    if prefix.len() >= offset {
        let c = clamp_to(offset, prefix.len() as int);
        assert(prefix.push(e).skip(c) =~= prefix.skip(c).push(e));
    } else {
        assert(prefix.push(e).skip(prefix.len() as int + 1) =~= Seq::<GDirEntry>::empty());
        assert(prefix.skip(prefix.len() as int) =~= Seq::<GDirEntry>::empty());
    }
}

/// The byte string `.`.
fn make_dot() -> (r: Vec<u8>)
    ensures
        r@ == dot_name(),
{
    let mut v: Vec<u8> = Vec::new();
    v.push(46u8);
    proof {
        assert(v@ =~= dot_name());
    }
    v
}

/// The byte string `..`.
fn make_dotdot() -> (r: Vec<u8>)
    ensures
        r@ == dotdot_name(),
{
    let mut v: Vec<u8> = Vec::new();
    v.push(46u8);
    v.push(46u8);
    proof {
        assert(v@ =~= dotdot_name());
    }
    v
}

impl InodeTable {
    /// Answers a lookup request: the first record in table order that is a
    /// child of directory id `parent` under `name`, reported as a
    /// synthesized attribute record carrying its id; `None` when no record
    /// matches.
    pub fn lookup(&self, parent: u64, name: &Vec<u8>) -> (r: Option<Attr>)
        ensures
            match r {
                Some(a) => {
                    &&& 1 <= a.ino <= self@.len()
                    &&& is_child(self@[a.ino - 1], parent, name@)
                    &&& a == attr_spec(a.ino, self@[a.ino - 1].kind)
                    &&& forall|k: int| 0 <= k < a.ino - 1 ==> !is_child(self@[k], parent, name@)
                },
                None => forall|k: int| 0 <= k < self@.len() ==> !is_child(self@[k], parent, name@),
            },
    {
        let ghost t = self@;
        let mut i: usize = 0;
        while i < self.inodes.len()
            invariant
                i <= t.len(),
                t == self@,
                forall|k: int| 0 <= k < i ==> !is_child(t[k], parent, name@),
            decreases t.len() - i,
        {
            proof {
                assert(t[i as int] == self.inodes@[i as int]@);
            }
            let node = &self.inodes[i];
            if node.parent_inode == parent && node.path.len() > 0 && bytes_eq(
                &node.path[node.path.len() - 1],
                name,
            ) {
                proof {
                    assert(segs_view(node.path@).last() == node.path@.last()@);
                    assert(is_child(t[i as int], parent, name@));
                }
                return Some(attr((i + 1) as u64, node.kind));
            }
            proof {
                if is_child(t[i as int], parent, name@) {
                    assert(segs_view(node.path@).last() == node.path@.last()@);
                    assert(false);
                }
            }
            i = i + 1;
        }
        None
    }

    /// Answers a getattr request: the synthesized attribute record of the
    /// record with id `ino`, or `None` when `ino` is outside `1..=len`.
    pub fn getattr(&self, ino: u64) -> (r: Option<Attr>)
        ensures
            1 <= ino <= self@.len() ==> r == Some(attr_spec(ino, self@[ino - 1].kind)),
            !(1 <= ino <= self@.len()) ==> r is None,
    {
        if ino >= 1 && ino <= self.inodes.len() as u64 {
            proof {
                assert(self@[ino - 1] == self.inodes@[ino - 1]@);
            }
            let node = &self.inodes[(ino - 1) as usize];
            Some(attr(ino, node.kind))
        } else {
            None
        }
    }

    /// The logical path of the record with id `ino`, its segments joined
    /// with `/`, as handed to the transform collaborator; `None` when
    /// `ino` is outside `1..=len`. The root's joined path is empty.
    pub fn path_of(&self, ino: u64) -> (r: Option<Vec<u8>>)
        ensures
            match r {
                Some(v) => 1 <= ino <= self@.len() && v@ == joined(self@[ino - 1].path),
                None => !(1 <= ino <= self@.len()),
            },
    {
        if !(ino >= 1 && ino <= self.inodes.len() as u64) {
            return None;
        }
        proof {
            assert(self@[ino - 1] == self.inodes@[ino - 1]@);
        }
        let segs = &self.inodes[(ino - 1) as usize].path;
        let ghost p = segs_view(segs@);
        let mut out: Vec<u8> = Vec::new();
        let mut k: usize = 0;
        proof {
            assert(p.take(0) =~= Seq::<Seq<u8>>::empty());
        }
        while k < segs.len()
            invariant
                k <= segs@.len(),
                p == segs_view(segs@),
                out@ == joined(p.take(k as int)),
            decreases segs@.len() - k,
        {
            if k > 0 {
                out.push(47u8);
            }
            let ghost before = out@;
            let mut j: usize = 0;
            while j < segs[k].len()
                invariant
                    j <= segs@[k as int]@.len(),
                    k < segs@.len(),
                    out@ == before + segs@[k as int]@.take(j as int),
                decreases segs@[k as int]@.len() - j,
            {
                out.push(segs[k][j]);
                proof {
                    assert(segs@[k as int]@.take(j + 1) =~= segs@[k as int]@.take(j as int).push(
                        segs@[k as int]@[j as int],
                    ));
                    assert(before + segs@[k as int]@.take(j as int).push(segs@[k as int]@[j as int])
                        =~= (before + segs@[k as int]@.take(j as int)).push(
                        segs@[k as int]@[j as int],
                    ));
                }
                j = j + 1;
            }
            proof {
                assert(segs@[k as int]@.take(segs@[k as int]@.len() as int) =~= segs@[k as int]@);
                assert(p[k as int] == segs@[k as int]@);
                assert(p.take(k + 1).drop_last() =~= p.take(k as int));
                assert(p.take(k + 1).last() == p[k as int]);
                if k == 0 {
                    assert(out@ =~= p[0]);
                    assert(joined(p.take(1)) == p.take(1)[0]);
                    assert(p.take(1)[0] == p[0]);
                } else {
                    assert(joined(p.take(k + 1)) == joined(p.take(k as int)) + seq![47u8] + p[
                        k as int
                    ]);
                    assert(out@ =~= joined(p.take(k as int)) + seq![47u8] + p[k as int]);
                }
            }
            k = k + 1;
        }
        proof {
            assert(p.take(p.len() as int) =~= p);
        }
        Some(out)
    }

    /// Answers a readdir request for directory id `ino` starting at cursor
    /// `offset`: the synthesized listing (`.`, `..`, then every child in
    /// table order) with the entries before position `offset` skipped;
    /// `None` when `ino` is outside `1..=len`.
    pub fn readdir(&self, ino: u64, offset: i64) -> (r: Option<Vec<DirEntry>>)
        requires
            self@.len() + 3 <= i64::MAX,
            self@.len() + 3 <= usize::MAX,
        ensures
            match r {
                Some(v) => {
                    &&& 1 <= ino <= self@.len()
                    &&& entries_view(v@) == dir_entries(self@, ino).skip(
                        clamp_to(offset as int, dir_entries(self@, ino).len() as int),
                    )
                },
                None => !(1 <= ino <= self@.len()),
            },
    {
        if !(ino >= 1 && ino <= self.inodes.len() as u64) {
            return None;
        }
        let ghost t = self@;
        let mut out: Vec<DirEntry> = Vec::new();
        let mut pos: usize = 0;
        let ghost mut prefix: Seq<GDirEntry> = Seq::empty();
        proof {
            assert(entries_view(out@) =~= prefix.skip(
                clamp_to(offset as int, prefix.len() as int),
            ));
        }
        let e0 = DirEntry { ino: ino, next_offset: 1, kind: InodeKind::Directory, name: make_dot() };
        proof {
            lemma_skip_push(prefix, e0@, offset as int);
            if pos as int >= offset {
                assert(entries_view(out@.push(e0)) =~= entries_view(out@).push(e0@));
            }
            prefix = prefix.push(e0@);
        }
        if 0 >= offset {
            out.push(e0);
        }
        pos = 1;
        let e1 = DirEntry {
            ino: ino,
            next_offset: 2,
            kind: InodeKind::Directory,
            name: make_dotdot(),
        };
        proof {
            lemma_skip_push(prefix, e1@, offset as int);
            if pos as int >= offset {
                assert(entries_view(out@.push(e1)) =~= entries_view(out@).push(e1@));
            }
            prefix = prefix.push(e1@);
        }
        if 1 >= offset {
            out.push(e1);
        }
        pos = 2;
        proof {
            assert(prefix =~= seq![e0@, e1@] + child_entries(t, ino, 0));
        }
        let mut i: usize = 0;
        while i < self.inodes.len()
            invariant
                i <= t.len(),
                t == self@,
                t.len() + 3 <= i64::MAX,
                t.len() + 3 <= usize::MAX,
                pos == prefix.len(),
                pos <= 2 + i,
                prefix == seq![
                    GDirEntry {
                        ino: ino,
                        next_offset: 1,
                        kind: InodeKind::Directory,
                        name: dot_name(),
                    },
                    GDirEntry {
                        ino: ino,
                        next_offset: 2,
                        kind: InodeKind::Directory,
                        name: dotdot_name(),
                    },
                ] + child_entries(t, ino, i as int),
                entries_view(out@) == prefix.skip(clamp_to(offset as int, prefix.len() as int)),
            decreases t.len() - i,
        {
            proof {
                assert(t[i as int] == self.inodes@[i as int]@);
            }
            let node = &self.inodes[i];
            if node.parent_inode == ino && node.path.len() > 0 {
                let name = copy_bytes(&node.path[node.path.len() - 1]);
                let e = DirEntry {
                    ino: (i + 1) as u64,
                    next_offset: (pos + 1) as i64,
                    kind: node.kind,
                    name: name,
                };
                proof {
                    assert(segs_view(node.path@).last() == node.path@.last()@);
                    let rest = child_entries(t, ino, i as int);
                    assert(child_entries(t, ino, i + 1) == rest.push(
                        GDirEntry {
                            ino: (i + 1) as u64,
                            next_offset: 3 + rest.len() as int,
                            kind: t[i as int].kind,
                            name: t[i as int].path.last(),
                        },
                    ));
                    assert(e@ =~= GDirEntry {
                        ino: (i + 1) as u64,
                        next_offset: 3 + rest.len() as int,
                        kind: t[i as int].kind,
                        name: t[i as int].path.last(),
                    });
                    lemma_skip_push(prefix, e@, offset as int);
                    if pos as int >= offset {
                        assert(entries_view(out@.push(e)) =~= entries_view(out@).push(e@));
                    }
                    prefix = prefix.push(e@);
                    assert(prefix =~= seq![
                        GDirEntry {
                            ino: ino,
                            next_offset: 1,
                            kind: InodeKind::Directory,
                            name: dot_name(),
                        },
                        GDirEntry {
                            ino: ino,
                            next_offset: 2,
                            kind: InodeKind::Directory,
                            name: dotdot_name(),
                        },
                    ] + child_entries(t, ino, i + 1));
                }
                if pos as i64 >= offset {
                    out.push(e);
                }
                pos = pos + 1;
            } else {
                proof {
                    assert(child_entries(t, ino, i + 1) == child_entries(t, ino, i as int));
                    assert(prefix =~= seq![
                        GDirEntry {
                            ino: ino,
                            next_offset: 1,
                            kind: InodeKind::Directory,
                            name: dot_name(),
                        },
                        GDirEntry {
                            ino: ino,
                            next_offset: 2,
                            kind: InodeKind::Directory,
                            name: dotdot_name(),
                        },
                    ] + child_entries(t, ino, i + 1));
                }
            }
            i = i + 1;
        }
        proof {
            assert(prefix =~= dir_entries(t, ino));
        }
        Some(out)
    }
}

/// Reading a file: the content's sub-range with both bounds clamped into
/// `[0, len]`, so an out-of-range offset yields an empty result rather
/// than an error.
pub fn read_bytes(data: &Vec<u8>, offset: i64, size: u32) -> (r: Vec<u8>)
    ensures
        r@ == data@.subrange(
            clamp_to(offset as int, data@.len() as int),
            clamp_to(offset as int + size as int, data@.len() as int),
        ),
        offset as int >= data@.len() ==> r@.len() == 0,
{
    let len = data.len();
    let from: usize = if offset <= 0 {
        0
    } else if (offset as u64) >= (len as u64) {
        len
    } else {
        offset as usize
    };
    let to: usize = if offset >= 0 {
        let o: u64 = offset as u64;
        if o >= len as u64 {
            len
        } else {
            let rem: u64 = len as u64 - o;
            if size as u64 >= rem {
                len
            } else {
                (o + size as u64) as usize
            }
        }
    } else {
        let end: i64 = offset + size as i64;
        if end <= 0 {
            0
        } else if (end as u64) >= (len as u64) {
            len
        } else {
            end as usize
        }
    };
    proof {
        assert(from as int == clamp_to(offset as int, data@.len() as int));
        assert(to as int == clamp_to(offset as int + size as int, data@.len() as int));
        assert(from <= to <= len);
    }
    let mut r: Vec<u8> = Vec::new();
    let mut i: usize = from;
    while i < to
        invariant
            from <= i <= to,
            to <= data@.len(),
            r@ == data@.subrange(from as int, i as int),
        decreases to - i,
    {
        r.push(data[i]);
        proof {
            assert(data@.subrange(from as int, i + 1) =~= data@.subrange(
                from as int,
                i as int,
            ).push(data@[i as int]));
        }
        i = i + 1;
    }
    r
}

} // verus!
