//! Building the inode table from listing paths.
//!
//! Each path is inserted behind all of its ancestors: a missing ancestor
//! directory is synthesized exactly once, an existing one is found again by
//! a first-match scan over the table. The whole construction is a pure
//! function of the parsed listing, stated by `build_spec`.

use vstd::prelude::*;

use crate::parse::bytes_eq;
use crate::parse::copy_bytes;
use crate::parse::lemma_parse_paths_count;
use crate::parse::lemma_sum_seg_counts_push;
use crate::parse::lemma_sum_seg_counts_take;
use crate::parse::parse_listing;
use crate::parse::parse_paths;
use crate::parse::sum_seg_counts;
use crate::table::paths_view;
use crate::table::root_ginode;
use crate::table::segs_view;
use crate::table::table_view;
use crate::table::GInode;
use crate::table::Inode;
use crate::table::InodeKind;
use crate::table::InodeTable;

verus! {

/// The first table index holding exactly path `p`, scanning in insertion
/// order, or `None` when no record has that path.
pub open spec fn find_path(t: Seq<GInode>, p: Seq<Seq<u8>>) -> Option<int>
    decreases t.len(),
{
    if t.len() == 0 {
        None
    } else if t[0].path == p {
        Some(0)
    } else {
        match find_path(t.drop_first(), p) {
            Some(j) => Some(j + 1),
            None => None,
        }
    }
}

/// Index `j` is the first record whose path is `p`.
pub open spec fn is_first_with_path(t: Seq<GInode>, j: int, p: Seq<Seq<u8>>) -> bool {
    &&& 0 <= j < t.len()
    &&& t[j].path == p
    &&& forall|k: int| 0 <= k < j ==> t[k].path != p
}

/// `find_path` returns the first matching index, or `None` exactly when no
/// record matches.
pub proof fn lemma_find_path_char(t: Seq<GInode>, p: Seq<Seq<u8>>)
    ensures
        match find_path(t, p) {
            Some(j) => is_first_with_path(t, j, p),
            None => forall|k: int| 0 <= k < t.len() ==> t[k].path != p,
        },
    decreases t.len(),
{
    if t.len() > 0 && t[0].path != p {
        lemma_find_path_char(t.drop_first(), p);
        assert(forall|k: int| 1 <= k < t.len() ==> t[k] == t.drop_first()[k - 1]);
    }
}

/// Inserting path `p`: the table after the insertion, and the id given to
/// `p`'s record. The parent is found by the first-match scan or created
/// recursively as a directory; a root (empty) path is never appended and
/// always answers to id 1.
pub open spec fn insert_path_spec(t: Seq<GInode>, p: Seq<Seq<u8>>, kind: InodeKind) -> (Seq<
    GInode,
>, int)
    decreases p.len(),
{
    if p.len() == 0 {
        (t, 1)
    } else {
        let parent = p.drop_last();
        let (t1, pid) = match find_path(t, parent) {
            Some(j) => (t, j + 1),
            None => insert_path_spec(t, parent, InodeKind::Directory),
        };
        (t1.push(GInode { path: p, kind: kind, parent: pid }), t1.len() as int + 1)
    }
}

/// Table well-formedness: the root sentinel sits at index 0, and every
/// other record's parent id names the first record whose path is this
/// record's path without its last segment — an already-present record,
/// inserted before its child.
pub open spec fn wf_at(t: Seq<GInode>, i: int) -> bool {
    &&& t[i].path.len() >= 1
    &&& 1 <= t[i].parent <= i
    &&& is_first_with_path(t, t[i].parent - 1, t[i].path.drop_last())
}

pub open spec fn table_wf(t: Seq<GInode>) -> bool {
    &&& t.len() >= 1
    &&& t[0] == root_ginode()
    &&& forall|i: int| 1 <= i < t.len() ==> wf_at(t, i)
}

/// No two directory records share a path: ancestors are synthesized at
/// most once, however many descendants name them.
pub open spec fn dirs_unique(t: Seq<GInode>) -> bool {
    forall|i: int, j: int|
        0 <= i < j < t.len() && t[i].kind is Directory && t[j].kind is Directory ==> t[i].path
            != t[j].path
}

/// What one insertion does to a well-formed table: it stays well-formed,
/// existing records are untouched, at most `p.len()` records are added,
/// the synthesized intermediates are directories with shorter paths, and a
/// non-root `p` itself becomes the last record, whose id is returned.
pub proof fn lemma_insert_props(t: Seq<GInode>, p: Seq<Seq<u8>>, kind: InodeKind)
    requires
        table_wf(t),
        dirs_unique(t),
        kind is Directory ==> forall|k: int| 0 <= k < t.len() ==> t[k].path != p,
    ensures
        ({
            let (t1, id) = insert_path_spec(t, p, kind);
            &&& table_wf(t1)
            &&& dirs_unique(t1)
            &&& t.len() <= t1.len() <= t.len() + p.len()
            &&& t1.take(t.len() as int) == t
            &&& forall|k: int|
                t.len() <= k < t1.len() - 1 ==> t1[k].path.len() < p.len() && t1[k].kind
                    is Directory
            &&& (p.len() == 0 ==> t1 == t && id == 1)
            &&& (p.len() >= 1 ==> t1.len() > t.len() && t1.last().path == p && t1.last().kind
                == kind && id == t1.len())
            &&& 1 <= id <= t1.len()
        }),
    decreases p.len(),
{
    if p.len() == 0 {
        assert(insert_path_spec(t, p, kind).0.take(t.len() as int) =~= t);
    } else {
        let parent = p.drop_last();
        let found = find_path(t, parent);
        lemma_find_path_char(t, parent);
        if let Some(j) = found {
            let new = GInode { path: p, kind: kind, parent: j + 1 };
            let t1 = t.push(new);
            assert(t1.take(t.len() as int) =~= t);
            assert(forall|i: int| 0 <= i < t.len() ==> t1[i] == t[i]);
            assert(wf_at(t1, t.len() as int)) by {
                assert(t1[t.len() as int] == new);
                assert(t1[j].path == parent);
            }
            assert forall|i: int| 1 <= i < t.len() implies wf_at(t1, i) by {
                assert(wf_at(t, i));
                assert(forall|k: int| 0 <= k <= i ==> t1[k] == t[k]);
            }
        } else {
            let (t2, pid) = insert_path_spec(t, parent, InodeKind::Directory);
            lemma_insert_props(t, parent, InodeKind::Directory);
            let new = GInode { path: p, kind: kind, parent: pid };
            let t1 = t2.push(new);
            assert(t1.take(t.len() as int) =~= t2.take(t.len() as int));
            assert(forall|i: int| 0 <= i < t2.len() ==> t1[i] == t2[i]);
            assert forall|k: int| 0 <= k < t.len() implies t2[k] == t[k] by {
                assert(t2.take(t.len() as int)[k] == t2[k]);
            }
            if parent.len() == 0 {
                assert(t2 == t && pid == 1);
                assert(wf_at(t1, t2.len() as int)) by {
                    assert(t1[0].path == parent);
                }
            } else {
                assert(wf_at(t1, t2.len() as int)) by {
                    assert(t1[pid - 1].path == parent);
                    assert forall|k: int| 0 <= k < pid - 1 implies t1[k].path != parent by {
                        if k < t.len() {
                            assert(t1[k] == t[k]);
                        } else {
                            assert(t1[k].path.len() < parent.len());
                        }
                    }
                }
            }
            assert forall|i: int| 1 <= i < t2.len() implies wf_at(t1, i) by {
                assert(wf_at(t2, i));
                assert(forall|k: int| 0 <= k <= i ==> t1[k] == t2[k]);
            }
            if kind is Directory {
                assert forall|k: int| 0 <= k < t2.len() implies t2[k].path != p by {
                    if k < t.len() {
                        assert(t2[k] == t[k]);
                        assert(t[k].path != p);
                    } else if k < t2.len() - 1 {
                        assert(t2[k].path.len() < parent.len());
                        assert(parent.len() < p.len());
                    } else {
                        assert(t2[k].path == parent);
                        assert(parent.len() < p.len());
                    }
                }
            }
        }
    }
}

/// The table built from a list of paths, starting from the lone root
/// sentinel and inserting each path in listing order as a regular file.
pub open spec fn build_spec(paths: Seq<Seq<Seq<u8>>>) -> Seq<GInode>
    decreases paths.len(),
{
    if paths.len() == 0 {
        seq![root_ginode()]
    } else {
        insert_path_spec(build_spec(paths.drop_last()), paths.last(), InodeKind::RegularFile).0
    }
}

/// The table built from raw listing bytes.
pub open spec fn built_table(bytes: Seq<u8>) -> Seq<GInode> {
    build_spec(parse_paths(bytes))
}

/// Every built table is well-formed, has no duplicate directory, and holds
/// at most one record per inserted segment beside the root.
pub proof fn lemma_build_props(paths: Seq<Seq<Seq<u8>>>)
    ensures
        table_wf(build_spec(paths)),
        dirs_unique(build_spec(paths)),
        build_spec(paths).len() <= 1 + sum_seg_counts(paths),
    decreases paths.len(),
{
    if paths.len() == 0 {
        let t = seq![root_ginode()];
        assert(t[0] == root_ginode());
        assert(sum_seg_counts(paths) == 0);
    } else {
        lemma_build_props(paths.drop_last());
        lemma_insert_props(build_spec(paths.drop_last()), paths.last(), InodeKind::RegularFile);
        assert(paths =~= paths.drop_last().push(paths.last()));
        lemma_sum_seg_counts_push(paths.drop_last(), paths.last());
    }
}

/// True exactly when `a` equals the first `n` segments of `segs`.
fn path_prefix_eq(a: &Vec<Vec<u8>>, segs: &Vec<Vec<u8>>, n: usize) -> (r: bool)
    requires
        n <= segs@.len(),
    ensures
        r <==> segs_view(a@) == segs_view(segs@).take(n as int),
{
    if a.len() != n {
        proof {
            assert(segs_view(a@).len() == a@.len());
        }
        return false;
    }
    let mut i: usize = 0;
    while i < n
        invariant
            i <= n,
            n <= segs@.len(),
            a@.len() == n,
            forall|k: int| 0 <= k < i ==> a@[k]@ == segs@[k]@,
        decreases n - i,
    {
        if !bytes_eq(&a[i], &segs[i]) {
            proof {
                assert(segs_view(a@)[i as int] == a@[i as int]@);
                assert(segs_view(segs@).take(n as int)[i as int] == segs@[i as int]@);
            }
            return false;
        }
        i = i + 1;
    }
    proof {
        assert(segs_view(a@) =~= segs_view(segs@).take(n as int));
    }
    true
}

/// Copies the first `n` segments of a path.
fn clone_prefix(segs: &Vec<Vec<u8>>, n: usize) -> (r: Vec<Vec<u8>>)
    requires
        n <= segs@.len(),
    ensures
        segs_view(r@) == segs_view(segs@).take(n as int),
{
    let mut r: Vec<Vec<u8>> = Vec::new();
    let mut i: usize = 0;
    while i < n
        invariant
            i <= n,
            n <= segs@.len(),
            r@.len() == i,
            forall|k: int| 0 <= k < i ==> r@[k]@ == segs@[k]@,
        decreases n - i,
    {
        let seg = copy_bytes(&segs[i]);
        r.push(seg);
        i = i + 1;
    }
    proof {
        assert(segs_view(r@) =~= segs_view(segs@).take(n as int));
    }
    r
}

/// Scans the table in insertion order for the first record whose path is
/// the first `n` segments of `segs`.
fn find_path_index(inodes: &Vec<Inode>, segs: &Vec<Vec<u8>>, n: usize) -> (r: Option<usize>)
    requires
        n <= segs@.len(),
    ensures
        ({
            let p = segs_view(segs@).take(n as int);
            match r {
                Some(j) => j < inodes@.len() && find_path(table_view(inodes@), p) == Some(j as int),
                None => find_path(table_view(inodes@), p) is None,
            }
        }),
{
    let ghost t = table_view(inodes@);
    let ghost p = segs_view(segs@).take(n as int);
    proof {
        lemma_find_path_char(t, p);
    }
    let mut i: usize = 0;
    while i < inodes.len()
        invariant
            i <= inodes@.len(),
            t == table_view(inodes@),
            p == segs_view(segs@).take(n as int),
            n <= segs@.len(),
            forall|k: int| 0 <= k < i ==> t[k].path != p,
        decreases inodes@.len() - i,
    {
        if path_prefix_eq(&inodes[i].path, segs, n) {
            proof {
                assert(t[i as int].path == segs_view(inodes@[i as int].path@));
                assert(t[i as int].path == p);
                lemma_find_path_char(t, p);
                match find_path(t, p) {
                    Some(j) => {
                        assert(is_first_with_path(t, j, p));
                        assert(j == i as int);
                    },
                    None => {
                        assert(false);
                    },
                }
            }
            return Some(i);
        }
        proof {
            assert(t[i as int].path == segs_view(inodes@[i as int].path@));
        }
        i = i + 1;
    }
    proof {
        lemma_find_path_char(t, p);
        match find_path(t, p) {
            Some(j) => {
                assert(is_first_with_path(t, j, p));
                assert(false);
            },
            None => {},
        }
    }
    None
}

/// Inserts the path made of the first `n` segments of `segs`, creating
/// missing ancestor directories first, and returns the id of its record.
fn insert_prefix(inodes: &mut Vec<Inode>, segs: &Vec<Vec<u8>>, n: usize, kind: InodeKind) -> (id:
    u64)
    requires
        n <= segs@.len(),
        old(inodes)@.len() + n <= usize::MAX,
    ensures
        ({
            let (t1, sid) = insert_path_spec(
                table_view(old(inodes)@),
                segs_view(segs@).take(n as int),
                kind,
            );
            &&& table_view(final(inodes)@) == t1
            &&& id as int == sid
            &&& final(inodes)@.len() <= old(inodes)@.len() + n
        }),
    decreases n,
{
    let ghost t = table_view(old(inodes)@);
    let ghost p = segs_view(segs@).take(n as int);
    if n == 0 {
        proof {
            assert(p =~= Seq::<Seq<u8>>::empty());
        }
        return 1;
    }
    let ghost parent = p.drop_last();
    proof {
        assert(parent =~= segs_view(segs@).take(n - 1));
    }
    let pid: u64 = match find_path_index(inodes, segs, n - 1) {
        Some(j) => (j + 1) as u64,
        None => insert_prefix(inodes, segs, n - 1, InodeKind::Directory),
    };
    let path = clone_prefix(segs, n);
    let node = Inode { path: path, kind: kind, parent_inode: pid };
    proof {
        let t1 = if find_path(t, parent) is Some {
            t
        } else {
            insert_path_spec(t, parent, InodeKind::Directory).0
        };
        assert(table_view(inodes@) == t1);
        assert(node@ == GInode { path: p, kind: kind, parent: pid as int });
        assert(table_view(inodes@.push(node)) =~= table_view(inodes@).push(node@));
    }
    inodes.push(node);
    let id = inodes.len() as u64;
    id
}

impl InodeTable {
    /// Builds the inode table for one request from the raw bytes the
    /// listing collaborator printed: root sentinel first, then every path
    /// of every non-blank line as a regular file behind its (possibly
    /// synthesized) ancestor directories.
    ///
    /// The result is a pure function of the listing bytes, well-formed,
    /// and never synthesizes the same directory twice.
    pub fn build(listing: &Vec<u8>) -> (r: InodeTable)
        requires
            listing@.len() < usize::MAX,
        ensures
            r@ == built_table(listing@),
            table_wf(r@),
            dirs_unique(r@),
    {
        let paths = parse_listing(listing);
        let ghost ps = paths_view(paths@);
        proof {
            lemma_parse_paths_count(listing@);
        }
        let mut t = InodeTable::new();
        let mut k: usize = 0;
        proof {
            assert(ps.take(0) =~= Seq::<Seq<Seq<u8>>>::empty());
            assert(t@ == build_spec(ps.take(0)));
        }
        while k < paths.len()
            invariant
                k <= paths@.len(),
                ps == paths_view(paths@),
                ps == parse_paths(listing@),
                listing@.len() < usize::MAX,
                t@ == build_spec(ps.take(k as int)),
                table_view(t.inodes@) == t@,
            decreases paths@.len() - k,
        {
            proof {
                lemma_build_props(ps.take(k as int));
                lemma_sum_seg_counts_take(ps, k as int);
                lemma_sum_seg_counts_take(ps, k + 1);
                lemma_sum_seg_counts_push(ps.take(k as int), ps[k as int]);
                lemma_parse_paths_count(listing@);
                assert(ps.take(k + 1) =~= ps.take(k as int).push(ps[k as int]));
                assert(t.inodes@.len() + ps[k as int].len() <= usize::MAX);
                assert(ps[k as int] == segs_view(paths@[k as int]@));
            }
            let n = paths[k].len();
            insert_prefix(&mut t.inodes, &paths[k], n, InodeKind::RegularFile);
            proof {
                assert(segs_view(paths@[k as int]@).take(n as int) =~= ps[k as int]);
                assert(build_spec(ps.take(k + 1)) == insert_path_spec(
                    build_spec(ps.take(k as int)),
                    ps[k as int],
                    InodeKind::RegularFile,
                ).0) by {
                    assert(ps.take(k + 1).drop_last() =~= ps.take(k as int));
                    assert(ps.take(k + 1).last() == ps[k as int]);
                }
            }
            k = k + 1;
        }
        proof {
            assert(ps.take(ps.len() as int) =~= ps);
            lemma_build_props(ps);
        }
        t
    }
}

} // verus!
