//! Turning raw listing bytes into paths.
//!
//! The listing collaborator prints one path per line. The bytes are split on
//! newlines, blank lines are dropped, and each remaining line is split on
//! `/` into segments; empty segments and lone `.` segments are dropped, so
//! `./a//b` and `a/b` denote the same logical path.

use vstd::prelude::*;

use crate::table::paths_view;
use crate::table::segs_view;

verus! {

/// Splitting a byte string on a separator, keeping empty pieces; splitting
/// an empty string yields one empty piece, as the standard splitters do.
pub open spec fn split_on(b: Seq<u8>, sep: u8) -> Seq<Seq<u8>>
    decreases b.len(),
{
    if b.len() == 0 {
        seq![Seq::<u8>::empty()]
    } else if b[0] == sep {
        seq![Seq::<u8>::empty()] + split_on(b.drop_first(), sep)
    } else {
        let rest = split_on(b.drop_first(), sep);
        seq![seq![b[0]] + rest[0]] + rest.drop_first()
    }
}

/// The byte of an ASCII `.`.
pub open spec fn dot_byte() -> u8 {
    46u8
}

/// The path-segment separator `/`.
pub open spec fn slash_byte() -> u8 {
    47u8
}

/// The line separator.
pub open spec fn newline_byte() -> u8 {
    10u8
}

/// Keeps the pieces of a split line that are real segments: non-empty and
/// not a lone `.`.
pub open spec fn keep_segments(pieces: Seq<Seq<u8>>) -> Seq<Seq<u8>>
    decreases pieces.len(),
{
    if pieces.len() == 0 {
        Seq::empty()
    } else if pieces[0].len() == 0 || pieces[0] == seq![dot_byte()] {
        keep_segments(pieces.drop_first())
    } else {
        seq![pieces[0]] + keep_segments(pieces.drop_first())
    }
}

/// One line of listing output as a path: its `/`-separated segments,
/// normalized by dropping empty and `.` segments.
pub open spec fn parse_segments(line: Seq<u8>) -> Seq<Seq<u8>> {
    keep_segments(split_on(line, slash_byte()))
}

/// The paths of a sequence of lines, skipping blank lines.
pub open spec fn paths_of_lines(lines: Seq<Seq<u8>>) -> Seq<Seq<Seq<u8>>>
    decreases lines.len(),
{
    if lines.len() == 0 {
        Seq::empty()
    } else if lines[0].len() == 0 {
        paths_of_lines(lines.drop_first())
    } else {
        seq![parse_segments(lines[0])] + paths_of_lines(lines.drop_first())
    }
}

/// Complete parse of raw listing bytes: newline-separated lines, blank
/// lines dropped, each line read as a path.
pub open spec fn parse_paths(bytes: Seq<u8>) -> Seq<Seq<Seq<u8>>> {
    paths_of_lines(split_on(bytes, newline_byte()))
}

/// Sum of the lengths of a sequence of byte strings.
pub open spec fn sum_lens(s: Seq<Seq<u8>>) -> int
    decreases s.len(),
{
    if s.len() == 0 {
        0
    } else {
        s[0].len() + sum_lens(s.drop_first())
    }
}

/// Sum of the segment counts of a sequence of paths.
pub open spec fn sum_seg_counts(ps: Seq<Seq<Seq<u8>>>) -> int
    decreases ps.len(),
{
    if ps.len() == 0 {
        0
    } else {
        ps[0].len() + sum_seg_counts(ps.drop_first())
    }
}

/// Splitting accounts for every byte: the pieces' lengths plus the
/// separators between them add up to the input's length.
pub proof fn lemma_split_on_len(b: Seq<u8>, sep: u8)
    ensures
        split_on(b, sep).len() >= 1,
        sum_lens(split_on(b, sep)) + split_on(b, sep).len() - 1 == b.len(),
    decreases b.len(),
{
    if b.len() == 0 {
        let s = seq![Seq::<u8>::empty()];
        assert(split_on(b, sep) == s);
        assert(s.drop_first() =~= Seq::<Seq<u8>>::empty());
        assert(sum_lens(s) == s[0].len() + sum_lens(s.drop_first()));
        assert(sum_lens(Seq::<Seq<u8>>::empty()) == 0);
    } else if b[0] == sep {
        lemma_split_on_len(b.drop_first(), sep);
        let rest = split_on(b.drop_first(), sep);
        let s = seq![Seq::<u8>::empty()] + rest;
        assert(s.drop_first() =~= rest);
        assert(s[0] == Seq::<u8>::empty());
        assert(sum_lens(s) == s[0].len() + sum_lens(s.drop_first()));
    } else {
        lemma_split_on_len(b.drop_first(), sep);
        let rest = split_on(b.drop_first(), sep);
        let s = seq![seq![b[0]] + rest[0]] + rest.drop_first();
        assert(s.drop_first() =~= rest.drop_first());
        assert(s[0] == seq![b[0]] + rest[0]);
        assert(s[0].len() == 1 + rest[0].len());
        assert(sum_lens(s) == s[0].len() + sum_lens(s.drop_first()));
        assert(rest =~= seq![rest[0]] + rest.drop_first());
        assert(sum_lens(rest) == rest[0].len() + sum_lens(rest.drop_first()));
    }
}

/// Each kept segment is non-empty, so a line yields at most as many
/// segments as the pieces hold bytes.
pub proof fn lemma_keep_segments_count(pieces: Seq<Seq<u8>>)
    ensures
        keep_segments(pieces).len() <= sum_lens(pieces),
        sum_lens(pieces) >= 0,
    decreases pieces.len(),
{
    if pieces.len() == 0 {
    } else {
        lemma_keep_segments_count(pieces.drop_first());
    }
}

/// A line yields at most as many segments as it has bytes.
pub proof fn lemma_parse_segments_count(line: Seq<u8>)
    ensures
        parse_segments(line).len() <= line.len(),
{
    lemma_split_on_len(line, slash_byte());
    lemma_keep_segments_count(split_on(line, slash_byte()));
}

/// Total segment count over all lines is bounded by the total line length.
pub proof fn lemma_paths_of_lines_count(lines: Seq<Seq<u8>>)
    ensures
        sum_seg_counts(paths_of_lines(lines)) <= sum_lens(lines),
        sum_seg_counts(paths_of_lines(lines)) >= 0,
    decreases lines.len(),
{
    if lines.len() == 0 {
    } else {
        lemma_paths_of_lines_count(lines.drop_first());
        if lines[0].len() != 0 {
            lemma_parse_segments_count(lines[0]);
            let ps = seq![parse_segments(lines[0])] + paths_of_lines(lines.drop_first());
            assert(ps.drop_first() =~= paths_of_lines(lines.drop_first()));
        }
    }
}

/// The parsed paths of a listing hold at most one segment per input byte.
pub proof fn lemma_parse_paths_count(bytes: Seq<u8>)
    ensures
        0 <= sum_seg_counts(parse_paths(bytes)) <= bytes.len(),
{
    lemma_split_on_len(bytes, newline_byte());
    lemma_paths_of_lines_count(split_on(bytes, newline_byte()));
}

/// Appending one path adds its segment count to the total.
pub proof fn lemma_sum_seg_counts_push(ps: Seq<Seq<Seq<u8>>>, p: Seq<Seq<u8>>)
    ensures
        sum_seg_counts(ps.push(p)) == sum_seg_counts(ps) + p.len(),
    decreases ps.len(),
{
    if ps.len() == 0 {
        assert(ps.push(p).drop_first() =~= Seq::<Seq<Seq<u8>>>::empty());
        assert(ps.push(p)[0] == p);
        assert(sum_seg_counts(ps.push(p)) == p.len() + sum_seg_counts(ps.push(p).drop_first()));
    } else {
        assert(ps.push(p).drop_first() =~= ps.drop_first().push(p));
        assert(ps.push(p)[0] == ps[0]);
        assert(sum_seg_counts(ps.push(p)) == ps[0].len() + sum_seg_counts(
            ps.push(p).drop_first(),
        ));
        lemma_sum_seg_counts_push(ps.drop_first(), p);
    }
}

/// Every prefix of a path list has a total segment count no larger than
/// the whole list's.
pub proof fn lemma_sum_seg_counts_take(ps: Seq<Seq<Seq<u8>>>, k: int)
    requires
        0 <= k <= ps.len(),
    ensures
        sum_seg_counts(ps.take(k)) <= sum_seg_counts(ps),
        sum_seg_counts(ps.take(k)) >= 0,
    decreases ps.len() - k,
{
    if k == ps.len() {
        assert(ps.take(k) =~= ps);
        lemma_sum_seg_counts_nonneg(ps);
    } else {
        assert(ps.take(k + 1) =~= ps.take(k).push(ps[k]));
        lemma_sum_seg_counts_push(ps.take(k), ps[k]);
        lemma_sum_seg_counts_take(ps, k + 1);
        lemma_sum_seg_counts_nonneg(ps.take(k));
    }
}

/// Segment counts are non-negative.
pub proof fn lemma_sum_seg_counts_nonneg(ps: Seq<Seq<Seq<u8>>>)
    ensures
        sum_seg_counts(ps) >= 0,
    decreases ps.len(),
{
    if ps.len() > 0 {
        lemma_sum_seg_counts_nonneg(ps.drop_first());
    }
}

/// Compares two byte strings.
pub fn bytes_eq(a: &Vec<u8>, b: &Vec<u8>) -> (r: bool)
    ensures
        r <==> a@ == b@,
{
    if a.len() != b.len() {
        return false;
    }
    let mut i: usize = 0;
    while i < a.len()
        invariant
            i <= a@.len(),
            a@.len() == b@.len(),
            forall|k: int| 0 <= k < i ==> a@[k] == b@[k],
        decreases a@.len() - i,
    {
        if a[i] != b[i] {
            return false;
        }
        i = i + 1;
    }
    proof {
        assert(a@ =~= b@);
    }
    true
}

/// Copies a byte string.
pub fn copy_bytes(v: &Vec<u8>) -> (r: Vec<u8>)
    ensures
        r@ == v@,
{
    let mut r: Vec<u8> = Vec::new();
    let mut i: usize = 0;
    while i < v.len()
        invariant
            i <= v@.len(),
            r@ == v@.take(i as int),
        decreases v@.len() - i,
    {
        r.push(v[i]);
        proof {
            assert(v@.take(i + 1) =~= v@.take(i as int).push(v@[i as int]));
        }
        i = i + 1;
    }
    proof {
        assert(v@.take(v@.len() as int) =~= v@);
    }
    r
}

/// Splits `bytes` on the separator, keeping empty pieces, exactly as
/// `split_on` describes.
pub fn split_bytes(bytes: &Vec<u8>, sep: u8) -> (r: Vec<Vec<u8>>)
    ensures
        segs_view(r@) == split_on(bytes@, sep),
{
    let ghost all = bytes@;
    let mut done: Vec<Vec<u8>> = Vec::new();
    let mut cur: Vec<u8> = Vec::new();
    let mut i: usize = 0;
    proof {
        lemma_split_on_len(all, sep);
        assert(all.skip(0) =~= all);
        assert(prepend_first(Seq::empty(), split_on(all, sep)) =~= split_on(all, sep));
    }
    while i < bytes.len()
        invariant
            i <= all.len(),
            bytes@ == all,
            split_on(all, sep) == segs_view(done@) + prepend_first(cur@, split_on(all.skip(i as int), sep)),
        decreases all.len() - i,
    {
        proof {
            lemma_split_on_len(all.skip(i as int), sep);
            lemma_split_on_len(all.skip(i + 1), sep);
            assert(all.skip(i as int).len() > 0);
            assert(all.skip(i as int)[0] == all[i as int]);
            assert(all.skip(i as int).drop_first() =~= all.skip(i + 1));
        }
        let b = bytes[i];
        if b == sep {
            proof {
                let tail = split_on(all.skip(i + 1), sep);
                assert(split_on(all.skip(i as int), sep) =~= seq![Seq::<u8>::empty()] + tail);
                assert(prepend_first(cur@, seq![Seq::<u8>::empty()] + tail) =~= seq![cur@] + tail);
                assert(segs_view(done@.push(cur)) =~= segs_view(done@) + seq![cur@]);
                assert(segs_view(done@) + (seq![cur@] + tail) =~= segs_view(done@.push(cur))
                    + prepend_first(Seq::empty(), tail));
                assert(prepend_first(Seq::empty(), tail) =~= tail);
            }
            done.push(cur);
            cur = Vec::new();
        } else {
            proof {
                let tail = split_on(all.skip(i + 1), sep);
                let s_i = split_on(all.skip(i as int), sep);
                assert(s_i =~= seq![seq![all[i as int]] + tail[0]] + tail.drop_first());
                assert(s_i[0] == seq![all[i as int]] + tail[0]);
                assert(s_i.drop_first() =~= tail.drop_first());
                assert(cur@ + s_i[0] =~= cur@.push(all[i as int]) + tail[0]);
                assert(prepend_first(cur@, s_i) =~= prepend_first(cur@.push(all[i as int]), tail));
            }
            cur.push(b);
        }
        i = i + 1;
    }
    proof {
        assert(all.skip(all.len() as int) =~= Seq::<u8>::empty());
        assert(prepend_first(cur@, split_on(all.skip(all.len() as int), sep)) =~= seq![cur@]);
    }
    done.push(cur);
    proof {
        assert(segs_view(done@) =~= segs_view(done@.drop_last()) + seq![done@.last()@]);
    }
    done
}

/// A split in progress: the current piece prefixed onto the first piece of
/// what remains to be split.
pub open spec fn prepend_first(c: Seq<u8>, s: Seq<Seq<u8>>) -> Seq<Seq<u8>>
    recommends
        s.len() >= 1,
{
    seq![c + s[0]] + s.drop_first()
}

/// True exactly when the piece is a real segment: non-empty and not `.`.
fn is_real_segment(s: &Vec<u8>) -> (r: bool)
    ensures
        r <==> (s@.len() != 0 && s@ != seq![dot_byte()]),
{
    if s.len() == 0 {
        false
    } else if s.len() == 1 && s[0] == 46u8 {
        proof {
            assert(s@ =~= seq![dot_byte()]);
        }
        false
    } else {
        proof {
            if s@ == seq![dot_byte()] {
                assert(s@.len() == 1 && s@[0] == 46u8);
            }
        }
        true
    }
}

/// Splits one line into its path segments, dropping empty and `.` pieces.
fn line_to_path(line: &Vec<u8>) -> (r: Vec<Vec<u8>>)
    ensures
        segs_view(r@) == parse_segments(line@),
{
    let pieces = split_bytes(line, 47u8);
    let ghost ps = segs_view(pieces@);
    let mut r: Vec<Vec<u8>> = Vec::new();
    let mut i: usize = 0;
    proof {
        assert(ps.skip(0) =~= ps);
    }
    while i < pieces.len()
        invariant
            i <= pieces@.len(),
            ps == segs_view(pieces@),
            parse_segments(line@) == segs_view(r@) + keep_segments(ps.skip(i as int)),
        decreases pieces@.len() - i,
    {
        proof {
            assert(ps.skip(i as int).len() > 0);
            assert(ps.skip(i as int)[0] == ps[i as int]);
            assert(ps.skip(i as int).drop_first() =~= ps.skip(i + 1));
        }
        if is_real_segment(&pieces[i]) {
            let seg = copy_bytes(&pieces[i]);
            proof {
                assert(keep_segments(ps.skip(i as int)) =~= seq![ps[i as int]] + keep_segments(
                    ps.skip(i + 1),
                ));
                assert(segs_view(r@.push(seg)) =~= segs_view(r@) + seq![seg@]);
            }
            r.push(seg);
        }
        i = i + 1;
    }
    proof {
        assert(ps.skip(ps.len() as int) =~= Seq::<Seq<u8>>::empty());
    }
    r
}

/// Parses raw listing bytes into the list of paths the table is built
/// from: one path per non-blank line, each a list of byte segments.
pub fn parse_listing(bytes: &Vec<u8>) -> (r: Vec<Vec<Vec<u8>>>)
    ensures
        paths_view(r@) == parse_paths(bytes@),
{
    let lines = split_bytes(bytes, 10u8);
    let ghost ls = segs_view(lines@);
    let mut r: Vec<Vec<Vec<u8>>> = Vec::new();
    let mut i: usize = 0;
    proof {
        assert(ls.skip(0) =~= ls);
    }
    while i < lines.len()
        invariant
            i <= lines@.len(),
            ls == segs_view(lines@),
            parse_paths(bytes@) == paths_view(r@) + paths_of_lines(ls.skip(i as int)),
        decreases lines@.len() - i,
    {
        proof {
            assert(ls.skip(i as int).len() > 0);
            assert(ls.skip(i as int)[0] == ls[i as int]);
            assert(ls.skip(i as int).drop_first() =~= ls.skip(i + 1));
        }
        if lines[i].len() > 0 {
            let path = line_to_path(&lines[i]);
            proof {
                assert(paths_of_lines(ls.skip(i as int)) =~= seq![parse_segments(ls[i as int])]
                    + paths_of_lines(ls.skip(i + 1)));
                assert(paths_view(r@.push(path)) =~= paths_view(r@) + seq![segs_view(path@)]);
            }
            r.push(path);
        }
        i = i + 1;
    }
    proof {
        assert(ls.skip(ls.len() as int) =~= Seq::<Seq<u8>>::empty());
    }
    r
}

} // verus!
