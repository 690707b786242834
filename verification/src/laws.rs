//! Global properties of the tree construction, stated over the
//! mathematical model of the built table.

use vstd::prelude::*;

use crate::parse::parse_paths;
use crate::tree::built_table;
use crate::tree::dirs_unique;
use crate::tree::lemma_build_props;
use crate::tree::table_wf;
use crate::tree::wf_at;

verus! {

/// Idempotence of tree construction: identical listing output gives
/// structurally identical tables — same ids, same parent links, same
/// kinds — because the table is a pure function of the listing bytes.
pub proof fn lemma_build_idempotent(l1: Seq<u8>, l2: Seq<u8>)
    requires
        l1 == l2,
    ensures
        built_table(l1) == built_table(l2),
{
}

/// Ancestor synthesis: in every built table the root sentinel sits at
/// index 0 and each other record's parent id names the first record whose
/// path is the record's own path without its final segment — so every
/// ancestor of a listed path is present, inserted before its children.
pub proof fn lemma_built_table_wf(listing: Seq<u8>)
    ensures
        table_wf(built_table(listing)),
{
    lemma_build_props(parse_paths(listing));
}

/// Directory reuse: a built table never holds two directory records with
/// the same path; an ancestor directory is synthesized at most once,
/// however many listed paths lie beneath it.
pub proof fn lemma_built_dirs_unique(listing: Seq<u8>)
    ensures
        dirs_unique(built_table(listing)),
{
    lemma_build_props(parse_paths(listing));
}

/// The parent of every non-root record was inserted no later than the
/// record itself, so parent links always point backwards into the table.
pub proof fn lemma_parents_precede(listing: Seq<u8>, i: int)
    requires
        1 <= i < built_table(listing).len(),
    ensures
        1 <= built_table(listing)[i].parent <= i,
        built_table(listing)[built_table(listing)[i].parent - 1].path == built_table(
            listing,
        )[i].path.drop_last(),
{
    lemma_build_props(parse_paths(listing));
    assert(wf_at(built_table(listing), i));
}

} // verus!
