pub mod binary;
pub mod kv;
pub mod steam_util;
pub mod wine_cask;

use vstd::prelude::*;

verus! {

/// Maps every element through a partial function and concatenates the pieces;
/// nothing when any element fails.
pub open spec fn flat_map_all<A, B>(s: Seq<A>, f: spec_fn(A) -> Option<Seq<B>>) -> Option<Seq<B>>
    decreases s.len(),
{
    if s.len() == 0 {
        Some(Seq::empty())
    } else {
        match (flat_map_all(s.drop_last(), f), f(s.last())) {
            (Some(rest), Some(bs)) => Some(rest + bs),
            _ => None,
        }
    }
}

/// One failing element fails the whole mapping.
pub proof fn lemma_flat_map_all_none<A, B>(s: Seq<A>, f: spec_fn(A) -> Option<Seq<B>>, i: int)
    requires
        0 <= i < s.len(),
        f(s[i]) is None,
    ensures
        flat_map_all(s, f) is None,
    decreases s.len(),
{
    if i < s.len() - 1 {
        lemma_flat_map_all_none(s.drop_last(), f, i);
    }
}

/// Joins two path components with a single separator.
pub fn path_join(base: &str, child: &str) -> (r: String)
    ensures
        r@ == base@ + "/"@ + child@,
{
    let mut s = base.to_owned();
    s.append("/");
    s.append(child);
    s
}

} // verus!
