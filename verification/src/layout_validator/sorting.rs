//! What it means for a sequence to be another one, stably sorted.

use vstd::prelude::*;

verus! {

/// True if `p` lists the indices below `n`, each once.
pub open spec fn is_index_permutation(p: Seq<int>, n: nat) -> bool {
    &&& p.len() == n
    &&& p.no_duplicates()
    &&& forall|i: int| 0 <= i < n ==> 0 <= #[trigger] p[i] < n
}

/// True if `r` holds the items of `s` in the order `p`: the item at `i` in
/// `r` stood at `p[i]` in `s`.
pub open spec fn is_rearranged<T>(r: Seq<T>, s: Seq<T>, p: Seq<int>) -> bool {
    &&& is_index_permutation(p, s.len())
    &&& r.len() == s.len()
    &&& forall|i: int| 0 <= i < r.len() ==> #[trigger] r[i] == s[p[i]]
}

/// True if the items of `r` ascend by `le`.
pub open spec fn is_sorted_by<T>(r: Seq<T>, le: spec_fn(T, T) -> bool) -> bool {
    forall|i: int, j: int| 0 <= i < j < r.len() ==> le(#[trigger] r[i], #[trigger] r[j])
}

/// True if items that `le` does not tell apart stand in `r` as they stood
/// in `s`, where `p` says where each item of `r` stood.
pub open spec fn keeps_ties<T>(r: Seq<T>, p: Seq<int>, le: spec_fn(T, T) -> bool) -> bool {
    forall|i: int, j: int|
        0 <= i < j < r.len() && le(r[j], r[i]) ==> #[trigger] p[i] < #[trigger] p[j]
}

/// True if `r` is `s` sorted by `le`, with ties left in their order.
pub open spec fn is_stable_sort<T>(r: Seq<T>, s: Seq<T>, le: spec_fn(T, T) -> bool) -> bool {
    &&& is_sorted_by(r, le)
    &&& r.to_multiset() == s.to_multiset()
    &&& exists|p: Seq<int>| is_rearranged(r, s, p) && keeps_ties(r, p, le)
}

} // verus!
