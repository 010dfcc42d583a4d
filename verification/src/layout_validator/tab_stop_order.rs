//! The order of tab stops: horizontal before vertical, then by position.

use itertools::Itertools;
use std::cmp::Ordering;
use vstd::prelude::*;
use super::sorting::is_stable_sort;
use super::tab_stops::{Orientation, TabStop};

verus! {

/// True if `a` comes before `b`: a horizontal tab stop before a vertical
/// one, and of two that run the same way the one at the lower position.
pub open spec fn tab_stop_lt(a: TabStop, b: TabStop) -> bool {
    if a.orientation == b.orientation {
        a.pos < b.pos
    } else {
        a.orientation == Orientation::Horizontal
    }
}

/// True if `a` does not come after `b`.
pub open spec fn tab_stop_le(a: TabStop, b: TabStop) -> bool {
    a == b || tab_stop_lt(a, b)
}

/// True if `r` holds the tab stops of `s` in ascending order, with equal tab
/// stops left in their order.
pub open spec fn is_sorted_stops(r: Seq<TabStop>, s: Seq<TabStop>) -> bool {
    is_stable_sort(r, s, |a: TabStop, b: TabStop| tab_stop_le(a, b))
}

/// Compares two tab stops, first by orientation and then by position.
pub fn compare_tab_stops(a: &TabStop, b: &TabStop) -> (r: Ordering)
    ensures
        match r {
            Ordering::Less => tab_stop_lt(*a, *b),
            Ordering::Equal => *a == *b,
            Ordering::Greater => tab_stop_lt(*b, *a),
        },
{
    match (a.orientation, b.orientation) {
        (Orientation::Horizontal, Orientation::Vertical) => Ordering::Less,
        (Orientation::Vertical, Orientation::Horizontal) => Ordering::Greater,
        _ => {
            if a.pos < b.pos {
                Ordering::Less
            } else if a.pos > b.pos {
                Ordering::Greater
            } else {
                Ordering::Equal
            }
        },
    }
}

/// Calls `Itertools::sorted_by` with [`compare_tab_stops`]. The call collects
/// the items into a vector and sorts it with the stable `slice::sort_by`: what
/// comes back holds the same tab stops, ascending, and tab stops that compare
/// equal keep their order. This is taken from the documentation of the two
/// functions, and not proved.
#[verifier::external_body]
pub(crate) fn sort_tab_stops(stops: Vec<TabStop>) -> (r: Vec<TabStop>)
    ensures
        is_sorted_stops(r@, stops@),
{
    stops.into_iter().sorted_by(|a, b| compare_tab_stops(a, b))
}

/// What sorting does to tab stops of which none occurs twice: the same tab
/// stops come back, each once, in strictly ascending order.
pub proof fn lemma_sorted_stops(r: Seq<TabStop>, s: Seq<TabStop>)
    requires
        is_sorted_stops(r, s),
        s.no_duplicates(),
    ensures
        r.len() == s.len(),
        r.no_duplicates(),
        forall|x: TabStop| r.contains(x) <==> s.contains(x),
        forall|i: int, j: int| 0 <= i < j < r.len() ==> tab_stop_lt(#[trigger] r[i], #[trigger] r[j]),
{
    r.to_multiset_ensures();
    s.to_multiset_ensures();
    s.lemma_multiset_has_no_duplicates();
    r.lemma_multiset_has_no_duplicates_conv();
    assert forall|x: TabStop| r.contains(x) <==> s.contains(x) by {
        assert(r.contains(x) <==> r.to_multiset().count(x) > 0);
    }
    assert forall|i: int, j: int| 0 <= i < j < r.len() implies tab_stop_lt(
        #[trigger] r[i],
        #[trigger] r[j],
    ) by {
        assert(tab_stop_le(r[i], r[j]));
    }
}

/// Two strictly ascending sequences of the same tab stops agree on their
/// first `n` places.
pub proof fn lemma_ascending_agree(r1: Seq<TabStop>, r2: Seq<TabStop>, n: int)
    requires
        r1.len() == r2.len(),
        0 <= n <= r1.len(),
        forall|x: TabStop| r1.contains(x) <==> r2.contains(x),
        forall|i: int, j: int|
            0 <= i < j < r1.len() ==> tab_stop_lt(#[trigger] r1[i], #[trigger] r1[j]),
        forall|i: int, j: int|
            0 <= i < j < r2.len() ==> tab_stop_lt(#[trigger] r2[i], #[trigger] r2[j]),
    ensures
        forall|k: int| 0 <= k < n ==> r1[k] == r2[k],
    decreases n,
{
    if n > 0 {
        lemma_ascending_agree(r1, r2, n - 1);
        let i = n - 1;
        assert(r1.contains(r1[i]));
        assert(r2.contains(r2[i]));
        let j = choose|j: int| 0 <= j < r2.len() && r2[j] == r1[i];
        let k = choose|k: int| 0 <= k < r1.len() && r1[k] == r2[i];
        if j < i {
            assert(r1[j] == r2[j]);
        }
        if k < i {
            assert(r1[k] == r2[k]);
        }
        if j > i {
            if k > i {
                assert(tab_stop_lt(r1[i], r1[k]));
            }
        }
    }
}

/// Tab stops of which none occurs twice can be sorted in one way only.
pub proof fn lemma_sorted_stops_unique(r1: Seq<TabStop>, r2: Seq<TabStop>, s: Seq<TabStop>)
    requires
        s.no_duplicates(),
        is_sorted_stops(r1, s),
        is_sorted_stops(r2, s),
    ensures
        r1 == r2,
{
    lemma_sorted_stops(r1, s);
    lemma_sorted_stops(r2, s);
    lemma_ascending_agree(r1, r2, r1.len() as int);
}

} // verus!
