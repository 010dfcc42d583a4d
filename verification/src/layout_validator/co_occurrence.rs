//! What the counts of the rule of lost alignment count: the times that two
//! node sides lie on one tab stop.

use vstd::prelude::*;
use super::lost_alignment::{
    group_position, lemma_group_position, lemma_group_position_is_first,
    lemma_with_test_sets_all_seen, lost_alignments, pair_equal, recorded, with_list, with_row,
    with_tab_stops, with_test_sets, AlignedPairView,
};
use super::tab_stops::{NodeSide, TabStopEntry};
use super::validity_rules::ViolationView;
use crate::test_sets::{TestSet, TestSetId};

verus! {

/// How many of the node sides after the one at `i` and before `n` make,
/// with the one at `i`, the pair `p`.
pub open spec fn row_hits(sides: Seq<NodeSide>, p: (NodeSide, NodeSide), i: int, n: int) -> nat
    decreases n - i,
{
    if n <= i + 1 {
        0
    } else {
        row_hits(sides, p, i, n - 1) + if pair_equal((sides[i], sides[n - 1]), p) {
            1nat
        } else {
            0nat
        }
    }
}

/// How many times the pair `p` is made by one of the first `m` node sides
/// of a tab stop and a node side that comes after it.
pub open spec fn list_hits(sides: Seq<NodeSide>, p: (NodeSide, NodeSide), m: nat) -> nat
    decreases m,
{
    if m == 0 {
        0
    } else {
        list_hits(sides, p, (m - 1) as nat) + row_hits(sides, p, m - 1, sides.len() as int)
    }
}

/// How many times the pair `p` lies on one of the first `k` tab stops.
pub open spec fn tab_stop_hits(entries: Seq<TabStopEntry>, p: (NodeSide, NodeSide), k: nat) -> nat
    decreases k,
{
    if k == 0 {
        0
    } else {
        tab_stop_hits(entries, p, (k - 1) as nat) + list_hits(
            entries[k - 1].1,
            p,
            entries[k - 1].1.len(),
        )
    }
}

/// How many times the pair `p` lies on one tab stop in the first `t` test
/// sets.
pub open spec fn co_occurrences(test_sets: Seq<TestSet>, p: (NodeSide, NodeSide), t: nat) -> nat
    decreases t,
{
    if t == 0 {
        0
    } else {
        co_occurrences(test_sets, p, (t - 1) as nat) + tab_stop_hits(
            test_sets[t - 1].tab_stops@,
            p,
            test_sets[t - 1].tab_stops@.len(),
        )
    }
}

/// The count that the groups hold for the pair `p`: that of the first group
/// of this pair, and 0 if there is none.
pub open spec fn count_of(groups: Seq<AlignedPairView>, p: (NodeSide, NodeSide)) -> int {
    let k = group_position(groups, p);
    if 0 <= k < groups.len() {
        groups[k].count as int
    } else {
        0
    }
}

/// A count that went up by `hits` and stopped at `i32::MAX`.
pub open spec fn counted_up(count: int, hits: nat) -> int {
    if count + hits > i32::MAX {
        i32::MAX as int
    } else {
        count + hits
    }
}

/// True if no two groups are groups of one pair.
pub open spec fn distinct_pairs(groups: Seq<AlignedPairView>) -> bool {
    forall|i: int, j: int|
        0 <= i < j < groups.len() ==> !pair_equal(
            (#[trigger] groups[i].a, groups[i].b),
            (#[trigger] groups[j].a, groups[j].b),
        )
}

/// Recording a pair adds one to the count of this pair, and leaves the
/// counts of the other pairs as they are.
pub proof fn lemma_recorded_count(
    groups: Seq<AlignedPairView>,
    a: NodeSide,
    b: NodeSide,
    id: TestSetId,
    p: (NodeSide, NodeSide),
)
    ensures
        count_of(recorded(groups, a, b, id), p) == counted_up(
            count_of(groups, p),
            if pair_equal((a, b), p) {
                1nat
            } else {
                0nat
            },
        ),
        distinct_pairs(groups) ==> distinct_pairs(recorded(groups, a, b, id)),
{
    let after = recorded(groups, a, b, id);
    let k = group_position(groups, (a, b));
    let q = group_position(groups, p);
    lemma_group_position_is_first(groups, (a, b));
    lemma_group_position_is_first(groups, p);
    if k < groups.len() {
        assert forall|j: int| 0 <= j < after.len() implies (#[trigger] after[j]).a == groups[j].a
            && after[j].b == groups[j].b by {}
        assert forall|j: int| 0 <= j < q implies !pair_equal(
            (#[trigger] after[j].a, after[j].b),
            p,
        ) by {
            assert(!pair_equal((groups[j].a, groups[j].b), p));
        }
        lemma_group_position(after, p, q);
    } else {
        let n = groups.len() as int;
        if q < n {
            assert forall|j: int| 0 <= j < q implies !pair_equal(
                (#[trigger] after[j].a, after[j].b),
                p,
            ) by {
                assert(after[j] == groups[j]);
            }
            lemma_group_position(after, p, q);
        } else {
            assert forall|j: int| 0 <= j < n implies !pair_equal(
                (#[trigger] after[j].a, after[j].b),
                p,
            ) by {
                assert(after[j] == groups[j]);
            }
            if pair_equal((a, b), p) {
                lemma_group_position(after, p, n);
            } else {
                assert forall|j: int| 0 <= j < n + 1 implies !pair_equal(
                    (#[trigger] after[j].a, after[j].b),
                    p,
                ) by {
                    if j < n {
                        assert(after[j] == groups[j]);
                    }
                }
                lemma_group_position(after, p, n + 1);
            }
        }
        if distinct_pairs(groups) {
            assert forall|i: int, j: int| 0 <= i < j < after.len() implies !pair_equal(
                (#[trigger] after[i].a, after[i].b),
                (#[trigger] after[j].a, after[j].b),
            ) by {
                if j < n {
                    assert(after[j] == groups[j]);
                } else {
                    assert(!pair_equal((groups[i].a, groups[i].b), (a, b)));
                }
            }
        }
    }
}

/// See [`lemma_counts`].
pub proof fn lemma_row_counts(
    groups: Seq<AlignedPairView>,
    sides: Seq<NodeSide>,
    id: TestSetId,
    i: int,
    n: int,
    p: (NodeSide, NodeSide),
)
    ensures
        count_of(with_row(groups, sides, id, i, n), p) == counted_up(
            count_of(groups, p),
            row_hits(sides, p, i, n),
        ),
        distinct_pairs(groups) ==> distinct_pairs(with_row(groups, sides, id, i, n)),
    decreases n - i,
{
    if n > i + 1 {
        lemma_row_counts(groups, sides, id, i, n - 1, p);
        lemma_recorded_count(with_row(groups, sides, id, i, n - 1), sides[i], sides[n - 1], id, p);
    }
}

/// See [`lemma_counts`].
pub proof fn lemma_list_counts(
    groups: Seq<AlignedPairView>,
    sides: Seq<NodeSide>,
    id: TestSetId,
    m: nat,
    p: (NodeSide, NodeSide),
)
    ensures
        count_of(with_list(groups, sides, id, m), p) == counted_up(
            count_of(groups, p),
            list_hits(sides, p, m),
        ),
        distinct_pairs(groups) ==> distinct_pairs(with_list(groups, sides, id, m)),
    decreases m,
{
    if m > 0 {
        lemma_list_counts(groups, sides, id, (m - 1) as nat, p);
        lemma_row_counts(
            with_list(groups, sides, id, (m - 1) as nat),
            sides,
            id,
            m - 1,
            sides.len() as int,
            p,
        );
    }
}

/// See [`lemma_counts`].
pub proof fn lemma_tab_stop_counts(
    groups: Seq<AlignedPairView>,
    entries: Seq<TabStopEntry>,
    id: TestSetId,
    k: nat,
    p: (NodeSide, NodeSide),
)
    ensures
        count_of(with_tab_stops(groups, entries, id, k), p) == counted_up(
            count_of(groups, p),
            tab_stop_hits(entries, p, k),
        ),
        distinct_pairs(groups) ==> distinct_pairs(with_tab_stops(groups, entries, id, k)),
    decreases k,
{
    if k > 0 {
        lemma_tab_stop_counts(groups, entries, id, (k - 1) as nat, p);
        lemma_list_counts(
            with_tab_stops(groups, entries, id, (k - 1) as nat),
            entries[k - 1].1,
            id,
            entries[k - 1].1.len(),
            p,
        );
    }
}

/// The count of a pair is the number of times that the pair lies on one tab
/// stop, up to `i32::MAX`, and no pair has two groups.
pub proof fn lemma_counts(test_sets: Seq<TestSet>, t: nat, p: (NodeSide, NodeSide))
    ensures
        count_of(with_test_sets(test_sets, t), p) == counted_up(0, co_occurrences(test_sets, p, t)),
        distinct_pairs(with_test_sets(test_sets, t)),
    decreases t,
{
    if t > 0 {
        lemma_counts(test_sets, (t - 1) as nat, p);
        lemma_tab_stop_counts(
            with_test_sets(test_sets, (t - 1) as nat),
            test_sets[t - 1].tab_stops@,
            test_sets[t - 1].id,
            test_sets[t - 1].tab_stops@.len(),
            p,
        );
    } else {
        lemma_group_position_is_first(Seq::<AlignedPairView>::empty(), p);
    }
}

/// Every lost alignment that is reported names a pair that lies on one tab
/// stop as many times as the report says: at least once, and less often
/// than there are test sets.
pub proof fn lemma_lost_alignment_is_counted(test_sets: Seq<TestSet>, i: int)
    requires
        test_sets.len() <= i32::MAX,
        0 <= i < lost_alignments(
            with_test_sets(test_sets, test_sets.len()),
            test_sets.len() as int,
            with_test_sets(test_sets, test_sets.len()).len(),
        ).len(),
    ensures
        lost_alignments(
            with_test_sets(test_sets, test_sets.len()),
            test_sets.len() as int,
            with_test_sets(test_sets, test_sets.len()).len(),
        )[i] matches ViolationView::AlignmentLost { a, b, count, .. } && count == co_occurrences(
            test_sets,
            (a, b),
            test_sets.len(),
        ) && 1 <= count < test_sets.len(),
{
    let groups = with_test_sets(test_sets, test_sets.len());
    let n = test_sets.len() as int;
    let k = lemma_lost_alignment_comes_from_group(groups, n, groups.len(), i);
    let p = (groups[k].a, groups[k].b);
    lemma_counts(test_sets, test_sets.len(), p);
    assert forall|j: int| 0 <= j < k implies !pair_equal((#[trigger] groups[j].a, groups[j].b), p) by {}
    lemma_group_position(groups, p, k);
    lemma_with_test_sets_all_seen(test_sets, test_sets.len());
}

/// Every lost alignment that is reported is what one of the groups holds,
/// and the count of that group is below the number of test sets.
pub proof fn lemma_lost_alignment_comes_from_group(
    groups: Seq<AlignedPairView>,
    n_test_sets: int,
    g: nat,
    i: int,
) -> (k: int)
    requires
        g <= groups.len(),
        0 <= i < lost_alignments(groups, n_test_sets, g).len(),
    ensures
        0 <= k < g,
        groups[k].count < n_test_sets,
        lost_alignments(groups, n_test_sets, g)[i] == (ViolationView::AlignmentLost {
            a: groups[k].a,
            b: groups[k].b,
            count: groups[k].count,
            test_sets: groups[k].test_sets,
        }),
    decreases g,
{
    let before = lost_alignments(groups, n_test_sets, (g - 1) as nat);
    if i < before.len() {
        lemma_lost_alignment_comes_from_group(groups, n_test_sets, (g - 1) as nat, i)
    } else {
        g - 1
    }
}

/// A pair that lies on one tab stop at least once, and less often than
/// there are test sets, is reported.
pub proof fn lemma_lost_alignment_is_reported(test_sets: Seq<TestSet>, p: (NodeSide, NodeSide))
    requires
        test_sets.len() <= i32::MAX,
        1 <= co_occurrences(test_sets, p, test_sets.len()) < test_sets.len(),
    ensures
        exists|i: int|
            0 <= i < lost_alignments(
                with_test_sets(test_sets, test_sets.len()),
                test_sets.len() as int,
                with_test_sets(test_sets, test_sets.len()).len(),
            ).len() && (#[trigger] lost_alignments(
                with_test_sets(test_sets, test_sets.len()),
                test_sets.len() as int,
                with_test_sets(test_sets, test_sets.len()).len(),
            )[i]).same_finding(
                ViolationView::AlignmentLost {
                    a: p.0,
                    b: p.1,
                    count: 0,
                    test_sets: Seq::empty(),
                },
            ),
{
    let groups = with_test_sets(test_sets, test_sets.len());
    let n = test_sets.len() as int;
    lemma_counts(test_sets, test_sets.len(), p);
    lemma_group_position_is_first(groups, p);
    let k = group_position(groups, p);
    lemma_group_is_reported(groups, n, groups.len(), k);
}

/// A group whose count is below the number of test sets is reported.
pub proof fn lemma_group_is_reported(
    groups: Seq<AlignedPairView>,
    n_test_sets: int,
    g: nat,
    k: int,
) -> (i: int)
    requires
        g <= groups.len(),
        0 <= k < g,
        groups[k].count < n_test_sets,
    ensures
        0 <= i < lost_alignments(groups, n_test_sets, g).len(),
        lost_alignments(groups, n_test_sets, g)[i] == (ViolationView::AlignmentLost {
            a: groups[k].a,
            b: groups[k].b,
            count: groups[k].count,
            test_sets: groups[k].test_sets,
        }),
    decreases g,
{
    let before = lost_alignments(groups, n_test_sets, (g - 1) as nat);
    if k == g - 1 {
        before.len() as int
    } else {
        lemma_group_is_reported(groups, n_test_sets, (g - 1) as nat, k)
    }
}

} // verus!
