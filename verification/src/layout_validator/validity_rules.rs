//! The violations that the rules report, and what makes two of them the
//! same finding.

use vstd::prelude::*;
use vstd::std_specs::cmp::PartialEqSpecImpl;
use super::lost_alignment::{
    check_for_lost_alignment, lost_alignments, node_side_pair_equal, pair_equal, with_test_sets,
};
use super::overlap_and_overflow::{
    check_for_overlap_and_overflow, lemma_tree_violations_come_from_pairs, tree_violations,
    OverflowRect,
};
use super::rect::Rect;
use super::tab_stops::NodeSide;
use crate::test_sets::{TestSet, TestSetId, TestSets};
use crate::text::{decimal, push_decimal, push_text};

verus! {

/// A finding of one of the three rules.
#[derive(Debug)]
pub enum LayoutViolation {
    /// Two siblings whose declared boxes overlap.
    Overlap { test_set: TestSetId, node1: i32, node2: i32, intersection_rect: Rect },
    /// A parent (`node1`) and a child (`node2`) that sticks out of it.
    Overflow { test_set: TestSetId, node1: i32, node2: i32, overflow_rect: OverflowRect },
    /// Two node sides that share a tab stop in some test sets but not in all.
    AlignmentLost { a: NodeSide, b: NodeSide, count: i32, test_sets: Vec<TestSetId> },
}

/// The number of a violation in a report.
#[derive(Debug, Clone, Copy, Eq, PartialEq, Hash, Structural)]
pub struct LayoutViolationId(pub i32);

/// True if the two pairs hold the same node ids, in either order.
pub open spec fn same_node_pair(a1: i32, a2: i32, b1: i32, b2: i32) -> bool {
    (a1 == b1 && a2 == b2) || (a1 == b2 && b1 == a2)
}

/// A violation as the contracts see it: the test sets of a lost alignment
/// are a sequence.
pub enum ViolationView {
    Overlap { test_set: TestSetId, node1: i32, node2: i32, intersection_rect: Rect },
    Overflow { test_set: TestSetId, node1: i32, node2: i32, overflow_rect: OverflowRect },
    AlignmentLost { a: NodeSide, b: NodeSide, count: i32, test_sets: Seq<TestSetId> },
}

impl ViolationView {
    /// True if the two are the same finding: violations of one kind that
    /// speak of the same two nodes, whatever test set and rectangle they
    /// carry, or of the same pair of node sides.
    pub open spec fn same_finding(self, other: ViolationView) -> bool {
        match (self, other) {
            (
                ViolationView::Overlap { node1: a1, node2: a2, .. },
                ViolationView::Overlap { node1: b1, node2: b2, .. },
            ) => same_node_pair(a1, a2, b1, b2),
            (
                ViolationView::Overflow { node1: a1, node2: a2, .. },
                ViolationView::Overflow { node1: b1, node2: b2, .. },
            ) => same_node_pair(a1, a2, b1, b2),
            (
                ViolationView::AlignmentLost { a: a1, b: a2, .. },
                ViolationView::AlignmentLost { a: b1, b: b2, .. },
            ) => pair_equal((a1, a2), (b1, b2)),
            _ => false,
        }
    }
}

impl ViolationView {
    /// The violation as text: its kind and the two nodes, or node sides.
    pub open spec fn text(self) -> Seq<char> {
        match self {
            ViolationView::Overlap { node1, node2, .. } => "Overlap:("@ + decimal(node1 as int)
                + ", "@ + decimal(node2 as int) + ")"@,
            ViolationView::Overflow { node1, node2, .. } => "Overflow:("@ + decimal(node1 as int)
                + ", "@ + decimal(node2 as int) + ")"@,
            ViolationView::AlignmentLost { a, b, .. } => "AlignmentChange:("@ + a.spec_text()
                + ", "@ + b.spec_text() + ")"@,
        }
    }
}

impl LayoutViolation {
    /// The violation as text, such as `Overlap:(1, 2)` or
    /// `AlignmentChange:(1:Right, 2:Left)`.
    pub fn to_text(&self) -> (r: String)
        ensures
            r@ == self@.text(),
    {
        let mut s = String::new();
        match self {
            LayoutViolation::Overlap { node1, node2, .. } => {
                push_text(&mut s, "Overlap:(");
                push_decimal(&mut s, *node1 as i64);
                push_text(&mut s, ", ");
                push_decimal(&mut s, *node2 as i64);
            },
            LayoutViolation::Overflow { node1, node2, .. } => {
                push_text(&mut s, "Overflow:(");
                push_decimal(&mut s, *node1 as i64);
                push_text(&mut s, ", ");
                push_decimal(&mut s, *node2 as i64);
            },
            LayoutViolation::AlignmentLost { a, b, .. } => {
                push_text(&mut s, "AlignmentChange:(");
                let first = a.to_text();
                push_text(&mut s, first.as_str());
                push_text(&mut s, ", ");
                let second = b.to_text();
                push_text(&mut s, second.as_str());
            },
        }
        push_text(&mut s, ")");
        proof {
            assert(s@ =~= self@.text());
        }
        s
    }
}

impl View for LayoutViolation {
    type V = ViolationView;

    open spec fn view(&self) -> ViolationView {
        match *self {
            LayoutViolation::Overlap {
                test_set,
                node1,
                node2,
                intersection_rect,
            } => ViolationView::Overlap { test_set, node1, node2, intersection_rect },
            LayoutViolation::Overflow {
                test_set,
                node1,
                node2,
                overflow_rect,
            } => ViolationView::Overflow { test_set, node1, node2, overflow_rect },
            LayoutViolation::AlignmentLost {
                a,
                b,
                count,
                test_sets,
            } => ViolationView::AlignmentLost { a, b, count, test_sets: test_sets@ },
        }
    }
}

/// The views of a sequence of violations.
pub open spec fn views(s: Seq<LayoutViolation>) -> Seq<ViolationView> {
    s.map_values(|v: LayoutViolation| v@)
}

impl PartialEq for LayoutViolation {
    fn eq(&self, other: &LayoutViolation) -> (r: bool) {
        match (self, other) {
            (
                LayoutViolation::Overlap { node1: a1, node2: a2, .. },
                LayoutViolation::Overlap { node1: b1, node2: b2, .. },
            ) => (*a1 == *b1 && *a2 == *b2) || (*a1 == *b2 && *b1 == *a2),
            (
                LayoutViolation::Overflow { node1: a1, node2: a2, .. },
                LayoutViolation::Overflow { node1: b1, node2: b2, .. },
            ) => (*a1 == *b1 && *a2 == *b2) || (*a1 == *b2 && *b1 == *a2),
            (
                LayoutViolation::AlignmentLost { a: a1, b: a2, .. },
                LayoutViolation::AlignmentLost { a: b1, b: b2, .. },
            ) => node_side_pair_equal((a1, a2), (b1, b2)),
            _ => false,
        }
    }
}

impl PartialEqSpecImpl for LayoutViolation {
    open spec fn obeys_eq_spec() -> bool {
        true
    }

    open spec fn eq_spec(&self, other: &LayoutViolation) -> bool {
        self@.same_finding(other@)
    }
}

impl Eq for LayoutViolation {

}

impl Clone for LayoutViolation {
    fn clone(&self) -> (r: LayoutViolation)
        ensures
            r@ == self@,
    {
        match self {
            LayoutViolation::Overlap { test_set, node1, node2, intersection_rect } => {
                LayoutViolation::Overlap {
                    test_set: *test_set,
                    node1: *node1,
                    node2: *node2,
                    intersection_rect: *intersection_rect,
                }
            },
            LayoutViolation::Overflow { test_set, node1, node2, overflow_rect } => {
                LayoutViolation::Overflow {
                    test_set: *test_set,
                    node1: *node1,
                    node2: *node2,
                    overflow_rect: *overflow_rect,
                }
            },
            LayoutViolation::AlignmentLost { a, b, count, test_sets } => {
                let mut ids: Vec<TestSetId> = Vec::new();
                let mut i: usize = 0;
                while i < test_sets.len()
                    invariant
                        i <= test_sets.len(),
                        ids@ == test_sets@.take(i as int),
                    decreases test_sets.len() - i,
                {
                    ids.push(test_sets[i]);
                    proof {
                        assert(test_sets@.take(i + 1) =~= test_sets@.take(i as int).push(
                            test_sets@[i as int],
                        ));
                    }
                    i += 1;
                }
                proof {
                    assert(test_sets@.take(test_sets.len() as int) =~= test_sets@);
                }
                LayoutViolation::AlignmentLost { a: *a, b: *b, count: *count, test_sets: ids }
            },
        }
    }
}

/// The findings, one bucket for each rule.
#[derive(Debug)]
pub struct LayoutViolations {
    pub overflows: Vec<LayoutViolation>,
    pub overlaps: Vec<LayoutViolation>,
    pub alignment_changes: Vec<LayoutViolation>,
}

impl LayoutViolations {
    /// All findings in one sequence: overflows, overlaps, lost alignments.
    pub open spec fn spec_all(&self) -> Seq<ViolationView> {
        views(self.overflows@) + views(self.overlaps@) + views(self.alignment_changes@)
    }

    /// Copies of all findings: overflows, then overlaps, then lost
    /// alignments.
    pub fn all(&self) -> (r: Vec<LayoutViolation>)
        ensures
            views(r@) == self.spec_all(),
    {
        let mut ret: Vec<LayoutViolation> = Vec::new();
        append_copies(&mut ret, &self.overflows);
        append_copies(&mut ret, &self.overlaps);
        append_copies(&mut ret, &self.alignment_changes);
        ret
    }
}

/// The three buckets of findings as sequences.
pub struct Buckets {
    pub overflows: Seq<LayoutViolation>,
    pub overlaps: Seq<LayoutViolation>,
    pub alignment_changes: Seq<LayoutViolation>,
}

/// The buckets of the findings.
pub open spec fn buckets_of(violations: &LayoutViolations) -> Buckets {
    Buckets {
        overflows: violations.overflows@,
        overlaps: violations.overlaps@,
        alignment_changes: violations.alignment_changes@,
    }
}

/// True if every bucket holds findings of its own rule only.
pub open spec fn typed(b: Buckets) -> bool {
    &&& forall|i: int| 0 <= i < b.overflows.len() ==> (#[trigger] b.overflows[i]) is Overflow
    &&& forall|i: int| 0 <= i < b.overlaps.len() ==> (#[trigger] b.overlaps[i]) is Overlap
    &&& forall|i: int|
        0 <= i < b.alignment_changes.len() ==> (#[trigger] b.alignment_changes[i]) is AlignmentLost
}

/// Appends a copy of each violation of `from` to `to`.
pub fn append_copies(to: &mut Vec<LayoutViolation>, from: &Vec<LayoutViolation>)
    ensures
        views(final(to)@) == views(old(to)@) + views(from@),
{
    let ghost before = views(to@);
    let mut i: usize = 0;
    while i < from.len()
        invariant
            i <= from.len(),
            views(to@) == before + views(from@.take(i as int)),
        decreases from.len() - i,
    {
        let ghost to_before = to@;
        let copy = from[i].clone();
        to.push(copy);
        proof {
            assert(views(to@) =~= views(to_before).push(copy@));
        }
        i += 1;
    }
    proof {
        assert(from@.take(from.len() as int) =~= from@);
    }
}

/// The overlaps among the violations.
pub open spec fn only_overlaps(s: Seq<ViolationView>) -> Seq<ViolationView> {
    s.filter(|v: ViolationView| v is Overlap)
}

/// The overflows among the violations.
pub open spec fn only_overflows(s: Seq<ViolationView>) -> Seq<ViolationView> {
    s.filter(|v: ViolationView| v is Overflow)
}

/// The overlaps that are found in the first `t` test sets.
pub open spec fn overlaps_of(sets: Seq<TestSet>, t: nat) -> Seq<ViolationView>
    decreases t,
{
    if t == 0 {
        Seq::empty()
    } else {
        overlaps_of(sets, (t - 1) as nat) + only_overlaps(
            tree_violations(&sets[t - 1].nodes, sets[t - 1].id, sets[t - 1].nodes.order().len()),
        )
    }
}

/// The overflows that are found in the first `t` test sets.
pub open spec fn overflows_of(sets: Seq<TestSet>, t: nat) -> Seq<ViolationView>
    decreases t,
{
    if t == 0 {
        Seq::empty()
    } else {
        overflows_of(sets, (t - 1) as nat) + only_overflows(
            tree_violations(&sets[t - 1].nodes, sets[t - 1].id, sets[t - 1].nodes.order().len()),
        )
    }
}

/// Applies the three rules: the overlap rule and the overflow rule to each
/// test set by itself, and the rule of lost alignment to all of them.
pub fn apply_validity_rules(test_sets: &TestSets) -> (r: LayoutViolations)
    requires
        test_sets.wf(),
        test_sets.sets@.len() <= i32::MAX,
    ensures
        typed(buckets_of(&r)),
        views(r.overflows@) == overflows_of(test_sets.sets@, test_sets.sets@.len()),
        views(r.overlaps@) == overlaps_of(test_sets.sets@, test_sets.sets@.len()),
        views(r.alignment_changes@) == lost_alignments(
            with_test_sets(test_sets.sets@, test_sets.sets@.len()),
            test_sets.sets@.len() as int,
            with_test_sets(test_sets.sets@, test_sets.sets@.len()).len(),
        ),
{
    let mut overlaps: Vec<LayoutViolation> = Vec::new();
    let mut overflows: Vec<LayoutViolation> = Vec::new();
    let ghost is_overlap = |v: ViolationView| v is Overlap;
    let ghost is_overflow = |v: ViolationView| v is Overflow;
    proof {
        assert(views(overlaps@) =~= Seq::<ViolationView>::empty());
    }
    let mut t: usize = 0;
    while t < test_sets.sets.len()
        invariant
            test_sets.wf(),
            t <= test_sets.sets.len(),
            is_overlap == (|v: ViolationView| v is Overlap),
            is_overflow == (|v: ViolationView| v is Overflow),
            views(overlaps@) == overlaps_of(test_sets.sets@, t as nat),
            views(overflows@) == overflows_of(test_sets.sets@, t as nat),
            forall|i: int| 0 <= i < overlaps@.len() ==> (#[trigger] overlaps@[i]) is Overlap,
            forall|i: int| 0 <= i < overflows@.len() ==> (#[trigger] overflows@[i]) is Overflow,
        decreases test_sets.sets.len() - t,
    {
        let test_set = &test_sets.sets[t];
        let found = check_for_overlap_and_overflow(&test_set.tab_stops, &test_set.nodes, &test_set.id);
        let ghost all = found@;
        let ghost overlaps_before = views(overlaps@);
        let ghost overflows_before = views(overflows@);
        proof {
            assert(views(all).take(0).filter(is_overlap) =~= Seq::<ViolationView>::empty());
        }
        for violation in it: found
            invariant
                it.seq() == all,
                test_set.nodes.wf(),
                is_overlap == (|v: ViolationView| v is Overlap),
                is_overflow == (|v: ViolationView| v is Overflow),
                views(all) == tree_violations(
                    &test_set.nodes,
                    test_set.id,
                    test_set.nodes.order().len(),
                ),
                views(overlaps@) == overlaps_before + views(all).take(it.index() as int).filter(
                    is_overlap,
                ),
                views(overflows@) == overflows_before + views(all).take(it.index() as int).filter(
                    is_overflow,
                ),
                forall|i: int| 0 <= i < overlaps@.len() ==> (#[trigger] overlaps@[i]) is Overlap,
                forall|i: int| 0 <= i < overflows@.len() ==> (#[trigger] overflows@[i]) is Overflow,
        {
            let ghost k = it.index() as int;
            let ghost overlaps_now = views(overlaps@);
            let ghost overflows_now = views(overflows@);
            proof {
                assert(views(all)[k] == violation@);
                assert(views(all).take(k + 1) =~= views(all).take(k).push(violation@));
                Seq::lemma_filter_push(views(all).take(k), violation@, is_overlap);
                Seq::lemma_filter_push(views(all).take(k), violation@, is_overflow);
                lemma_tree_violations_come_from_pairs(
                    &test_set.nodes,
                    test_set.id,
                    test_set.nodes.order().len(),
                    violation@,
                );
            }
            match violation {
                LayoutViolation::Overflow { .. } => {
                    overflows.push(violation);
                    proof {
                        assert(views(overflows@) =~= overflows_now.push(violation@));
                    }
                },
                LayoutViolation::Overlap { .. } => {
                    overlaps.push(violation);
                    proof {
                        assert(views(overlaps@) =~= overlaps_now.push(violation@));
                    }
                },
                LayoutViolation::AlignmentLost { .. } => {},
            }
        }
        proof {
            assert(views(all).take(all.len() as int) =~= views(all));
        }
        t += 1;
    }
    let lost_alignment_result = check_for_lost_alignment(&test_sets.sets);
    proof {
        assert forall|i: int| 0 <= i < lost_alignment_result@.len() implies (
        #[trigger] lost_alignment_result@[i]) is AlignmentLost by {
            let groups = with_test_sets(test_sets.sets@, test_sets.sets@.len());
            lemma_lost_alignments_kind(groups, test_sets.sets@.len() as int, groups.len(), i);
        }
    }
    LayoutViolations {
        overflows: overflows,
        overlaps: overlaps,
        alignment_changes: lost_alignment_result,
    }
}

/// What the rule of lost alignment reports is a lost alignment.
pub proof fn lemma_lost_alignments_kind(
    groups: Seq<super::lost_alignment::AlignedPairView>,
    n_test_sets: int,
    g: nat,
    i: int,
)
    requires
        0 <= i < lost_alignments(groups, n_test_sets, g).len(),
    ensures
        lost_alignments(groups, n_test_sets, g)[i] is AlignmentLost,
    decreases g,
{
    if g > 0 {
        let before = lost_alignments(groups, n_test_sets, (g - 1) as nat);
        if i < before.len() {
            lemma_lost_alignments_kind(groups, n_test_sets, (g - 1) as nat, i);
        }
    }
}

} // verus!
