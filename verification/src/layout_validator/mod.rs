//! The node and tab stop model, and the rules that find layout violations.

use vstd::prelude::*;

pub mod co_occurrence;
pub mod lost_alignment;
pub mod nodes;
pub mod overlap_and_overflow;
pub mod rect;
pub mod sorting;
pub mod tab_stop_order;
pub mod tab_stops;
pub mod validity_rules;

pub use self::nodes::{Node, NodeData, Nodes};
pub use self::rect::Rect;
pub use self::tab_stops::{NodeSide, Orientation, Side, TabStop, TabStops};

use self::lost_alignment::{lost_alignments, with_test_sets};
use self::validity_rules::{
    apply_validity_rules, buckets_of, overflows_of, overlaps_of, typed, views, LayoutViolations,
};
use crate::test_sets::TestSets;

verus! {

/// Finds the violations in the test sets: overflows and overlaps in each
/// test set, and alignments that are lost between test sets.
pub fn validate_layout(test_sets: &TestSets) -> (r: LayoutViolations)
    requires
        test_sets.wf(),
        test_sets.sets@.len() <= i32::MAX,
    ensures
        typed(buckets_of(&r)),
        views(r.overflows@) == overflows_of(test_sets.sets@, test_sets.sets@.len()),
        views(r.overlaps@) == overlaps_of(test_sets.sets@, test_sets.sets@.len()),
        views(r.alignment_changes@) == lost_alignments(
            with_test_sets(test_sets.sets@, test_sets.sets@.len()),
            test_sets.sets@.len() as int,
            with_test_sets(test_sets.sets@, test_sets.sets@.len()).len(),
        ),
{
    apply_validity_rules(test_sets)
}

} // verus!
