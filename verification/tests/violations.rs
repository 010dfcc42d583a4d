use layout_oracle::baseline_finder::{
    find_baseline, find_baseline_for_cutoffs, remove_baseline_violations, Baseline, Threshold,
};
use layout_oracle::layout_validator::lost_alignment::{check_for_lost_alignment, record_pair};
use layout_oracle::layout_validator::overlap_and_overflow::OverflowRect;
use layout_oracle::layout_validator::validate_layout;
use layout_oracle::layout_validator::validity_rules::{
    apply_validity_rules, LayoutViolation, LayoutViolations,
};
use layout_oracle::layout_validator::{
    Node, NodeData, NodeSide, Nodes, Rect, Side,
};
use layout_oracle::test_sets::{generate_test_sets, TestSet, TestSetId, TestSets};
use layout_oracle::text::decimal_text;

fn same_box(id: i32, parent: Option<i32>, b: (i32, i32, i32, i32)) -> Node {
    Node::new(
        id,
        parent,
        NodeData {
            name: format!("node{}", id),
            actual_position_x: b.0,
            actual_position_y: b.1,
            actual_width: b.2,
            actual_height: b.3,
            render_position_x: b.0,
            render_position_y: b.1,
            render_width: b.2,
            render_height: b.3,
            line: id,
            file: "Main.ux".to_string(),
        },
    )
}

/// A root with two children side by side: the right edge of the first is the left edge of
/// the second only if `gap` is 0.
fn row(gap: i32) -> Nodes {
    Nodes::new(
        vec![
            same_box(0, None, (0, 0, 1000, 100)),
            same_box(1, Some(0), (10, 10, 100, 20)),
            same_box(2, Some(0), (110 + gap, 40, 100, 30)),
        ],
        (1000, 100),
    )
}

fn sets_of(gaps: &[i32]) -> TestSets {
    let mut data = Vec::new();
    let mut id = 0;
    for gap in gaps {
        data.push((TestSetId(id), row(*gap), (1000, 100)));
        id += 1;
    }
    generate_test_sets(data, 0)
}

fn overlap(test_set: i32, node1: i32, node2: i32) -> LayoutViolation {
    LayoutViolation::Overlap {
        test_set: TestSetId(test_set),
        node1: node1,
        node2: node2,
        intersection_rect: Rect::new(test_set, 0, 1, 1),
    }
}

fn overflow(test_set: i32, node1: i32, node2: i32) -> LayoutViolation {
    LayoutViolation::Overflow {
        test_set: TestSetId(test_set),
        node1: node1,
        node2: node2,
        overflow_rect: OverflowRect::Complete(Rect::new(test_set, 0, 1, 1)),
    }
}

fn lost(a: NodeSide, b: NodeSide, count: i32) -> LayoutViolation {
    LayoutViolation::AlignmentLost { a: a, b: b, count: count, test_sets: vec![TestSetId(0)] }
}

fn nodes_of(v: &LayoutViolation) -> (i32, i32, i32) {
    match v {
        LayoutViolation::Overlap { test_set, node1, node2, .. } => (test_set.0, *node1, *node2),
        LayoutViolation::Overflow { test_set, node1, node2, .. } => (test_set.0, *node1, *node2),
        LayoutViolation::AlignmentLost { a, b, count, .. } => (*count, a.node, b.node),
    }
}

#[test]
fn alignment_lost_in_one_of_four_test_sets() {
    let sets = sets_of(&[0, 0, 5, 0]);
    let found = check_for_lost_alignment(&sets.sets);
    assert_eq!(found.len(), 1);
    match &found[0] {
        LayoutViolation::AlignmentLost { a, b, count, test_sets } => {
            assert_eq!(*a, NodeSide::new(1, Side::Right));
            assert_eq!(*b, NodeSide::new(2, Side::Left));
            assert_eq!(*count, 3);
            assert_eq!(*test_sets, vec![TestSetId(0), TestSetId(1), TestSetId(3)]);
        }
        other => panic!("unexpected {:?}", other),
    }
}

#[test]
fn alignment_that_always_holds_is_not_reported() {
    let sets = sets_of(&[0, 0, 0]);
    assert!(check_for_lost_alignment(&sets.sets).is_empty());
}

#[test]
fn one_test_set_loses_no_alignment() {
    let sets = sets_of(&[0]);
    assert!(check_for_lost_alignment(&sets.sets).is_empty());
    let sets = sets_of(&[3]);
    assert!(check_for_lost_alignment(&sets.sets).is_empty());
}

#[test]
fn no_test_sets_no_violations() {
    let sets: Vec<TestSet> = Vec::new();
    assert!(check_for_lost_alignment(&sets).is_empty());
    let found = validate_layout(&TestSets { sets: Vec::new() });
    assert!(found.overflows.is_empty());
    assert!(found.overlaps.is_empty());
    assert!(found.alignment_changes.is_empty());
    assert!(found.all().is_empty());
}

#[test]
fn alignment_seen_once_in_two_test_sets() {
    let sets = sets_of(&[0, 7]);
    let found = check_for_lost_alignment(&sets.sets);
    assert_eq!(found.len(), 1);
    match &found[0] {
        LayoutViolation::AlignmentLost { count, test_sets, .. } => {
            assert_eq!(*count, 1);
            assert_eq!(*test_sets, vec![TestSetId(0)]);
        }
        other => panic!("unexpected {:?}", other),
    }
}

#[test]
fn recording_a_pair_counts_and_names_the_test_set_once() {
    let mut groups = Vec::new();
    let a = NodeSide::new(1, Side::Right);
    let b = NodeSide::new(2, Side::Left);
    record_pair(&mut groups, a, b, TestSetId(5));
    record_pair(&mut groups, b, a, TestSetId(5));
    record_pair(&mut groups, NodeSide::new(2, Side::Top), NodeSide::new(1, Side::Bottom), TestSetId(6));
    record_pair(&mut groups, NodeSide::new(2, Side::Top), NodeSide::new(1, Side::Top), TestSetId(6));
    assert_eq!(groups.len(), 2);
    assert_eq!((groups[0].pair.a, groups[0].pair.b), (a, b));
    assert_eq!(groups[0].count, 3);
    assert_eq!(groups[0].test_sets, vec![TestSetId(5), TestSetId(6)]);
    assert_eq!(groups[1].count, 1);
    assert_eq!(groups[1].test_sets, vec![TestSetId(6)]);
}

#[test]
fn rules_fill_their_buckets() {
    let overlapping = Nodes::new(
        vec![
            same_box(0, None, (0, 0, 100, 100)),
            same_box(1, Some(0), (0, 0, 60, 60)),
            same_box(2, Some(0), (50, 50, 100, 100)),
        ],
        (100, 100),
    );
    let fine = Nodes::new(
        vec![
            same_box(0, None, (0, 0, 100, 100)),
            same_box(1, Some(0), (0, 0, 50, 50)),
            same_box(2, Some(0), (50, 60, 50, 40)),
        ],
        (100, 100),
    );
    let sets = generate_test_sets(
        vec![(TestSetId(0), overlapping, (100, 100)), (TestSetId(1), fine, (100, 100))],
        0,
    );
    let found = apply_validity_rules(&sets);
    let overlaps: Vec<(i32, i32, i32)> = found.overlaps.iter().map(nodes_of).collect();
    assert_eq!(overlaps, vec![(0, 1, 2)]);
    let overflows: Vec<(i32, i32, i32)> = found.overflows.iter().map(nodes_of).collect();
    assert_eq!(overflows, vec![(0, 0, 2)]);
    match &found.overflows[0] {
        LayoutViolation::Overflow { overflow_rect, .. } => assert_eq!(
            *overflow_rect,
            OverflowRect::Partial {
                left: None,
                top: None,
                right: Some(Rect::new(100, 50, 50, 100)),
                bottom: Some(Rect::new(50, 100, 100, 50)),
            }
        ),
        other => panic!("unexpected {:?}", other),
    }
    assert_eq!(found.alignment_changes.len(), 1);
    match &found.alignment_changes[0] {
        LayoutViolation::AlignmentLost { a, b, count, test_sets } => {
            assert_eq!((*a, *b), (NodeSide::new(1, Side::Right), NodeSide::new(2, Side::Left)));
            assert_eq!(*count, 1);
            assert_eq!(*test_sets, vec![TestSetId(1)]);
        }
        other => panic!("unexpected {:?}", other),
    }
    let all = found.all();
    assert_eq!(all.len(), 3);
    assert_eq!(nodes_of(&all[2]), (1, 1, 2));
    assert_eq!(nodes_of(&all[0]), (0, 0, 2));
    assert_eq!(nodes_of(&all[1]), (0, 1, 2));
}

#[test]
fn violations_are_equal_by_their_nodes() {
    assert!(overlap(0, 1, 2) == overlap(5, 1, 2));
    assert!(overlap(0, 1, 2) == overlap(5, 2, 1));
    assert!(overlap(0, 1, 2) != overlap(0, 1, 3));
    assert!(overflow(0, 1, 2) == overflow(3, 2, 1));
    assert!(overlap(0, 1, 2) != overflow(0, 1, 2));
    let a = NodeSide::new(1, Side::Right);
    let b = NodeSide::new(2, Side::Left);
    assert!(lost(a, b, 1) == lost(b, a, 3));
    assert!(lost(a, b, 1) == lost(NodeSide::new(1, Side::Top), NodeSide::new(2, Side::Bottom), 1));
    assert!(lost(a, b, 1) != lost(a, NodeSide::new(2, Side::Right), 1));
    assert!(lost(a, b, 1) != overlap(0, 1, 2));
    let copy = lost(a, b, 4).clone();
    match copy {
        LayoutViolation::AlignmentLost { a: x, b: y, count, test_sets } => {
            assert_eq!((x, y, count), (a, b, 4));
            assert_eq!(test_sets, vec![TestSetId(0)]);
        }
        other => panic!("unexpected {:?}", other),
    }
}

#[test]
fn violations_as_text() {
    assert_eq!(overlap(0, 1, 2).to_text(), "Overlap:(1, 2)");
    assert_eq!(overflow(0, 10, -2).to_text(), "Overflow:(10, -2)");
    let a = NodeSide::new(1, Side::Right);
    let b = NodeSide::new(2, Side::Left);
    assert_eq!(lost(a, b, 1).to_text(), "AlignmentChange:(1:Right, 2:Left)");
}

#[test]
fn numbers_as_text() {
    assert_eq!(decimal_text(0), "0");
    assert_eq!(decimal_text(7), "7");
    assert_eq!(decimal_text(10), "10");
    assert_eq!(decimal_text(-1), "-1");
    assert_eq!(decimal_text(1234567890), "1234567890");
    assert_eq!(decimal_text(i64::MAX), "9223372036854775807");
    assert_eq!(decimal_text(i64::MIN), "-9223372036854775808");
}

#[test]
fn cutoffs_round_down_and_up() {
    let three_quarters = Threshold::new(3, 4).unwrap();
    assert_eq!(three_quarters.alignment_cutoff(5), 3);
    assert_eq!(three_quarters.alignment_cutoff(5), (0.75f32 * 4.0).ceil() as i32);
    assert_eq!(three_quarters.alignment_cutoff(4), 3);
    assert_eq!(three_quarters.alignment_cutoff(1), 0);
    assert_eq!(three_quarters.alignment_cutoff(0), 0);
    assert_eq!(three_quarters.overlap_overflow_cutoff(5), 3);
    assert_eq!(three_quarters.overlap_overflow_cutoff(5), (0.75f32 * 5.0) as i32);
    assert_eq!(three_quarters.overlap_overflow_cutoff(4), 3);
    assert_eq!(three_quarters.overlap_overflow_cutoff(1), 0);
    assert_eq!(three_quarters.overlap_overflow_cutoff(-1), -1);
    let all = Threshold::new(1, 1).unwrap();
    assert_eq!(all.alignment_cutoff(5), 4);
    assert_eq!(all.alignment_cutoff(0), -1);
    assert_eq!(all.overlap_overflow_cutoff(5), 5);
    let none = Threshold::new(0, 9).unwrap();
    assert_eq!(none.alignment_cutoff(5), 0);
    assert_eq!(none.overlap_overflow_cutoff(5), 0);
    let huge = Threshold::new(u32::MAX, 1).unwrap();
    assert_eq!(huge.overlap_overflow_cutoff(i32::MAX), i32::MAX);
    assert_eq!(huge.overlap_overflow_cutoff(i32::MIN), i32::MIN);
    assert_eq!(huge.alignment_cutoff(i32::MIN), i32::MIN);
    assert_eq!(Threshold::new(1, 0), None);
    assert_eq!(Threshold::new(1, 3), Some(Threshold { numerator: 1, denominator: 3 }));
}

#[test]
fn rarely_aligned_pairs_are_accepted() {
    let a = NodeSide::new(1, Side::Right);
    let b = NodeSide::new(2, Side::Left);
    let c = NodeSide::new(3, Side::Left);
    let mut found = LayoutViolations {
        overflows: vec![],
        overlaps: vec![],
        alignment_changes: vec![lost(a, b, 2), lost(a, c, 3)],
    };
    let baseline = find_baseline(&found, 5, Threshold::new(3, 4).unwrap(), None);
    assert_eq!(baseline.violations_to_accept.len(), 1);
    assert_eq!(nodes_of(&baseline.violations_to_accept[0]), (2, 1, 2));
    remove_baseline_violations(&mut found, &baseline);
    assert_eq!(found.alignment_changes.len(), 1);
    assert_eq!(nodes_of(&found.alignment_changes[0]), (3, 1, 3));
}

#[test]
fn overlaps_need_the_cutoff_and_overflows_must_meet_it() {
    let found = LayoutViolations {
        overflows: vec![
            overflow(0, 0, 1),
            overflow(1, 0, 1),
            overflow(0, 0, 2),
            overflow(1, 0, 2),
            overflow(2, 0, 2),
            overflow(0, 0, 3),
        ],
        overlaps: vec![
            overlap(0, 1, 2),
            overlap(0, 2, 1),
            overlap(1, 2, 1),
            overlap(0, 3, 4),
            overlap(1, 4, 3),
            overlap(0, 5, 6),
        ],
        alignment_changes: vec![],
    };
    let baseline = find_baseline_for_cutoffs(&found, 0, Some(2));
    let accepted: Vec<(i32, i32, i32)> = baseline.violations_to_accept.iter().map(nodes_of).collect();
    assert_eq!(accepted, vec![(0, 1, 2), (0, 3, 4), (0, 0, 1)]);
    let baseline = find_baseline_for_cutoffs(&found, 0, Some(3));
    let accepted: Vec<(i32, i32, i32)> = baseline.violations_to_accept.iter().map(nodes_of).collect();
    assert_eq!(accepted, vec![(0, 1, 2), (0, 0, 2)]);
    let baseline = find_baseline_for_cutoffs(&found, 0, Some(0));
    let accepted: Vec<(i32, i32, i32)> = baseline.violations_to_accept.iter().map(nodes_of).collect();
    assert_eq!(accepted, vec![(0, 1, 2), (0, 3, 4), (0, 5, 6)]);
    let baseline = find_baseline_for_cutoffs(&found, 0, Some(-1));
    assert_eq!(baseline.violations_to_accept.len(), 3);
    let baseline = find_baseline_for_cutoffs(&found, 0, None);
    assert!(baseline.violations_to_accept.is_empty());
    let baseline = find_baseline(&found, 4, Threshold::new(1, 2).unwrap(), Some(Threshold::new(1, 2).unwrap()));
    let accepted: Vec<(i32, i32, i32)> = baseline.violations_to_accept.iter().map(nodes_of).collect();
    assert_eq!(accepted, vec![(0, 1, 2), (0, 3, 4), (0, 0, 1)]);
}

#[test]
fn removal_takes_every_duplicate() {
    let mut found = LayoutViolations {
        overflows: vec![overflow(0, 0, 1), overflow(0, 0, 2), overflow(1, 1, 0), overflow(2, 0, 1)],
        overlaps: vec![overlap(0, 1, 2), overlap(0, 2, 1), overlap(1, 3, 4), overlap(1, 1, 2)],
        alignment_changes: vec![],
    };
    let baseline = Baseline { violations_to_accept: vec![overflow(9, 0, 1), overlap(9, 2, 1)] };
    remove_baseline_violations(&mut found, &baseline);
    let overflows: Vec<(i32, i32, i32)> = found.overflows.iter().map(nodes_of).collect();
    assert_eq!(overflows, vec![(0, 0, 2)]);
    let overlaps: Vec<(i32, i32, i32)> = found.overlaps.iter().map(nodes_of).collect();
    assert_eq!(overlaps, vec![(1, 3, 4)]);
}

#[test]
fn removal_looks_into_the_first_bucket_that_holds_the_finding() {
    let mut found = LayoutViolations {
        overflows: vec![overlap(0, 1, 2)],
        overlaps: vec![overlap(1, 1, 2), overlap(2, 3, 4)],
        alignment_changes: vec![],
    };
    let baseline = Baseline { violations_to_accept: vec![overlap(9, 1, 2), overflow(9, 3, 4)] };
    remove_baseline_violations(&mut found, &baseline);
    assert!(found.overflows.is_empty());
    assert_eq!(found.overlaps.len(), 2);
}

#[test]
fn without_a_cutoff_overlaps_and_overflows_stay() {
    let sets = {
        let overlapping = |shift: i32| {
            Nodes::new(
                vec![
                    same_box(0, None, (0, 0, 100, 100)),
                    same_box(1, Some(0), (0, 0, 60, 60)),
                    same_box(2, Some(0), (50 + shift, 50, 100, 100)),
                    same_box(3, Some(0), (61 - shift, 0, 10, 10)),
                ],
                (100, 100),
            )
        };
        generate_test_sets(
            vec![
                (TestSetId(0), overlapping(0), (100, 100)),
                (TestSetId(1), overlapping(1), (100, 100)),
                (TestSetId(2), overlapping(0), (100, 100)),
            ],
            0,
        )
    };
    let mut found = validate_layout(&sets);
    let overlaps_before: Vec<(i32, i32, i32)> = found.overlaps.iter().map(nodes_of).collect();
    let overflows_before: Vec<(i32, i32, i32)> = found.overflows.iter().map(nodes_of).collect();
    assert_eq!(overlaps_before, vec![(0, 1, 2), (1, 1, 2), (2, 1, 2)]);
    assert_eq!(overflows_before.len(), 3);
    let lost_before: Vec<(i32, i32, i32)> = found.alignment_changes.iter().map(nodes_of).collect();
    assert_eq!(lost_before, vec![(1, 1, 3)]);
    let baseline = find_baseline(&found, 3, Threshold::new(1, 1).unwrap(), None);
    assert!(!baseline.violations_to_accept.is_empty());
    remove_baseline_violations(&mut found, &baseline);
    let overlaps_after: Vec<(i32, i32, i32)> = found.overlaps.iter().map(nodes_of).collect();
    let overflows_after: Vec<(i32, i32, i32)> = found.overflows.iter().map(nodes_of).collect();
    assert_eq!(overlaps_after, overlaps_before);
    assert_eq!(overflows_after, overflows_before);
    let lost_after: Vec<(i32, i32, i32)> = found.alignment_changes.iter().map(nodes_of).collect();
    assert_eq!(lost_after, vec![]);
}

fn siblings(overlapping: bool) -> Nodes {
    let second = if overlapping { (50, 50, 100, 100) } else { (100, 100, 100, 100) };
    Nodes::new(
        vec![
            same_box(0, None, (0, 0, 200, 200)),
            same_box(1, Some(0), (0, 0, 100, 100)),
            same_box(2, Some(0), second),
        ],
        (200, 200),
    )
}

fn four_sets(overlapping: [bool; 4]) -> TestSets {
    generate_test_sets(
        vec![
            (TestSetId(0), siblings(overlapping[0]), (200, 200)),
            (TestSetId(1), siblings(overlapping[1]), (200, 200)),
            (TestSetId(2), siblings(overlapping[2]), (200, 200)),
            (TestSetId(3), siblings(overlapping[3]), (200, 200)),
        ],
        0,
    )
}

#[test]
fn an_overlap_counts_once_for_each_test_set_that_has_it() {
    let three_quarters = Threshold::new(3, 4).unwrap();
    let mut in_two = validate_layout(&four_sets([true, false, true, false]));
    let overlaps: Vec<(i32, i32, i32)> = in_two.overlaps.iter().map(nodes_of).collect();
    assert_eq!(overlaps, vec![(0, 1, 2), (2, 1, 2)]);
    let baseline = find_baseline(&in_two, 4, three_quarters, Some(three_quarters));
    assert!(baseline
        .violations_to_accept
        .iter()
        .all(|v| !matches!(v, LayoutViolation::Overlap { .. })));
    remove_baseline_violations(&mut in_two, &baseline);
    assert_eq!(in_two.overlaps.len(), 2);
    let mut in_three = validate_layout(&four_sets([true, true, false, true]));
    assert_eq!(in_three.overlaps.len(), 3);
    let baseline = find_baseline(&in_three, 4, three_quarters, Some(three_quarters));
    let accepted: Vec<(i32, i32, i32)> = baseline
        .violations_to_accept
        .iter()
        .filter(|v| matches!(v, LayoutViolation::Overlap { .. }))
        .map(nodes_of)
        .collect();
    assert_eq!(accepted, vec![(0, 1, 2)]);
    remove_baseline_violations(&mut in_three, &baseline);
    assert!(in_three.overlaps.is_empty());
}
