use layout_oracle::layout_validator::overlap_and_overflow::OverflowRect;
use layout_oracle::layout_validator::validity_rules::{LayoutViolation, LayoutViolations};
use layout_oracle::layout_validator::{Node, NodeData, NodeSide, Nodes, Rect, Side};
use layout_oracle::report::{
    count_kind, generate_violations_report, kind_of, line_of, ViolationKind,
};
use layout_oracle::test_sets::{generate_test_sets, TestSetId, TestSets};

fn node(id: i32, parent: Option<i32>, line: i32) -> Node {
    Node::new(
        id,
        parent,
        NodeData {
            name: format!("node{}", id),
            actual_position_x: 0,
            actual_position_y: 0,
            actual_width: 1,
            actual_height: 1,
            render_position_x: 0,
            render_position_y: 0,
            render_width: 1,
            render_height: 1,
            line: line,
            file: "Main.ux".to_string(),
        },
    )
}

fn sets() -> TestSets {
    let tree = |shift: i32| {
        Nodes::new(
            vec![node(0, None, 1 + shift), node(1, Some(0), 12 + shift), node(2, Some(0), 20 + shift)],
            (1, 1),
        )
    };
    generate_test_sets(
        vec![(TestSetId(3), tree(0), (1, 1)), (TestSetId(4), tree(100), (1, 1))],
        0,
    )
}

fn overlap(test_set: i32, node1: i32, node2: i32) -> LayoutViolation {
    LayoutViolation::Overlap {
        test_set: TestSetId(test_set),
        node1: node1,
        node2: node2,
        intersection_rect: Rect::new(0, 0, 1, 1),
    }
}

fn overflow(test_set: i32, node1: i32, node2: i32) -> LayoutViolation {
    LayoutViolation::Overflow {
        test_set: TestSetId(test_set),
        node1: node1,
        node2: node2,
        overflow_rect: OverflowRect::Complete(Rect::new(0, 0, 1, 1)),
    }
}

fn lost(count: i32, test_sets: Vec<TestSetId>) -> LayoutViolation {
    LayoutViolation::AlignmentLost {
        a: NodeSide::new(1, Side::Right),
        b: NodeSide::new(2, Side::Left),
        count: count,
        test_sets: test_sets,
    }
}

#[test]
fn a_report_with_one_violation_of_each_kind() {
    let found = LayoutViolations {
        overflows: vec![overflow(4, 0, 2)],
        overlaps: vec![overlap(3, 1, 2), overlap(3, 2, 1)],
        alignment_changes: vec![lost(1, vec![TestSetId(4), TestSetId(3)])],
    };
    let report = generate_violations_report(&sets(), &found).unwrap();
    assert_eq!(
        report,
        "* # of test sets: - 2\n\
         * Total errors: - 4\n\
         \t* Overlaps ------------- : 2\n\
         \t* Overflows ------------ : 1\n\
         \t* Total alignment changes: 1\n\
         - Overflow - test-set:4 => 0 @ L-101 - 2 @ L-120\n\
         - Overlap - test-set:3 => 1 @ L-12 - 2 @ L-20\n\
         - Overlap - test-set:3 => 2 @ L-20 - 1 @ L-12\n\
         - AlignmentLost => 1:Right @ L:112 - 2:Left @ L:120 - aligned in 1 test sets\n"
    );
}

#[test]
fn an_empty_report() {
    let found = LayoutViolations { overflows: vec![], overlaps: vec![], alignment_changes: vec![] };
    assert_eq!(
        generate_violations_report(&TestSets { sets: vec![] }, &found).unwrap(),
        "* # of test sets: - 0\n\
         * Total errors: - 0\n\
         \t* Overlaps ------------- : 0\n\
         \t* Overflows ------------ : 0\n\
         \t* Total alignment changes: 0\n"
    );
}

#[test]
fn no_report_on_what_is_not_there() {
    let sets = sets();
    assert_eq!(line_of(&sets, &overlap(5, 1, 2)), None);
    assert_eq!(line_of(&sets, &overlap(3, 1, 7)), None);
    assert_eq!(line_of(&sets, &overflow(3, 7, 1)), None);
    assert_eq!(line_of(&sets, &lost(1, vec![])), None);
    assert_eq!(line_of(&sets, &lost(1, vec![TestSetId(9), TestSetId(3)])), None);
    assert_eq!(
        line_of(&sets, &lost(2, vec![TestSetId(3), TestSetId(9)])).unwrap(),
        "- AlignmentLost => 1:Right @ L:12 - 2:Left @ L:20 - aligned in 2 test sets"
    );
    let found = LayoutViolations {
        overflows: vec![overflow(4, 0, 2)],
        overlaps: vec![overlap(3, 1, 2), overlap(8, 2, 1)],
        alignment_changes: vec![],
    };
    assert_eq!(generate_violations_report(&sets, &found), None);
}

#[test]
fn kinds_are_counted() {
    let all = vec![overlap(0, 1, 2), lost(1, vec![]), overlap(0, 1, 3), overflow(0, 1, 2)];
    assert_eq!(kind_of(&all[1]), ViolationKind::AlignmentLost);
    assert_eq!(count_kind(&all, ViolationKind::Overlap), 2);
    assert_eq!(count_kind(&all, ViolationKind::Overflow), 1);
    assert_eq!(count_kind(&all, ViolationKind::AlignmentLost), 1);
    assert_eq!(count_kind(&vec![], ViolationKind::Overlap), 0);
}
