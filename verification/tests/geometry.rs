use layout_oracle::layout_validator::overlap_and_overflow::{
    check_for_overlap_and_overflow, check_overflow, check_overlap, subtract_rects, OverflowRect,
    OverflowResult, OverlapResult,
};
use layout_oracle::layout_validator::rect::{MAX_POSITION, MAX_SIZE, MIN_POSITION};
use layout_oracle::layout_validator::validity_rules::LayoutViolation;
use layout_oracle::layout_validator::{Node, NodeData, Nodes, Rect, TabStops};
use layout_oracle::test_sets::TestSetId;

fn node(id: i32, parent: Option<i32>, actual: (i32, i32, i32, i32), render: (i32, i32, i32, i32)) -> Node {
    Node::new(
        id,
        parent,
        NodeData {
            name: format!("node{}", id),
            actual_position_x: actual.0,
            actual_position_y: actual.1,
            actual_width: actual.2,
            actual_height: actual.3,
            render_position_x: render.0,
            render_position_y: render.1,
            render_width: render.2,
            render_height: render.3,
            line: id,
            file: "Main.ux".to_string(),
        },
    )
}

fn same_box(id: i32, parent: Option<i32>, b: (i32, i32, i32, i32)) -> Node {
    node(id, parent, b, b)
}

#[test]
fn rect_new_keeps_ordinary_values() {
    let r = Rect::new(3, -4, 10, 20);
    assert_eq!((r.x(), r.y(), r.width(), r.height()), (3, -4, 10, 20));
    assert_eq!((r.left(), r.top(), r.right(), r.bottom()), (3, -4, 13, 16));
    assert_eq!(r.area(), 200);
}

#[test]
fn rect_new_clamps_sizes_and_positions() {
    let r = Rect::new(i32::MAX, i32::MIN, 0, u32::MAX);
    assert_eq!(r.x, MAX_POSITION);
    assert_eq!(r.y, MIN_POSITION);
    assert_eq!(r.w, 1);
    assert_eq!(r.h, MAX_SIZE);
    assert_eq!(MAX_POSITION, i32::MAX / 2);
    assert_eq!(MIN_POSITION, i32::MIN / 2);
    assert_eq!(MAX_SIZE, (i32::MAX / 2) as u32);
}

#[test]
fn rect_from_wide_counts_negative_sizes_as_oversized() {
    let r = Rect::from_wide(5_000_000_000, -5_000_000_000, -1, 7);
    assert_eq!(r, Rect { x: MAX_POSITION, y: MIN_POSITION, w: MAX_SIZE, h: 7 });
}

#[test]
fn overlapping_siblings_are_reported_once() {
    let nodes = Nodes::new(
        vec![
            same_box(0, None, (0, 0, 200, 200)),
            same_box(1, Some(0), (0, 0, 100, 100)),
            same_box(2, Some(0), (50, 50, 100, 100)),
        ],
        (200, 200),
    );
    let found = check_for_overlap_and_overflow(&TabStops::new(), &nodes, &TestSetId(7));
    assert_eq!(found.len(), 1);
    match &found[0] {
        LayoutViolation::Overlap { test_set, node1, node2, intersection_rect } => {
            assert_eq!(*test_set, TestSetId(7));
            assert_eq!((*node1, *node2), (1, 2));
            assert_eq!(*intersection_rect, Rect::new(50, 50, 50, 50));
            assert_eq!(
                (intersection_rect.x, intersection_rect.y, intersection_rect.w, intersection_rect.h),
                (50, 50, 50, 50)
            );
        }
        other => panic!("unexpected {:?}", other),
    }
}

#[test]
fn overlapping_siblings_are_the_same_finding_in_either_order_of_the_walk() {
    let first = Nodes::new(
        vec![
            same_box(0, None, (0, 0, 200, 200)),
            same_box(1, Some(0), (0, 0, 100, 100)),
            same_box(2, Some(0), (50, 50, 100, 100)),
        ],
        (200, 200),
    );
    let second = Nodes::new(
        vec![
            same_box(2, Some(0), (50, 50, 100, 100)),
            same_box(0, None, (0, 0, 200, 200)),
            same_box(1, Some(0), (0, 0, 100, 100)),
        ],
        (200, 200),
    );
    let one = check_for_overlap_and_overflow(&TabStops::new(), &first, &TestSetId(0));
    let other = check_for_overlap_and_overflow(&TabStops::new(), &second, &TestSetId(1));
    assert_eq!((one.len(), other.len()), (1, 1));
    assert!(matches!(&other[0], LayoutViolation::Overlap { node1: 2, node2: 1, .. }));
    assert!(one[0] == other[0]);
}

#[test]
fn a_parent_that_comes_after_its_child_is_found() {
    let nodes = Nodes::new(
        vec![same_box(1, Some(0), (80, 80, 50, 50)), same_box(0, None, (0, 0, 100, 100))],
        (100, 100),
    );
    let found = check_for_overlap_and_overflow(&TabStops::new(), &nodes, &TestSetId(0));
    assert_eq!(found.len(), 1);
    assert!(matches!(&found[0], LayoutViolation::Overflow { node1: 0, node2: 1, .. }));
}

#[test]
fn check_overlap_gives_the_intersection() {
    let a = same_box(1, Some(0), (0, 0, 100, 100));
    let b = same_box(2, Some(0), (50, 50, 100, 100));
    let nodes = Nodes::new(
        vec![same_box(0, None, (0, 0, 500, 500)), a.clone(), b.clone()],
        (500, 500),
    );
    assert_eq!(
        check_overlap(&nodes, &a, &b),
        Some(OverlapResult { node_a: 1, node_b: 2, intersection_rect: Rect::new(50, 50, 50, 50) })
    );
    assert_eq!(check_overlap(&nodes, &a, &b).unwrap().area(), 2500);
}

#[test]
fn nodes_that_are_no_siblings_do_not_overlap() {
    let a = same_box(1, Some(0), (0, 0, 100, 100));
    let b = same_box(2, Some(1), (50, 50, 100, 100));
    let root = same_box(0, None, (0, 0, 500, 500));
    let nodes = Nodes::new(vec![root.clone(), a.clone(), b.clone()], (500, 500));
    assert_eq!(check_overlap(&nodes, &a, &b), None);
    assert_eq!(check_overlap(&nodes, &root, &a), None);
}

#[test]
fn sibling_within_its_sibling_is_no_overlap() {
    let a = same_box(1, Some(0), (0, 0, 100, 100));
    let b = same_box(2, Some(0), (10, 10, 20, 20));
    let nodes = Nodes::new(
        vec![same_box(0, None, (0, 0, 500, 500)), a.clone(), b.clone()],
        (500, 500),
    );
    assert!(nodes.are_overlapping(&1, &2).is_some());
    assert_eq!(check_overlap(&nodes, &a, &b), None);
    assert_eq!(check_overlap(&nodes, &b, &a), None);
    assert!(check_for_overlap_and_overflow(&TabStops::new(), &nodes, &TestSetId(0)).is_empty());
}

#[test]
fn siblings_that_touch_do_not_overlap() {
    let a = same_box(1, Some(0), (0, 0, 100, 100));
    let b = same_box(2, Some(0), (100, 0, 100, 100));
    let nodes = Nodes::new(
        vec![same_box(0, None, (0, 0, 500, 500)), a.clone(), b.clone()],
        (500, 500),
    );
    assert_eq!(nodes.are_overlapping(&1, &2), None);
    assert_eq!(check_overlap(&nodes, &a, &b), None);
}

#[test]
fn child_that_sticks_out_right_and_bottom() {
    let overflow = subtract_rects(&Rect::new(0, 0, 100, 100), &Rect::new(80, 80, 50, 50));
    assert_eq!(
        overflow,
        OverflowRect::Partial {
            left: None,
            top: None,
            right: Some(Rect::new(100, 80, 30, 50)),
            bottom: Some(Rect::new(80, 100, 50, 30)),
        }
    );
    assert_eq!(overflow.area(), 30 * 50 + 50 * 30);
    let nodes = Nodes::new(
        vec![same_box(0, None, (0, 0, 100, 100)), same_box(1, Some(0), (80, 80, 50, 50))],
        (100, 100),
    );
    let found = check_for_overlap_and_overflow(&TabStops::new(), &nodes, &TestSetId(0));
    assert_eq!(found.len(), 1);
    match &found[0] {
        LayoutViolation::Overflow { node1, node2, overflow_rect, .. } => {
            assert_eq!((*node1, *node2), (0, 1));
            assert_eq!(*overflow_rect, overflow);
        }
        other => panic!("unexpected {:?}", other),
    }
}

#[test]
fn child_that_sticks_out_left_and_top() {
    let overflow = subtract_rects(&Rect::new(10, 10, 100, 100), &Rect::new(0, 5, 50, 50));
    assert_eq!(
        overflow,
        OverflowRect::Partial {
            left: Some(Rect::new(0, 5, 10, 50)),
            top: Some(Rect::new(10, 5, 50, 5)),
            right: None,
            bottom: None,
        }
    );
}

#[test]
fn child_inside_its_parent_leaves_nothing() {
    let overflow = subtract_rects(&Rect::new(0, 0, 100, 100), &Rect::new(10, 10, 50, 50));
    assert_eq!(
        overflow,
        OverflowRect::Partial { left: None, top: None, right: None, bottom: None }
    );
    assert_eq!(overflow.area(), 0);
}

#[test]
fn child_outside_its_parent_overflows_completely() {
    let parent = same_box(0, None, (0, 0, 100, 100));
    let child = node(1, Some(0), (200, 200, 50, 50), (210, 220, 30, 40));
    let nodes = Nodes::new(vec![parent.clone(), child.clone()], (100, 100));
    assert_eq!(
        check_overflow(&nodes, &parent, &child),
        Some(OverflowResult {
            ancestor: 0,
            violating_node: 1,
            overflow_rect: OverflowRect::Complete(Rect::new(210, 220, 30, 40)),
        })
    );
    assert_eq!(OverflowRect::Complete(Rect::new(210, 220, 30, 40)).area(), 1200);
    assert_eq!(check_overflow(&nodes, &child, &parent), None);
}

#[test]
fn child_within_its_parent_does_not_overflow() {
    let parent = same_box(0, None, (0, 0, 100, 100));
    let child = same_box(1, Some(0), (10, 10, 50, 50));
    let nodes = Nodes::new(vec![parent.clone(), child.clone()], (100, 100));
    assert_eq!(check_overflow(&nodes, &parent, &child), None);
    assert!(check_for_overlap_and_overflow(&TabStops::new(), &nodes, &TestSetId(0)).is_empty());
}

#[test]
fn how_a_child_was_rendered_does_not_make_an_overflow() {
    let parent = same_box(0, None, (0, 0, 100, 100));
    let child = node(1, Some(0), (10, 10, 50, 50), (10, 10, 60, 60));
    let nodes = Nodes::new(vec![parent.clone(), child.clone()], (100, 100));
    assert_eq!(nodes.area(&1), 100);
    assert_eq!(nodes.shared_area(&0, &1), 100);
    assert_eq!(check_overflow(&nodes, &parent, &child), None);
    let rendered_far_away = node(1, Some(0), (10, 10, 50, 50), (500, 500, 900, 900));
    let nodes = Nodes::new(vec![parent.clone(), rendered_far_away.clone()], (100, 100));
    assert_eq!(check_overflow(&nodes, &parent, &rendered_far_away), None);
    assert!(check_for_overlap_and_overflow(&TabStops::new(), &nodes, &TestSetId(0)).is_empty());
}

#[test]
fn overflow_compares_what_is_shared_with_the_declared_box() {
    // The boxes share 20 by 50, the child is declared 21 by 50: it sticks out by one unit.
    let parent = same_box(0, None, (0, 0, 100, 100));
    let child = node(1, Some(0), (80, 10, 21, 50), (80, 10, 15, 25));
    let nodes = Nodes::new(vec![parent.clone(), child.clone()], (100, 100));
    assert_eq!(nodes.area(&1), 71);
    assert_eq!(nodes.shared_area(&0, &1), 70);
    assert_eq!(
        check_overflow(&nodes, &parent, &child),
        Some(OverflowResult {
            ancestor: 0,
            violating_node: 1,
            overflow_rect: OverflowRect::Partial { left: None, top: None, right: None, bottom: None },
        })
    );
    let fits = node(1, Some(0), (80, 10, 20, 50), (80, 10, 15, 25));
    let nodes = Nodes::new(vec![parent.clone(), fits.clone()], (100, 100));
    assert_eq!(nodes.area(&1), 70);
    assert_eq!(nodes.shared_area(&0, &1), 70);
    assert_eq!(check_overflow(&nodes, &parent, &fits), None);
}

#[test]
fn a_child_without_size_on_the_edge_of_its_parent_overflows() {
    let parent = same_box(0, None, (0, 0, 100, 100));
    let child = same_box(1, Some(0), (0, 10, 0, 10));
    let nodes = Nodes::new(vec![parent.clone(), child.clone()], (100, 100));
    assert!(nodes.is_node_completely_inside_other(&1, &0));
    assert_eq!(nodes.are_overlapping(&0, &1), None);
    assert_eq!(
        check_overflow(&nodes, &parent, &child),
        Some(OverflowResult {
            ancestor: 0,
            violating_node: 1,
            overflow_rect: OverflowRect::Complete(Rect::new(0, 10, 0, 10)),
        })
    );
}

#[test]
fn empty_tree_has_no_violations() {
    let nodes = Nodes::new(vec![], (0, 0));
    assert!(check_for_overlap_and_overflow(&TabStops::new(), &nodes, &TestSetId(0)).is_empty());
}
