use layout_oracle::layout_validator::lost_alignment::{
    node_side_pair_equal, AlignedNodeSides, NodeSidePair,
};
use layout_oracle::layout_validator::tab_stop_order::compare_tab_stops;
use layout_oracle::layout_validator::tab_stops::{holds_node_side, same_node_sides};
use layout_oracle::layout_validator::{
    Node, NodeData, NodeSide, Nodes, Orientation, Side, TabStop, TabStops,
};
use layout_oracle::test_sets::{
    find_tab_stops_for_nodes, generate_test_sets, merge_tab_stops, TestSetId,
};
use std::cmp::Ordering;

fn rendered(id: i32, parent: Option<i32>, line: i32, b: (i32, i32, i32, i32)) -> Node {
    Node::new(
        id,
        parent,
        NodeData {
            name: format!("node{}", id),
            actual_position_x: 0,
            actual_position_y: 0,
            actual_width: 0,
            actual_height: 0,
            render_position_x: b.0,
            render_position_y: b.1,
            render_width: b.2,
            render_height: b.3,
            line: line,
            file: "Main.ux".to_string(),
        },
    )
}

fn v(pos: i64) -> TabStop {
    TabStop::new(pos, Orientation::Vertical)
}

fn h(pos: i64) -> TabStop {
    TabStop::new(pos, Orientation::Horizontal)
}

#[test]
fn inserting_twice_is_inserting_once() {
    let mut once = TabStops::new();
    once.insert_unique(v(10), NodeSide::new(1, Side::Left));
    once.insert_unique(v(10), NodeSide::new(2, Side::Right));
    once.insert_unique(h(10), NodeSide::new(1, Side::Top));
    let mut twice = TabStops::new();
    twice.insert_unique(v(10), NodeSide::new(1, Side::Left));
    twice.insert_unique(v(10), NodeSide::new(1, Side::Left));
    twice.insert_unique(v(10), NodeSide::new(2, Side::Right));
    twice.insert_unique(h(10), NodeSide::new(1, Side::Top));
    twice.insert_unique(v(10), NodeSide::new(2, Side::Right));
    twice.insert_unique(h(10), NodeSide::new(1, Side::Top));
    assert_eq!(once.tab_stops, twice.tab_stops);
    assert_eq!(once.nodes, twice.nodes);
    assert_eq!(twice.tab_stops, vec![v(10), h(10)]);
    assert_eq!(
        twice.nodes,
        vec![
            vec![NodeSide::new(1, Side::Left), NodeSide::new(2, Side::Right)],
            vec![NodeSide::new(1, Side::Top)],
        ]
    );
    assert_eq!(twice.count(), 2);
}

#[test]
fn lookups_in_the_index() {
    let mut stops = TabStops::new();
    assert_eq!(stops.count(), 0);
    stops.insert_unique(v(10), NodeSide::new(1, Side::Left));
    stops.insert_unique(h(20), NodeSide::new(1, Side::Top));
    stops.insert_unique(v(10), NodeSide::new(2, Side::Left));
    stops.insert_unique(v(30), NodeSide::new(2, Side::Right));
    assert_eq!(
        stops.get_nodes(&v(10)),
        Some(&vec![NodeSide::new(1, Side::Left), NodeSide::new(2, Side::Left)])
    );
    assert_eq!(stops.get_nodes(&h(10)), None);
    assert_eq!(stops.position_of(&v(30)), Some(2));
    assert_eq!(stops.position_of(&v(31)), None);
    assert_eq!(stops.tab_stop_connected_to_node_side(&NodeSide::new(2, Side::Right)), v(30));
    assert_eq!(stops.tab_stop_connected_to_node_side(&NodeSide::new(1, Side::Top)), h(20));
    assert_eq!(stops.find_tab_stop_for_node(&2), Some(v(10)));
    assert_eq!(stops.find_tab_stop_for_node(&1), Some(v(10)));
    assert_eq!(stops.find_tab_stop_for_node(&3), None);
}

#[test]
fn tab_stops_are_equal_by_their_nodes() {
    let mut small = TabStops::new();
    small.insert_unique(v(10), NodeSide::new(1, Side::Left));
    small.insert_unique(v(10), NodeSide::new(2, Side::Left));
    small.insert_unique(h(5), NodeSide::new(1, Side::Top));
    let mut large = TabStops::new();
    large.insert_unique(v(40), NodeSide::new(2, Side::Left));
    large.insert_unique(v(40), NodeSide::new(1, Side::Left));
    large.insert_unique(h(40), NodeSide::new(2, Side::Left));
    large.insert_unique(h(40), NodeSide::new(1, Side::Left));
    large.insert_unique(v(50), NodeSide::new(1, Side::Left));
    assert!(small.tab_stop_equal_by_nodes(&large, &v(10), &v(40)));
    assert!(!small.tab_stop_equal_by_nodes(&large, &v(10), &h(40)));
    assert!(!small.tab_stop_equal_by_nodes(&large, &v(10), &v(50)));
    assert!(!small.tab_stop_equal_by_nodes(&large, &v(10), &v(60)));
    assert!(small.contains(&large, &v(40)));
    assert!(!small.contains(&large, &h(40)));
    assert!(!small.contains(&large, &v(50)));
}

#[test]
fn lists_of_node_sides() {
    let a = vec![NodeSide::new(1, Side::Left), NodeSide::new(2, Side::Top)];
    let b = vec![NodeSide::new(2, Side::Top), NodeSide::new(1, Side::Left)];
    let c = vec![NodeSide::new(2, Side::Top)];
    assert!(holds_node_side(&a, &NodeSide::new(2, Side::Top)));
    assert!(!holds_node_side(&a, &NodeSide::new(2, Side::Bottom)));
    assert!(same_node_sides(&a, &b));
    assert!(!same_node_sides(&a, &c));
    assert!(!same_node_sides(&c, &a));
    assert!(same_node_sides(&vec![], &vec![]));
}

#[test]
fn sorted_puts_horizontal_first_and_orders_by_position() {
    let mut stops = TabStops::new();
    stops.insert_unique(v(30), NodeSide::new(1, Side::Right));
    stops.insert_unique(h(7), NodeSide::new(1, Side::Bottom));
    stops.insert_unique(v(-4), NodeSide::new(1, Side::Left));
    stops.insert_unique(h(-9), NodeSide::new(1, Side::Top));
    stops.insert_unique(v(12), NodeSide::new(2, Side::Left));
    assert_eq!(stops.sorted(), vec![h(-9), h(7), v(-4), v(12), v(30)]);
    assert_eq!(stops.sorted_and_split(), (vec![h(-9), h(7)], vec![v(-4), v(12), v(30)]));
    assert_eq!(stops.tab_stops, vec![v(30), h(7), v(-4), h(-9), v(12)]);
    assert_eq!(TabStops::new().sorted(), vec![]);
}

#[test]
fn comparing_tab_stops() {
    assert_eq!(compare_tab_stops(&h(100), &v(-100)), Ordering::Less);
    assert_eq!(compare_tab_stops(&v(-100), &h(100)), Ordering::Greater);
    assert_eq!(compare_tab_stops(&v(1), &v(2)), Ordering::Less);
    assert_eq!(compare_tab_stops(&h(2), &h(1)), Ordering::Greater);
    assert_eq!(compare_tab_stops(&h(2), &h(2)), Ordering::Equal);
}

#[test]
fn hit_test_reaches_less_than_fifteen_units() {
    assert!(h(100).hit_test((0, 114)));
    assert!(h(100).hit_test((9999, 86)));
    assert!(!h(100).hit_test((100, 115)));
    assert!(!h(100).hit_test((100, 85)));
    assert!(v(100).hit_test((114, 0)));
    assert!(!v(100).hit_test((115, 100)));
    assert!(!v(i64::MAX).hit_test((i32::MIN, 0)));
}

#[test]
fn the_four_edges_of_each_node_get_a_tab_stop() {
    let nodes = Nodes::new(
        vec![rendered(0, None, 1, (0, 0, 100, 50)), rendered(1, Some(0), 2, (0, 10, 40, 40))],
        (100, 50),
    );
    let stops = find_tab_stops_for_nodes(&nodes);
    assert_eq!(stops.tab_stops, vec![v(0), h(0), v(100), h(50), h(10), v(40)]);
    assert_eq!(
        stops.nodes,
        vec![
            vec![NodeSide::new(0, Side::Left), NodeSide::new(1, Side::Left)],
            vec![NodeSide::new(0, Side::Top)],
            vec![NodeSide::new(0, Side::Right)],
            vec![NodeSide::new(0, Side::Bottom), NodeSide::new(1, Side::Bottom)],
            vec![NodeSide::new(1, Side::Top)],
            vec![NodeSide::new(1, Side::Right)],
        ]
    );
    assert_eq!(stops.tab_stop_connected_to_node_side(&NodeSide::new(1, Side::Bottom)), h(50));
}

#[test]
fn far_edges_do_not_wrap() {
    let nodes = Nodes::new(vec![rendered(0, None, 1, (i32::MAX, i32::MAX, i32::MAX, 1))], (1, 1));
    let stops = find_tab_stops_for_nodes(&nodes);
    assert_eq!(
        stops.tab_stops,
        vec![
            v(i32::MAX as i64),
            h(i32::MAX as i64),
            v(2 * (i32::MAX as i64)),
            h(i32::MAX as i64 + 1),
        ]
    );
}

#[test]
fn merging_changes_nothing() {
    let nodes = Nodes::new(vec![rendered(0, None, 1, (0, 0, 100, 50))], (100, 50));
    let mut stops = find_tab_stops_for_nodes(&nodes);
    let before = (stops.tab_stops.clone(), stops.nodes.clone());
    merge_tab_stops(&mut stops, 10);
    assert_eq!((stops.tab_stops, stops.nodes), before);
}

#[test]
fn test_sets_are_generated_in_order_and_the_later_of_one_id_stays() {
    let first = Nodes::new(vec![rendered(0, None, 1, (0, 0, 10, 10))], (10, 10));
    let second = Nodes::new(vec![rendered(0, None, 1, (0, 0, 20, 20))], (20, 20));
    let third = Nodes::new(vec![rendered(0, None, 1, (0, 0, 30, 30))], (30, 30));
    let sets = generate_test_sets(
        vec![
            (TestSetId(4), first, (10, 10)),
            (TestSetId(2), second, (20, 20)),
            (TestSetId(4), third, (30, 30)),
        ],
        10,
    );
    assert_eq!(sets.sets.len(), 2);
    assert_eq!(sets.sets[0].id, TestSetId(4));
    assert_eq!(sets.sets[0].screen_size, (30, 30));
    assert_eq!(sets.sets[0].tab_stops.tab_stops, vec![v(0), h(0), v(30), h(30)]);
    assert_eq!(sets.sets[1].id, TestSetId(2));
    assert_eq!(sets.sets[1].screen_size, (20, 20));
    assert_eq!(sets.get(&TestSetId(2)).unwrap().nodes.root_size, (20, 20));
    assert!(sets.get(&TestSetId(3)).is_none());
    assert_eq!(sets.clone().sets.len(), 2);
    assert_eq!(TestSetId(-12).to_text(), "-12");
}

#[test]
fn pairs_of_node_sides() {
    let a_left = NodeSide::new(1, Side::Left);
    let a_right = NodeSide::new(1, Side::Right);
    let b_left = NodeSide::new(2, Side::Left);
    let b_right = NodeSide::new(2, Side::Right);
    let c_left = NodeSide::new(3, Side::Left);
    assert!(node_side_pair_equal((&a_left, &b_left), (&b_left, &a_left)));
    assert!(node_side_pair_equal((&a_left, &b_left), (&a_right, &b_right)));
    assert!(node_side_pair_equal((&a_right, &b_left), (&b_right, &a_left)));
    assert!(!node_side_pair_equal((&a_left, &b_left), (&a_right, &b_left)));
    assert!(!node_side_pair_equal((&a_left, &b_left), (&a_left, &c_left)));
    assert!(NodeSidePair { a: a_left, b: b_right } == NodeSidePair { a: b_left, b: a_right });
    assert!(NodeSidePair { a: a_left, b: b_right } != NodeSidePair { a: b_left, b: a_left });
}

#[test]
fn node_sides_as_text() {
    let nodes = Nodes::new(vec![rendered(3, None, 12, (0, 0, 1, 1))], (1, 1));
    assert_eq!(NodeSide::new(3, Side::Left).format(&nodes), "Left-3 @ L-12");
    assert_eq!(NodeSide::new(3, Side::Bottom).format(&nodes), "Bottom-3 @ L-12");
    assert_eq!(NodeSide::new(3, Side::Right).to_text(), "3:Right");
    assert_eq!(NodeSide::new(-7, Side::Top).to_text(), "-7:Top");
    let pair = NodeSidePair { a: NodeSide::new(3, Side::Left), b: NodeSide::new(14, Side::Bottom) };
    assert_eq!(pair.to_text(), "L3-B14");
    let pair = NodeSidePair { a: NodeSide::new(1, Side::Top), b: NodeSide::new(2, Side::Right) };
    assert_eq!(pair.to_text(), "T1-R2");
    assert_eq!(Side::Left.name(), "Left");
    assert_eq!(Side::Top.letter(), "T");
}

#[test]
fn indexes_are_equal_if_their_sorted_tab_stops_carry_the_same_nodes() {
    let mut small = TabStops::new();
    small.insert_unique(v(10), NodeSide::new(1, Side::Left));
    small.insert_unique(v(10), NodeSide::new(2, Side::Left));
    small.insert_unique(v(30), NodeSide::new(2, Side::Right));
    small.insert_unique(h(5), NodeSide::new(1, Side::Top));
    let mut large = TabStops::new();
    large.insert_unique(h(50), NodeSide::new(1, Side::Top));
    large.insert_unique(v(300), NodeSide::new(2, Side::Right));
    large.insert_unique(v(100), NodeSide::new(2, Side::Left));
    large.insert_unique(v(100), NodeSide::new(1, Side::Left));
    assert!(small.eq(&large));
    assert!(large.eq(&small));
    assert!(small.eq(&small));
    let mut other = TabStops::new();
    other.insert_unique(h(50), NodeSide::new(1, Side::Top));
    other.insert_unique(v(300), NodeSide::new(2, Side::Left));
    other.insert_unique(v(100), NodeSide::new(2, Side::Right));
    other.insert_unique(v(300), NodeSide::new(1, Side::Left));
    assert!(!small.eq(&other));
    let mut fewer = TabStops::new();
    fewer.insert_unique(h(50), NodeSide::new(1, Side::Top));
    assert!(!small.eq(&fewer));
    let mut turned = TabStops::new();
    turned.insert_unique(v(50), NodeSide::new(1, Side::Top));
    assert!(!fewer.eq(&turned));
    assert!(TabStops::new().eq(&TabStops::new()));
}

#[test]
fn aligned_node_sides_are_kept_by_tab_stop() {
    let mut aligned = AlignedNodeSides::new();
    aligned.add_node(&v(10), NodeSide::new(1, Side::Left));
    aligned.add_node(&v(10), NodeSide::new(2, Side::Left));
    aligned.add_node(&v(10), NodeSide::new(1, Side::Left));
    aligned.add_node(&h(3), NodeSide::new(1, Side::Top));
    assert_eq!(aligned.aligned_nodes.tab_stops, vec![v(10), h(3)]);
    assert_eq!(
        aligned.aligned_nodes.get_nodes(&v(10)),
        Some(&vec![NodeSide::new(1, Side::Left), NodeSide::new(2, Side::Left)])
    );
}

#[test]
fn indexes_and_test_sets_can_be_checked() {
    let mut stops = TabStops::new();
    assert!(stops.is_well_formed());
    stops.insert_unique(v(10), NodeSide::new(1, Side::Left));
    stops.insert_unique(h(10), NodeSide::new(1, Side::Top));
    assert!(stops.is_well_formed());
    let mut twice = stops.clone();
    twice.tab_stops.push(v(10));
    twice.nodes.push(vec![NodeSide::new(2, Side::Left)]);
    assert!(!twice.is_well_formed());
    let mut empty = stops.clone();
    empty.nodes[1].clear();
    assert!(!empty.is_well_formed());
    let mut repeated = stops.clone();
    repeated.nodes[0].push(NodeSide::new(1, Side::Left));
    assert!(!repeated.is_well_formed());
    let mut short = stops.clone();
    short.nodes.pop();
    assert!(!short.is_well_formed());
    let tree = |size: i32| Nodes::new(vec![rendered(0, None, 1, (0, 0, size, size))], (size, size));
    let mut sets = generate_test_sets(
        vec![(TestSetId(1), tree(10), (10, 10)), (TestSetId(2), tree(20), (20, 20))],
        0,
    );
    assert!(sets.is_well_formed());
    sets.sets[1].id = TestSetId(1);
    assert!(!sets.is_well_formed());
    sets.sets[1].id = TestSetId(3);
    assert!(sets.is_well_formed());
    sets.sets[0].tab_stops.nodes.pop();
    assert!(!sets.is_well_formed());
}
