use layout_oracle::layout_validator::{Node, NodeData, Nodes, Rect};
use layout_oracle::server::JSONNode;

fn node(id: i32, parent: Option<i32>, line: i32, b: (i32, i32, i32, i32)) -> Node {
    Node::new(
        id,
        parent,
        NodeData {
            name: format!("node{}", id),
            actual_position_x: b.0,
            actual_position_y: b.1,
            actual_width: b.2,
            actual_height: b.3,
            render_position_x: b.0 + 1,
            render_position_y: b.1 + 2,
            render_width: b.2 + 3,
            render_height: b.3 + 4,
            line: line,
            file: "Main.ux".to_string(),
        },
    )
}

fn sample() -> Nodes {
    Nodes::new(
        vec![
            node(0, None, 1, (0, 0, 100, 100)),
            node(1, Some(0), 9, (0, 0, 50, 50)),
            node(2, Some(0), 3, (50, 0, 50, 50)),
            node(3, Some(1), 3, (10, 10, 10, 10)),
            node(4, Some(3), 5, (12, 12, 2, 2)),
        ],
        (100, 100),
    )
}

#[test]
fn new_keeps_the_later_of_two_nodes_with_one_id() {
    let nodes = Nodes::new(
        vec![
            node(5, None, 1, (0, 0, 1, 1)),
            node(6, Some(5), 2, (0, 0, 2, 2)),
            node(5, None, 3, (0, 0, 3, 3)),
        ],
        (10, 20),
    );
    assert_eq!(nodes.root_size, (10, 20));
    assert_eq!(nodes.ids, vec![5, 6]);
    assert_eq!(nodes.get_from_id(5).unwrap().node_data.line, 3);
    assert_eq!(nodes.get_from_id(6).unwrap().node_data.line, 2);
    assert!(nodes.get_from_id(7).is_none());
}

#[test]
fn tree_queries() {
    let nodes = sample();
    assert_eq!(nodes.parent_of(&3).unwrap().id, 1);
    assert_eq!(nodes.parent_of(&1).unwrap().id, 0);
    assert!(nodes.parent_of(&0).is_none());
    assert_eq!(nodes.children_of(&0), vec![1, 2]);
    assert_eq!(nodes.children_of(&1), vec![3]);
    assert_eq!(nodes.children_of(&4), Vec::<i32>::new());
    assert!(nodes.are_siblings(&1, &2));
    assert!(!nodes.are_siblings(&1, &3));
    assert!(!nodes.are_siblings(&0, &0));
    assert!(nodes.is_parent_of(&0, &1));
    assert!(!nodes.is_parent_of(&1, &0));
    assert!(!nodes.is_parent_of(&0, &3));
    assert!(nodes.is_ancestor_of(&0, &4));
    assert!(nodes.is_ancestor_of(&1, &4));
    assert!(!nodes.is_ancestor_of(&2, &4));
    assert!(!nodes.is_ancestor_of(&4, &4));
    assert!(!nodes.is_ancestor_of(&4, &0));
    assert!(!nodes.is_ancestor_of(&0, &77));
    assert!(nodes.can_be_reached_within_parent(&4));
}

#[test]
fn root_and_levels() {
    let nodes = sample();
    assert_eq!(nodes.root_node(), Some(0));
    assert_eq!(nodes.node_level(&0), 0);
    assert_eq!(nodes.node_level(&2), 1);
    assert_eq!(nodes.node_level(&4), 3);
    let empty = Nodes::new(vec![], (0, 0));
    assert_eq!(empty.root_node(), None);
    assert_eq!(empty.node_level(&3), 0);
    let started_below = Nodes::new(
        vec![node(8, Some(9), 1, (0, 0, 1, 1)), node(9, None, 2, (0, 0, 2, 2))],
        (1, 1),
    );
    assert_eq!(started_below.root_node(), Some(9));
    let dangling = Nodes::new(vec![node(8, Some(9), 1, (0, 0, 1, 1))], (1, 1));
    assert!(dangling.parent_of(&8).is_none());
}

#[test]
fn node_sets_and_ancestors() {
    let nodes = sample();
    assert!(nodes.node_set_has_ancestor_of(&vec![2, 1], &vec![0, 4]));
    assert!(!nodes.node_set_has_ancestor_of(&vec![2, 4], &vec![0, 3]));
    assert!(!nodes.node_set_has_ancestor_of(&vec![], &vec![0, 3]));
}

#[test]
fn boxes_of_nodes() {
    let nodes = sample();
    assert_eq!(nodes.rect_of(&1), Rect::new(1, 2, 53, 54));
    assert_eq!(nodes.area(&1), 50 + 50);
    assert_eq!(nodes.shared_area(&0, &2), 50 + 50);
    assert_eq!(nodes.shared_area(&1, &2), 0 + 50);
    assert_eq!(nodes.are_overlapping(&0, &2), Some(Rect::new(50, 0, 50, 50)));
    assert_eq!(nodes.are_overlapping(&1, &2), None);
    assert_eq!(nodes.are_overlapping(&1, &99), None);
    assert!(nodes.is_node_completely_inside_other(&3, &1));
    assert!(!nodes.is_node_completely_inside_other(&1, &3));
    assert!(nodes.is_node_completely_inside_other(&1, &1));
}

#[test]
fn rect_of_a_node_without_size_is_one_unit_wide() {
    let mut n = node(0, None, 1, (0, 0, 0, 0));
    n.node_data.render_width = 0;
    n.node_data.render_height = -5;
    let nodes = Nodes::new(vec![n], (1, 1));
    let r = nodes.rect_of(&0);
    assert_eq!(r.w, 1);
    assert_eq!(r.h, (i32::MAX / 2) as u32);
    assert_eq!(nodes.area(&0), 0);
}

#[test]
fn sorted_by_line_is_stable() {
    let nodes = sample();
    let sorted = nodes.sorted_by_line();
    let ids: Vec<i32> = sorted.iter().map(|n| n.id).collect();
    assert_eq!(ids, vec![0, 2, 3, 4, 1]);
    let lines: Vec<i32> = sorted.iter().map(|n| n.node_data.line).collect();
    assert_eq!(lines, vec![1, 3, 3, 5, 9]);
    assert_eq!(sorted[1].node_data.name, "node2");
}

#[test]
fn node_text() {
    let nodes = sample();
    assert_eq!(nodes.get_from_id(1).unwrap().to_text(), "1 @ L-9");
    assert_eq!(node(-3, None, -12, (0, 0, 0, 0)).to_text(), "-3 @ L--12");
    let copy = nodes.get_from_id(4).unwrap().duplicate();
    assert_eq!(copy.id, 4);
    assert_eq!(copy.parent, Some(3));
    assert_eq!(copy.node_data.name, "node4");
    assert_eq!(copy.node_data.file, "Main.ux");
}

fn leaf(name: &str, line: i32) -> JSONNode {
    JSONNode {
        children: vec![],
        name: name.to_string(),
        line: line,
        file: "App.ux".to_string(),
        actual_position_x: line,
        actual_position_y: line + 1,
        actual_width: line + 2,
        actual_height: line + 3,
        render_width: line + 4,
        render_height: line + 5,
        render_position_x: line + 6,
        render_position_y: line + 7,
    }
}

#[test]
fn nested_nodes_are_flattened_parent_first() {
    let mut root = leaf("root", 1);
    let mut panel = leaf("panel", 2);
    panel.children.push(leaf("text", 3));
    panel.children.push(leaf("image", 4));
    root.children.push(panel);
    root.children.push(leaf("footer", 5));
    let flat = root.into_validator_node();
    let names: Vec<&str> = flat.iter().map(|n| n.node_data.name.as_str()).collect();
    assert_eq!(names, vec!["root", "panel", "text", "image", "footer"]);
    let ids: Vec<i32> = flat.iter().map(|n| n.id).collect();
    assert_eq!(ids, vec![0, 1, 2, 3, 4]);
    let parents: Vec<Option<i32>> = flat.iter().map(|n| n.parent).collect();
    assert_eq!(parents, vec![None, Some(0), Some(1), Some(1), Some(0)]);
    let text = &flat[2].node_data;
    assert_eq!(text.line, 3);
    assert_eq!(text.file, "App.ux");
    assert_eq!(
        (text.actual_position_x, text.actual_position_y, text.actual_width, text.actual_height),
        (3, 4, 5, 6)
    );
    assert_eq!(
        (text.render_width, text.render_height, text.render_position_x, text.render_position_y),
        (7, 8, 9, 10)
    );
    let checked = root.checked_into_validator_node().unwrap();
    assert_eq!(checked.len(), 5);
    let nodes = Nodes::new(flat, (10, 10));
    assert_eq!(nodes.root_node(), Some(0));
    assert_eq!(nodes.node_level(&3), 2);
}

#[test]
fn checked_root_gives_up_on_cycles_and_missing_parents() {
    assert_eq!(sample().checked_root_node(), Some(0));
    assert_eq!(Nodes::new(vec![], (0, 0)).checked_root_node(), None);
    let cycle = Nodes::new(
        vec![node(1, Some(2), 1, (0, 0, 1, 1)), node(2, Some(1), 2, (0, 0, 1, 1))],
        (1, 1),
    );
    assert_eq!(cycle.checked_root_node(), None);
    let dangling = Nodes::new(vec![node(1, Some(2), 1, (0, 0, 1, 1))], (1, 1));
    assert_eq!(dangling.checked_root_node(), None);
    let chain = Nodes::new(
        vec![
            node(3, Some(2), 1, (0, 0, 1, 1)),
            node(2, Some(1), 2, (0, 0, 1, 1)),
            node(1, None, 3, (0, 0, 1, 1)),
        ],
        (1, 1),
    );
    assert_eq!(chain.checked_root_node(), Some(1));
    assert!(cycle.node_tree_lines().is_none());
}

#[test]
fn the_tree_is_described_from_the_leaves_up() {
    let nodes = sample();
    assert_eq!(nodes.node_line(&3, 2), "\t\tNode: 3 -- (W:10,H:10) - (DW:13,DH:14)");
    assert_eq!(
        nodes.node_tree_lines().unwrap(),
        vec![
            "\t\t\tNode: 4 -- (W:2,H:2) - (DW:5,DH:6)",
            "\t\tNode: 3 -- (W:10,H:10) - (DW:13,DH:14)",
            "\tNode: 1 -- (W:50,H:50) - (DW:53,DH:54)",
            "\tNode: 2 -- (W:50,H:50) - (DW:53,DH:54)",
            "Node: 0 -- (W:100,H:100) - (DW:103,DH:104)",
        ]
    );
    assert_eq!(
        nodes.node_lines(&1, 1, 1),
        vec![
            "\t\tNode: 3 -- (W:10,H:10) - (DW:13,DH:14)",
            "\tNode: 1 -- (W:50,H:50) - (DW:53,DH:54)",
        ]
    );
    assert_eq!(nodes.node_lines(&1, 0, 0), vec!["Node: 1 -- (W:50,H:50) - (DW:53,DH:54)"]);
}

#[test]
fn trees_can_be_checked() {
    assert!(sample().is_well_formed());
    assert!(Nodes::new(vec![], (0, 0)).is_well_formed());
    let mut twice = sample();
    twice.ids.push(3);
    assert!(!twice.is_well_formed());
    let mut missing = sample();
    missing.ids.pop();
    assert!(!missing.is_well_formed());
    let mut strange = sample();
    strange.ids[0] = 77;
    assert!(!strange.is_well_formed());
    let mut misfiled = sample();
    let n = misfiled.nodes.remove(&4).unwrap();
    misfiled.nodes.insert(5, n);
    misfiled.ids[4] = 5;
    assert!(!misfiled.is_well_formed());
}
