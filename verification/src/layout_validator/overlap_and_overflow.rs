//! The rules that find overlapping siblings and children that stick out of
//! their parent.

use vstd::math::{max, min};
use vstd::prelude::*;
use super::nodes::{Node, Nodes};
use super::rect::{clamped_rect, Rect};
use super::tab_stops::TabStops;
use super::validity_rules::{same_node_pair, views, LayoutViolation, ViolationView};
use crate::test_sets::TestSetId;

verus! {

/// Two overlapping siblings and what their declared boxes share.
#[derive(Debug, Clone, Copy, PartialEq, Eq, Structural)]
pub struct OverlapResult {
    pub node_a: i32,
    pub node_b: i32,
    pub intersection_rect: Rect,
}

impl OverlapResult {
    /// The area of the intersection.
    pub fn area(&self) -> (r: u64)
        ensures
            r == self.intersection_rect.w * self.intersection_rect.h,
    {
        self.intersection_rect.area()
    }
}

/// Where a child sticks out of its parent: as a whole, or on some of the
/// four sides.
#[derive(Debug, Clone, Copy, PartialEq, Eq, Structural)]
pub enum OverflowRect {
    Partial { left: Option<Rect>, top: Option<Rect>, right: Option<Rect>, bottom: Option<Rect> },
    Complete(Rect),
}

/// The area of a rectangle that may be missing.
pub open spec fn area_of(r: Option<Rect>) -> int {
    match r {
        Some(r) => r.w * r.h,
        None => 0,
    }
}

fn area_of_exec(r: &Option<Rect>) -> (a: u128)
    ensures
        a == area_of(*r),
        a <= u64::MAX,
{
    match r {
        Some(r) => r.area() as u128,
        None => 0,
    }
}

impl OverflowRect {
    /// The sum of the areas of the rectangles.
    pub open spec fn spec_area(&self) -> int {
        match *self {
            OverflowRect::Partial { left, top, right, bottom } => area_of(left) + area_of(top)
                + area_of(right) + area_of(bottom),
            OverflowRect::Complete(r) => r.w * r.h,
        }
    }

    /// The sum of the areas of the rectangles.
    pub fn area(&self) -> (r: u128)
        ensures
            r == self.spec_area(),
    {
        match self {
            OverflowRect::Partial { left, top, right, bottom } => {
                area_of_exec(left) + area_of_exec(top) + area_of_exec(right) + area_of_exec(
                    bottom,
                )
            },
            OverflowRect::Complete(r) => r.area() as u128,
        }
    }
}

/// A parent and a child that sticks out of it.
#[derive(Debug, Clone, Copy, PartialEq, Eq, Structural)]
pub struct OverflowResult {
    pub ancestor: i32,
    pub violating_node: i32,
    pub overflow_rect: OverflowRect,
}

/// What of `r2` lies outside `r1`, side by side. A side on which `r2` does
/// not reach beyond `r1` has no rectangle.
pub open spec fn spec_subtract_rects(r1: Rect, r2: Rect) -> OverflowRect {
    OverflowRect::Partial {
        left: if r2.x < r1.x {
            Some(clamped_rect(r2.x as int, r2.y as int, r1.x - r2.x, r2.h as int))
        } else {
            None
        },
        top: if r2.y < r1.y {
            Some(
                clamped_rect(
                    max(r2.x as int, r1.x as int),
                    min(r2.y as int, r1.y as int),
                    min(r2.w as int, r1.w as int),
                    r1.y - r2.y,
                ),
            )
        } else {
            None
        },
        right: if r2.spec_right() > r1.spec_right() {
            Some(
                clamped_rect(
                    r1.spec_right(),
                    r2.y as int,
                    r2.spec_right() - r1.spec_right(),
                    r2.h as int,
                ),
            )
        } else {
            None
        },
        bottom: if r2.spec_bottom() > r1.spec_bottom() {
            Some(
                clamped_rect(
                    r2.x as int,
                    r1.spec_bottom(),
                    r2.w as int,
                    r2.spec_bottom() - r1.spec_bottom(),
                ),
            )
        } else {
            None
        },
    }
}

/// Subtracts the rectangle `r1` of a parent from the rectangle `r2` of its
/// child: what is left of the child, at most one rectangle on each side.
pub fn subtract_rects(r1: &Rect, r2: &Rect) -> (r: OverflowRect)
    ensures
        r == spec_subtract_rects(*r1, *r2),
{
    let mut left: Option<Rect> = None;
    let mut top: Option<Rect> = None;
    let mut right: Option<Rect> = None;
    let mut bottom: Option<Rect> = None;
    if r2.left() < r1.left() {
        left = Some(
            Rect::from_wide(
                r2.left() as i64,
                r2.top() as i64,
                r1.left() as i64 - r2.left() as i64,
                r2.height() as i64,
            ),
        );
    }
    if r2.top() < r1.top() {
        let x = if r2.left() > r1.left() { r2.left() } else { r1.left() };
        let y = if r2.top() < r1.top() { r2.top() } else { r1.top() };
        let w = if r2.width() < r1.width() { r2.width() } else { r1.width() };
        top = Some(
            Rect::from_wide(x as i64, y as i64, w as i64, r1.top() as i64 - r2.top() as i64),
        );
    }
    if r2.right() > r1.right() {
        right = Some(
            Rect::from_wide(
                r1.right(),
                r2.top() as i64,
                r2.right() - r1.right(),
                r2.height() as i64,
            ),
        );
    }
    if r2.bottom() > r1.bottom() {
        bottom = Some(
            Rect::from_wide(
                r2.left() as i64,
                r1.bottom(),
                r2.width() as i64,
                r2.bottom() - r1.bottom(),
            ),
        );
    }
    OverflowRect::Partial { left: left, top: top, right: right, bottom: bottom }
}

/// What the overlap rule says of `a` and `b`: the intersection of their
/// declared boxes if they are siblings, neither box lies within the other,
/// and the boxes overlap.
pub open spec fn spec_check_overlap(nodes: &Nodes, a: i32, b: i32) -> Option<Rect> {
    if !nodes.spec_are_siblings(a, b) {
        None
    } else if nodes.node(a).node_data.inside(&nodes.node(b).node_data) || nodes.node(
        b,
    ).node_data.inside(&nodes.node(a).node_data) {
        None
    } else {
        nodes.spec_overlap(a, b)
    }
}

/// What the overflow rule says of `a` and `b`, if `a` is the parent of `b`:
/// the whole rendered box of `b` if the declared boxes do not overlap, and
/// what of the rendered box of `b` lies outside that of `a` if the declared
/// boxes have less in common than the declared box of `b` holds, by width
/// plus height. How `b` was rendered decides what the overflow looks like,
/// not whether there is one.
pub open spec fn spec_check_overflow(nodes: &Nodes, a: i32, b: i32) -> Option<OverflowRect> {
    if !nodes.spec_is_parent_of(a, b) {
        None
    } else {
        match nodes.spec_overlap(a, b) {
            Some(_) => if nodes.node(a).node_data.shared_pseudo_area(
                &nodes.node(b).node_data,
            ) < nodes.node(b).node_data.pseudo_area() {
                Some(
                    spec_subtract_rects(
                        nodes.node(a).node_data.render_rect(),
                        nodes.node(b).node_data.render_rect(),
                    ),
                )
            } else {
                None
            },
            None => Some(OverflowRect::Complete(nodes.node(b).node_data.render_rect())),
        }
    }
}

/// Applies the overlap rule to two nodes of the tree.
pub fn check_overlap(nodes: &Nodes, n1: &Node, n2: &Node) -> (r: Option<OverlapResult>)
    requires
        nodes.contains(n1.id),
        nodes.contains(n2.id),
    ensures
        r == match spec_check_overlap(nodes, n1.id, n2.id) {
            Some(rect) => Some(
                OverlapResult { node_a: n1.id, node_b: n2.id, intersection_rect: rect },
            ),
            None => None,
        },
{
    if !nodes.are_siblings(&n1.id, &n2.id) {
        return None;
    }
    if nodes.is_node_completely_inside_other(&n1.id, &n2.id)
        || nodes.is_node_completely_inside_other(&n2.id, &n1.id) {
        return None;
    }
    match nodes.are_overlapping(&n1.id, &n2.id) {
        Some(overlap_rect) => Some(
            OverlapResult { intersection_rect: overlap_rect, node_a: n1.id, node_b: n2.id },
        ),
        None => None,
    }
}

/// Applies the overflow rule to two nodes of the tree.
pub fn check_overflow(nodes: &Nodes, n1: &Node, n2: &Node) -> (r: Option<OverflowResult>)
    requires
        nodes.contains(n1.id),
        nodes.contains(n2.id),
    ensures
        r == match spec_check_overflow(nodes, n1.id, n2.id) {
            Some(rect) => Some(
                OverflowResult { ancestor: n1.id, violating_node: n2.id, overflow_rect: rect },
            ),
            None => None,
        },
{
    if !nodes.is_parent_of(&n1.id, &n2.id) {
        return None;
    }
    match nodes.are_overlapping(&n1.id, &n2.id) {
        Some(_) => {
            let intersection_area = nodes.shared_area(&n1.id, &n2.id);
            let node_area = nodes.area(&n2.id);
            if intersection_area < node_area {
                let ancestor_rect = nodes.rect_of(&n1.id);
                let node_rect = nodes.rect_of(&n2.id);
                let overflow_rect = subtract_rects(&ancestor_rect, &node_rect);
                Some(
                    OverflowResult {
                        ancestor: n1.id,
                        violating_node: n2.id,
                        overflow_rect: overflow_rect,
                    },
                )
            } else {
                None
            }
        },
        None => Some(
            OverflowResult {
                ancestor: n1.id,
                violating_node: n2.id,
                overflow_rect: OverflowRect::Complete(nodes.rect_of(&n2.id)),
            },
        ),
    }
}

/// What the two rules report of the two nodes `a` and `b`, of which `a`
/// comes first in the walk: their overlap, if they are siblings that
/// overlap; then the overflow of `b` out of `a`, if `a` is the parent of
/// `b`; then the overflow of `a` out of `b`, if `b` is the parent of `a`.
pub open spec fn pair_violations(nodes: &Nodes, test_set: TestSetId, a: i32, b: i32) -> Seq<
    ViolationView,
> {
    let overlap = match spec_check_overlap(nodes, a, b) {
        Some(rect) => seq![
            ViolationView::Overlap { test_set, node1: a, node2: b, intersection_rect: rect },
        ],
        None => Seq::empty(),
    };
    let overflow = match spec_check_overflow(nodes, a, b) {
        Some(rect) => seq![
            ViolationView::Overflow { test_set, node1: a, node2: b, overflow_rect: rect },
        ],
        None => Seq::empty(),
    };
    let overflow_back = match spec_check_overflow(nodes, b, a) {
        Some(rect) => seq![
            ViolationView::Overflow { test_set, node1: b, node2: a, overflow_rect: rect },
        ],
        None => Seq::empty(),
    };
    overlap + overflow + overflow_back
}

/// What is reported of the node at `i` of the walk and each node that comes
/// after it and before the place `n`, in the order of the walk.
pub open spec fn row_violations(nodes: &Nodes, test_set: TestSetId, i: int, n: int) -> Seq<
    ViolationView,
>
    decreases n - i,
{
    if n <= i + 1 {
        Seq::empty()
    } else {
        row_violations(nodes, test_set, i, n - 1) + pair_violations(
            nodes,
            test_set,
            nodes.order()[i],
            nodes.order()[n - 1],
        )
    }
}

/// What is reported of the first `m` nodes of the walk, each paired with
/// every node that comes after it.
pub open spec fn tree_violations(nodes: &Nodes, test_set: TestSetId, m: nat) -> Seq<ViolationView>
    decreases m,
{
    if m == 0 {
        Seq::empty()
    } else {
        tree_violations(nodes, test_set, (m - 1) as nat) + row_violations(
            nodes,
            test_set,
            m - 1,
            nodes.order().len() as int,
        )
    }
}

/// Applies the overlap rule and the overflow rule to every pair of nodes of
/// one test set. Each pair is seen once: two siblings that overlap are one
/// overlap, with the node that comes first in the walk as `node1`. The
/// overflow rule is tried both ways, since a parent may come before or after
/// its child. The tab stops play no part.
pub fn check_for_overlap_and_overflow(tab_stops: &TabStops, nodes: &Nodes, test_set: &TestSetId) -> (r:
    Vec<LayoutViolation>)
    requires
        nodes.wf(),
    ensures
        views(r@) == tree_violations(nodes, *test_set, nodes.order().len()),
{
    let mut violations: Vec<LayoutViolation> = Vec::new();
    let n = nodes.ids.len();
    let mut i: usize = 0;
    proof {
        assert(views(violations@) =~= Seq::<ViolationView>::empty());
    }
    while i < n
        invariant
            nodes.wf(),
            n == nodes.ids.len(),
            i <= n,
            views(violations@) == tree_violations(nodes, *test_set, i as nat),
        decreases n - i,
    {
        let id1 = nodes.ids[i];
        let ghost done = views(violations@);
        proof {
            assert(nodes.ids@.contains(id1));
        }
        let n1 = nodes.get_from_id(id1).unwrap();
        let mut j: usize = i + 1;
        proof {
            assert(views(violations@) =~= done + row_violations(
                nodes,
                *test_set,
                i as int,
                j as int,
            ));
        }
        while j < n
            invariant
                nodes.wf(),
                n == nodes.ids.len(),
                i < n,
                i + 1 <= j <= n,
                id1 == nodes.ids@[i as int],
                nodes.contains(id1),
                *n1 == nodes.node(id1),
                views(violations@) == done + row_violations(nodes, *test_set, i as int, j as int),
            decreases n - j,
        {
            let id2 = nodes.ids[j];
            proof {
                assert(nodes.ids@.contains(id2));
            }
            let n2 = nodes.get_from_id(id2).unwrap();
            let ghost before = views(violations@);
            let ghost row = row_violations(nodes, *test_set, i as int, j as int);
            match check_overlap(nodes, n1, n2) {
                Some(overlap_result) => {
                    let v = LayoutViolation::Overlap {
                        test_set: *test_set,
                        node1: id1,
                        node2: id2,
                        intersection_rect: overlap_result.intersection_rect,
                    };
                    violations.push(v);
                    proof {
                        assert(views(violations@) =~= before.push(v@));
                    }
                },
                None => {},
            }
            let ghost middle = views(violations@);
            match check_overflow(nodes, n1, n2) {
                Some(overflow_result) => {
                    let v = LayoutViolation::Overflow {
                        test_set: *test_set,
                        node1: id1,
                        node2: id2,
                        overflow_rect: overflow_result.overflow_rect,
                    };
                    violations.push(v);
                    proof {
                        assert(views(violations@) =~= middle.push(v@));
                    }
                },
                None => {},
            }
            let ghost late = views(violations@);
            match check_overflow(nodes, n2, n1) {
                Some(overflow_result) => {
                    let v = LayoutViolation::Overflow {
                        test_set: *test_set,
                        node1: id2,
                        node2: id1,
                        overflow_rect: overflow_result.overflow_rect,
                    };
                    violations.push(v);
                    proof {
                        assert(views(violations@) =~= late.push(v@));
                    }
                },
                None => {},
            }
            proof {
                assert(views(violations@) =~= before + pair_violations(
                    nodes,
                    *test_set,
                    id1,
                    id2,
                ));
                assert(views(violations@) =~= done + (row + pair_violations(
                    nodes,
                    *test_set,
                    id1,
                    id2,
                )));
            }
            j += 1;
        }
        i += 1;
    }
    violations
}

/// The overlap rule does not depend on the order of the two nodes.
pub proof fn lemma_overlap_is_symmetric(nodes: &Nodes, a: i32, b: i32)
    requires
        nodes.contains(a),
        nodes.contains(b),
    ensures
        spec_check_overlap(nodes, a, b) == spec_check_overlap(nodes, b, a),
{
}

/// Siblings of which one lies within the other are no overlap, though their
/// boxes intersect.
pub proof fn lemma_contained_sibling_is_no_overlap(nodes: &Nodes, a: i32, b: i32)
    requires
        nodes.spec_are_siblings(a, b),
        nodes.node(a).node_data.inside(&nodes.node(b).node_data) || nodes.node(b).node_data.inside(
            &nodes.node(a).node_data,
        ),
    ensures
        spec_check_overlap(nodes, a, b) is None,
        spec_check_overlap(nodes, b, a) is None,
{
}

/// A child whose declared box shares nothing with that of its parent
/// overflows with the whole of its rendered box.
pub proof fn lemma_disjoint_child_overflows_completely(nodes: &Nodes, parent: i32, child: i32)
    requires
        nodes.spec_is_parent_of(parent, child),
        nodes.spec_overlap(parent, child) is None,
    ensures
        spec_check_overflow(nodes, parent, child) == Some(
            OverflowRect::Complete(nodes.node(child).node_data.render_rect()),
        ),
{
}

/// A child overflows unless its declared box lies within that of its parent
/// and overlaps it, however it was rendered. Boxes without width or height
/// may lie within another and yet not overlap it.
pub proof fn lemma_overflow_is_not_lying_within(nodes: &Nodes, parent: i32, child: i32)
    requires
        nodes.contains(parent),
        nodes.contains(child),
        nodes.spec_is_parent_of(parent, child),
    ensures
        spec_check_overflow(nodes, parent, child) is None <==> nodes.node(child).node_data.inside(
            &nodes.node(parent).node_data,
        ) && nodes.node(parent).node_data.overlaps(&nodes.node(child).node_data),
{
}

/// A child whose declared box has width and height and lies within that of
/// its parent does not overflow, however it was rendered.
pub proof fn lemma_contained_child_does_not_overflow(nodes: &Nodes, parent: i32, child: i32)
    requires
        nodes.contains(parent),
        nodes.contains(child),
        nodes.spec_is_parent_of(parent, child),
        nodes.node(child).node_data.inside(&nodes.node(parent).node_data),
        nodes.node(child).node_data.actual_width > 0,
        nodes.node(child).node_data.actual_height > 0,
    ensures
        spec_check_overflow(nodes, parent, child) is None,
{
}

/// What is reported of a pair stands in the report of its row.
pub proof fn lemma_row_holds_pair(
    nodes: &Nodes,
    test_set: TestSetId,
    i: int,
    n: int,
    j: int,
    v: ViolationView,
)
    requires
        i < j < n,
        pair_violations(nodes, test_set, nodes.order()[i], nodes.order()[j]).contains(v),
    ensures
        row_violations(nodes, test_set, i, n).contains(v),
    decreases n - i,
{
    let before = row_violations(nodes, test_set, i, n - 1);
    let pair = pair_violations(nodes, test_set, nodes.order()[i], nodes.order()[n - 1]);
    if j == n - 1 {
        let k = choose|k: int| 0 <= k < pair.len() && pair[k] == v;
        assert((before + pair)[before.len() + k] == v);
    } else {
        lemma_row_holds_pair(nodes, test_set, i, n - 1, j, v);
        let k = choose|k: int| 0 <= k < before.len() && before[k] == v;
        assert((before + pair)[k] == v);
    }
}

/// What is reported of a pair of nodes of the tree stands in the report of
/// the tree.
pub proof fn lemma_tree_holds_pair(
    nodes: &Nodes,
    test_set: TestSetId,
    m: nat,
    i: int,
    j: int,
    v: ViolationView,
)
    requires
        0 <= i < m,
        i < j < nodes.order().len(),
        pair_violations(nodes, test_set, nodes.order()[i], nodes.order()[j]).contains(v),
    ensures
        tree_violations(nodes, test_set, m).contains(v),
    decreases m,
{
    let before = tree_violations(nodes, test_set, (m - 1) as nat);
    let row = row_violations(nodes, test_set, m - 1, nodes.order().len() as int);
    if i == m - 1 {
        lemma_row_holds_pair(nodes, test_set, i, nodes.order().len() as int, j, v);
        let k = choose|k: int| 0 <= k < row.len() && row[k] == v;
        assert((before + row)[before.len() + k] == v);
    } else {
        lemma_tree_holds_pair(nodes, test_set, (m - 1) as nat, i, j, v);
        let k = choose|k: int| 0 <= k < before.len() && before[k] == v;
        assert((before + row)[k] == v);
    }
}

/// Every violation in the report of the tree is what the rules say of some
/// pair of nodes of the tree.
pub proof fn lemma_tree_violations_come_from_pairs(
    nodes: &Nodes,
    test_set: TestSetId,
    m: nat,
    v: ViolationView,
)
    requires
        m <= nodes.order().len(),
        tree_violations(nodes, test_set, m).contains(v),
    ensures
        exists|i: int, j: int|
            0 <= i < m && i < j < nodes.order().len() && #[trigger] pair_violations(
                nodes,
                test_set,
                nodes.order()[i],
                nodes.order()[j],
            ).contains(v),
    decreases m,
{
    let before = tree_violations(nodes, test_set, (m - 1) as nat);
    let row = row_violations(nodes, test_set, m - 1, nodes.order().len() as int);
    let k = choose|k: int| 0 <= k < (before + row).len() && (before + row)[k] == v;
    if k < before.len() {
        assert(before[k] == v);
        lemma_tree_violations_come_from_pairs(nodes, test_set, (m - 1) as nat, v);
    } else {
        assert(row[k - before.len()] == v);
        lemma_row_violations_come_from_pairs(nodes, test_set, m - 1, nodes.order().len() as int, v);
    }
}

/// Every violation in the report of a row is what the rules say of the node
/// of the row and some node after it.
pub proof fn lemma_row_violations_come_from_pairs(
    nodes: &Nodes,
    test_set: TestSetId,
    i: int,
    n: int,
    v: ViolationView,
)
    requires
        row_violations(nodes, test_set, i, n).contains(v),
    ensures
        exists|j: int|
            i < j < n && #[trigger] pair_violations(
                nodes,
                test_set,
                nodes.order()[i],
                nodes.order()[j],
            ).contains(v),
    decreases n - i,
{
    if n > i + 1 {
        let before = row_violations(nodes, test_set, i, n - 1);
        let pair = pair_violations(nodes, test_set, nodes.order()[i], nodes.order()[n - 1]);
        let k = choose|k: int| 0 <= k < (before + pair).len() && (before + pair)[k] == v;
        if k < before.len() {
            assert(before[k] == v);
            lemma_row_violations_come_from_pairs(nodes, test_set, i, n - 1, v);
        } else {
            assert(pair[k - before.len()] == v);
            assert(pair_violations(
                nodes,
                test_set,
                nodes.order()[i],
                nodes.order()[n - 1],
            ).contains(v));
        }
    }
}

/// How many of the violations are overlaps of the two nodes, in whatever
/// order the overlap names them.
pub open spec fn overlap_count(s: Seq<ViolationView>, a: i32, b: i32) -> nat
    decreases s.len(),
{
    if s.len() == 0 {
        0
    } else {
        overlap_count(s.drop_last(), a, b) + if is_overlap_of(s.last(), a, b) {
            1nat
        } else {
            0nat
        }
    }
}

/// True if the violation is an overlap of the two nodes, in whatever order
/// it names them.
pub open spec fn is_overlap_of(v: ViolationView, a: i32, b: i32) -> bool {
    v matches ViolationView::Overlap { node1, node2, .. } && same_node_pair(node1, node2, a, b)
}

/// The overlaps of two sequences are counted one sequence after the other.
pub proof fn lemma_overlap_count_adds(s: Seq<ViolationView>, t: Seq<ViolationView>, a: i32, b: i32)
    ensures
        overlap_count(s + t, a, b) == overlap_count(s, a, b) + overlap_count(t, a, b),
    decreases t.len(),
{
    if t.len() == 0 {
        assert(s + t =~= s);
    } else {
        assert((s + t).drop_last() =~= s + t.drop_last());
        lemma_overlap_count_adds(s, t.drop_last(), a, b);
    }
}

/// A pair of nodes gives one overlap of the two nodes `a` and `b` if it is
/// this pair and the overlap rule applies to it, and none otherwise.
pub proof fn lemma_overlap_count_of_pair(
    nodes: &Nodes,
    test_set: TestSetId,
    x: i32,
    y: i32,
    a: i32,
    b: i32,
)
    ensures
        overlap_count(pair_violations(nodes, test_set, x, y), a, b) == if spec_check_overlap(
            nodes,
            x,
            y,
        ) is Some && same_node_pair(x, y, a, b) {
            1nat
        } else {
            0nat
        },
{
    let overlap = match spec_check_overlap(nodes, x, y) {
        Some(rect) => seq![
            ViolationView::Overlap { test_set, node1: x, node2: y, intersection_rect: rect },
        ],
        None => Seq::empty(),
    };
    let overflow = match spec_check_overflow(nodes, x, y) {
        Some(rect) => seq![
            ViolationView::Overflow { test_set, node1: x, node2: y, overflow_rect: rect },
        ],
        None => Seq::empty(),
    };
    let overflow_back = match spec_check_overflow(nodes, y, x) {
        Some(rect) => seq![
            ViolationView::Overflow { test_set, node1: y, node2: x, overflow_rect: rect },
        ],
        None => Seq::empty(),
    };
    lemma_overlap_count_adds(overlap + overflow, overflow_back, a, b);
    lemma_overlap_count_adds(overlap, overflow, a, b);
    lemma_overlap_count_of_one(overlap, a, b);
    lemma_overlap_count_of_one(overflow, a, b);
    lemma_overlap_count_of_one(overflow_back, a, b);
}

/// In a sequence of one violation at most, the overlaps of two nodes are
/// that violation, if it is one.
pub proof fn lemma_overlap_count_of_one(s: Seq<ViolationView>, a: i32, b: i32)
    requires
        s.len() <= 1,
    ensures
        overlap_count(s, a, b) == if s.len() == 1 && is_overlap_of(s[0], a, b) {
            1nat
        } else {
            0nat
        },
{
    if s.len() == 1 {
        assert(s.drop_last().len() == 0);
        assert(overlap_count(s.drop_last(), a, b) == 0);
    }
}

/// A row holds the overlap of the nodes at `p` and `q` of the walk, `p`
/// before `q`, once if it is the row of `p`, reaches `q`, and the overlap
/// rule applies to the two; otherwise it holds none.
pub proof fn lemma_overlap_count_of_row(
    nodes: &Nodes,
    test_set: TestSetId,
    i: int,
    n: int,
    p: int,
    q: int,
)
    requires
        nodes.wf(),
        0 <= i,
        n <= nodes.order().len(),
        0 <= p < q < nodes.order().len(),
    ensures
        overlap_count(
            row_violations(nodes, test_set, i, n),
            nodes.order()[p],
            nodes.order()[q],
        ) == if i == p && q < n && spec_check_overlap(nodes, nodes.order()[p], nodes.order()[q])
            is Some {
            1nat
        } else {
            0nat
        },
    decreases n - i,
{
    if n > i + 1 {
        let a = nodes.order()[p];
        let b = nodes.order()[q];
        let x = nodes.order()[i];
        let y = nodes.order()[n - 1];
        lemma_overlap_count_of_row(nodes, test_set, i, n - 1, p, q);
        lemma_overlap_count_of_pair(nodes, test_set, x, y, a, b);
        lemma_overlap_count_adds(
            row_violations(nodes, test_set, i, n - 1),
            pair_violations(nodes, test_set, x, y),
            a,
            b,
        );
        assert(same_node_pair(x, y, a, b) <==> (i == p && n - 1 == q));
    }
}

/// The report of the first `m` nodes holds the overlap of the nodes at `p`
/// and `q` of the walk, `p` before `q`, once if `p` is among them and the
/// overlap rule applies to the two; otherwise it holds none.
pub proof fn lemma_overlap_count_of_tree(
    nodes: &Nodes,
    test_set: TestSetId,
    m: nat,
    p: int,
    q: int,
)
    requires
        nodes.wf(),
        m <= nodes.order().len(),
        0 <= p < q < nodes.order().len(),
    ensures
        overlap_count(
            tree_violations(nodes, test_set, m),
            nodes.order()[p],
            nodes.order()[q],
        ) == if p < m && spec_check_overlap(nodes, nodes.order()[p], nodes.order()[q]) is Some {
            1nat
        } else {
            0nat
        },
    decreases m,
{
    if m > 0 {
        lemma_overlap_count_of_tree(nodes, test_set, (m - 1) as nat, p, q);
        lemma_overlap_count_of_row(nodes, test_set, m - 1, nodes.order().len() as int, p, q);
        lemma_overlap_count_adds(
            tree_violations(nodes, test_set, (m - 1) as nat),
            row_violations(nodes, test_set, m - 1, nodes.order().len() as int),
            nodes.order()[p],
            nodes.order()[q],
        );
    }
}

/// Two overlapping siblings are reported once, whichever of the two comes
/// first in the walk: the report holds the overlap with the earlier node as
/// `node1`, and no other overlap of the two.
pub proof fn lemma_overlap_is_reported_once(nodes: &Nodes, test_set: TestSetId, p: int, q: int)
    requires
        nodes.wf(),
        0 <= p < q < nodes.order().len(),
        spec_check_overlap(nodes, nodes.order()[p], nodes.order()[q]) is Some,
    ensures
        ({
            let a = nodes.order()[p];
            let b = nodes.order()[q];
            let report = tree_violations(nodes, test_set, nodes.order().len());
            &&& spec_check_overlap(nodes, b, a) == spec_check_overlap(nodes, a, b)
            &&& report.contains(
                ViolationView::Overlap {
                    test_set,
                    node1: a,
                    node2: b,
                    intersection_rect: spec_check_overlap(nodes, a, b)->0,
                },
            )
            &&& overlap_count(report, a, b) == 1
            &&& overlap_count(report, b, a) == 1
        }),
{
    let a = nodes.order()[p];
    let b = nodes.order()[q];
    let n = nodes.order().len();
    assert(nodes.order().contains(a));
    assert(nodes.order().contains(b));
    lemma_overlap_is_symmetric(nodes, a, b);
    let one = ViolationView::Overlap {
        test_set,
        node1: a,
        node2: b,
        intersection_rect: spec_check_overlap(nodes, a, b)->0,
    };
    assert(pair_violations(nodes, test_set, a, b)[0] == one);
    lemma_tree_holds_pair(nodes, test_set, n, p, q, one);
    lemma_overlap_count_of_tree(nodes, test_set, n, p, q);
    lemma_overlap_count_is_symmetric(tree_violations(nodes, test_set, n), a, b);
}

/// The overlaps of two nodes are counted alike in either order of the two.
pub proof fn lemma_overlap_count_is_symmetric(s: Seq<ViolationView>, a: i32, b: i32)
    ensures
        overlap_count(s, a, b) == overlap_count(s, b, a),
    decreases s.len(),
{
    if s.len() > 0 {
        lemma_overlap_count_is_symmetric(s.drop_last(), a, b);
    }
}

} // verus!
