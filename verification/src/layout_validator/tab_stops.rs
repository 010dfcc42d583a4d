//! Tab stops: the coordinate lines on which the edges of nodes lie.

use vstd::prelude::*;
use super::nodes::Nodes;
use super::tab_stop_order::{
    is_sorted_stops, lemma_sorted_stops, lemma_sorted_stops_unique, sort_tab_stops,
};
use crate::text::{decimal, push_decimal, push_text};

verus! {

/// The direction in which a tab stop runs. A horizontal tab stop is a line
/// at a y position, a vertical one a line at an x position.
#[derive(Hash, PartialOrd, Ord, Eq, PartialEq, Debug, Clone, Copy, Structural)]
pub enum Orientation {
    Horizontal,
    Vertical,
}

/// An edge of a box.
#[derive(Hash, PartialOrd, Ord, Eq, PartialEq, Debug, Clone, Copy, Structural)]
pub enum Side {
    Left,
    Right,
    Top,
    Bottom,
}

impl Side {
    /// The name of the side.
    pub open spec fn spec_name(&self) -> Seq<char> {
        match *self {
            Side::Left => "Left"@,
            Side::Right => "Right"@,
            Side::Top => "Top"@,
            Side::Bottom => "Bottom"@,
        }
    }

    /// The first letter of the name of the side.
    pub open spec fn spec_letter(&self) -> Seq<char> {
        match *self {
            Side::Left => "L"@,
            Side::Right => "R"@,
            Side::Top => "T"@,
            Side::Bottom => "B"@,
        }
    }

    /// The name of the side: `Left`, `Right`, `Top` or `Bottom`.
    pub fn name(&self) -> (r: &'static str)
        ensures
            r@ == self.spec_name(),
    {
        match self {
            Side::Left => "Left",
            Side::Right => "Right",
            Side::Top => "Top",
            Side::Bottom => "Bottom",
        }
    }

    /// The first letter of the name of the side.
    pub fn letter(&self) -> (r: &'static str)
        ensures
            r@ == self.spec_letter(),
    {
        match self {
            Side::Left => "L",
            Side::Right => "R",
            Side::Top => "T",
            Side::Bottom => "B",
        }
    }
}

/// One edge of one node.
#[derive(Hash, PartialOrd, Ord, Eq, PartialEq, Debug, Clone, Copy, Structural)]
pub struct NodeSide {
    pub node: i32,
    pub side: Side,
}

impl NodeSide {
    /// This side of this node.
    pub fn new(node: i32, side: Side) -> (r: NodeSide)
        ensures
            r == (NodeSide { node, side }),
    {
        NodeSide { node: node, side: side }
    }

    /// The node side as text: the id of the node and the name of the side.
    pub open spec fn spec_text(&self) -> Seq<char> {
        decimal(self.node as int) + ":"@ + self.side.spec_name()
    }

    /// The node side as text, such as `3:Left`.
    pub fn to_text(&self) -> (r: String)
        ensures
            r@ == self.spec_text(),
    {
        let mut s = String::new();
        push_decimal(&mut s, self.node as i64);
        push_text(&mut s, ":");
        push_text(&mut s, self.side.name());
        proof {
            assert(s@ =~= self.spec_text());
        }
        s
    }

    /// The node side as text with the line of its node.
    pub open spec fn spec_format(&self, nodes: &Nodes) -> Seq<char> {
        self.side.spec_name() + "-"@ + decimal(nodes.node(self.node).id as int) + " @ L-"@
            + decimal(nodes.node(self.node).node_data.line as int)
    }

    /// The node side as text with the line of its node, such as
    /// `Left-3 @ L-12`.
    pub fn format(&self, nodes: &Nodes) -> (r: String)
        requires
            nodes.contains(self.node),
        ensures
            r@ == self.spec_format(nodes),
    {
        let mut ret = String::new();
        push_text(&mut ret, self.side.name());
        let node = nodes.get_from_id(self.node).unwrap();
        push_text(&mut ret, "-");
        push_decimal(&mut ret, node.id as i64);
        push_text(&mut ret, " @ L-");
        push_decimal(&mut ret, node.node_data.line as i64);
        proof {
            assert(ret@ =~= self.spec_format(nodes));
        }
        ret
    }
}

/// A coordinate line in rendered space. The position is wide enough for the
/// far edge of any box with `i32` position and size.
#[derive(Hash, Eq, PartialEq, Debug, Clone, Copy, Structural)]
pub struct TabStop {
    pub orientation: Orientation,
    pub pos: i64,
}

/// How close to a tab stop a pointer has to be to hit it.
pub const HIT_DISTANCE: i64 = 15;

impl TabStop {
    /// The tab stop at this position that runs this way.
    pub fn new(pos: i64, o: Orientation) -> (r: TabStop)
        ensures
            r == (TabStop { orientation: o, pos }),
    {
        TabStop { pos: pos, orientation: o }
    }

    /// The distance along the axis that the tab stop crosses between the
    /// tab stop and a point.
    pub open spec fn distance_to(&self, point: (i32, i32)) -> int {
        let coordinate = match self.orientation {
            Orientation::Horizontal => point.1,
            Orientation::Vertical => point.0,
        };
        if coordinate >= self.pos {
            coordinate - self.pos
        } else {
            self.pos - coordinate
        }
    }

    /// True if the pointer is less than `HIT_DISTANCE` away from the line.
    pub fn hit_test(&self, mouse_pos: (i32, i32)) -> (r: bool)
        ensures
            r == (self.distance_to(mouse_pos) < HIT_DISTANCE),
    {
        let coordinate: i128 = match self.orientation {
            Orientation::Horizontal => mouse_pos.1 as i128,
            Orientation::Vertical => mouse_pos.0 as i128,
        };
        let pos: i128 = self.pos as i128;
        let distance: i128 = if coordinate >= pos {
            coordinate - pos
        } else {
            pos - coordinate
        };
        distance < 15
    }
}

/// One tab stop with the node sides that lie on it.
pub type TabStopEntry = (TabStop, Seq<NodeSide>);

/// The entries after `node_side` was put on `tab_stop`: a tab stop that is
/// new gets an entry at the end, a node side that is new on its tab stop is
/// put at the end of that entry, and one that is there already changes
/// nothing.
pub open spec fn inserted(entries: Seq<TabStopEntry>, tab_stop: TabStop, node_side: NodeSide) -> Seq<
    TabStopEntry,
> {
    match stops_of(entries).index_of_first(tab_stop) {
        Some(i) => if entries[i].1.contains(node_side) {
            entries
        } else {
            entries.update(i, (tab_stop, entries[i].1.push(node_side)))
        },
        None => entries.push((tab_stop, seq![node_side])),
    }
}

/// The tab stops of the entries, in their order.
pub open spec fn stops_of(entries: Seq<TabStopEntry>) -> Seq<TabStop> {
    entries.map_values(|e: TabStopEntry| e.0)
}

/// The node sides that the entries hold for a tab stop: nothing if the tab
/// stop has no entry.
pub open spec fn sides_on(entries: Seq<TabStopEntry>, tab_stop: TabStop) -> Seq<NodeSide> {
    match stops_of(entries).index_of_first(tab_stop) {
        Some(i) => entries[i].1,
        None => Seq::empty(),
    }
}

/// True if no tab stop has two entries, no entry is empty, and no entry
/// holds a node side twice.
pub open spec fn entries_wf(entries: Seq<TabStopEntry>) -> bool {
    &&& stops_of(entries).no_duplicates()
    &&& forall|i: int| 0 <= i < entries.len() ==> (#[trigger] entries[i]).1.len() > 0
    &&& forall|i: int| 0 <= i < entries.len() ==> (#[trigger] entries[i]).1.no_duplicates()
}

/// The tab stops of one test set, each with the node sides that lie on it,
/// in the order in which they were first seen.
#[derive(Debug)]
pub struct TabStops {
    pub tab_stops: Vec<TabStop>,
    pub nodes: Vec<Vec<NodeSide>>,
}

/// A copy of a list of node sides.
fn copy_node_sides(list: &Vec<NodeSide>) -> (r: Vec<NodeSide>)
    ensures
        r@ == list@,
{
    let mut copy: Vec<NodeSide> = Vec::new();
    let mut i: usize = 0;
    while i < list.len()
        invariant
            i <= list.len(),
            copy@ == list@.take(i as int),
        decreases list.len() - i,
    {
        copy.push(list[i]);
        proof {
            assert(list@.take(i + 1) =~= list@.take(i as int).push(list@[i as int]));
        }
        i += 1;
    }
    proof {
        assert(list@.take(list.len() as int) =~= list@);
    }
    copy
}

impl Clone for TabStops {
    fn clone(&self) -> (r: TabStops)
        ensures
            r.tab_stops@ == self.tab_stops@,
            r.nodes@.len() == self.nodes@.len(),
            forall|i: int| 0 <= i < self.nodes@.len() ==> (#[trigger] r.nodes@[i])@ == self.nodes@[i]@,
            self.tab_stops@.len() == self.nodes@.len() ==> r@ == self@,
    {
        let mut tab_stops: Vec<TabStop> = Vec::new();
        let mut i: usize = 0;
        while i < self.tab_stops.len()
            invariant
                i <= self.tab_stops.len(),
                tab_stops@ == self.tab_stops@.take(i as int),
            decreases self.tab_stops.len() - i,
        {
            tab_stops.push(self.tab_stops[i]);
            proof {
                assert(self.tab_stops@.take(i + 1) =~= self.tab_stops@.take(i as int).push(
                    self.tab_stops@[i as int],
                ));
            }
            i += 1;
        }
        let mut nodes: Vec<Vec<NodeSide>> = Vec::new();
        let mut k: usize = 0;
        while k < self.nodes.len()
            invariant
                k <= self.nodes.len(),
                nodes@.len() == k,
                forall|j: int| 0 <= j < k ==> (#[trigger] nodes@[j])@ == self.nodes@[j]@,
            decreases self.nodes.len() - k,
        {
            nodes.push(copy_node_sides(&self.nodes[k]));
            k += 1;
        }
        let r = TabStops { tab_stops: tab_stops, nodes: nodes };
        proof {
            if self.tab_stops@.len() == self.nodes@.len() {
                assert(r@ =~= self@);
            }
        }
        r
    }
}

impl View for TabStops {
    type V = Seq<TabStopEntry>;

    open spec fn view(&self) -> Seq<TabStopEntry> {
        Seq::new(self.tab_stops@.len(), |i: int| (self.tab_stops@[i], self.nodes@[i]@))
    }
}

/// True if the list holds the node side.
pub fn holds_node_side(list: &Vec<NodeSide>, node_side: &NodeSide) -> (r: bool)
    ensures
        r == list@.contains(*node_side),
{
    let mut i: usize = 0;
    while i < list.len()
        invariant
            i <= list.len(),
            forall|j: int| 0 <= j < i ==> list@[j] != *node_side,
        decreases list.len() - i,
    {
        if list[i] == *node_side {
            return true;
        }
        i += 1;
    }
    false
}

/// True if no node side stands twice in the list.
pub fn no_node_side_twice(list: &Vec<NodeSide>) -> (r: bool)
    ensures
        r == list@.no_duplicates(),
{
    let mut i: usize = 0;
    while i < list.len()
        invariant
            i <= list.len(),
            forall|a: int, b: int| 0 <= a < b < i ==> list@[a] != list@[b],
        decreases list.len() - i,
    {
        let mut k: usize = 0;
        while k < i
            invariant
                k <= i,
                i < list.len(),
                forall|a: int| 0 <= a < k ==> list@[a] != list@[i as int],
            decreases i - k,
        {
            if list[k] == list[i] {
                return false;
            }
            k += 1;
        }
        i += 1;
    }
    true
}

/// True if the list holds a side of the node.
pub fn holds_side_of_node(list: &Vec<NodeSide>, node: i32) -> (r: bool)
    ensures
        r == exists|j: int| 0 <= j < list@.len() && (#[trigger] list@[j]).node == node,
{
    let mut i: usize = 0;
    while i < list.len()
        invariant
            i <= list.len(),
            forall|j: int| 0 <= j < i ==> (#[trigger] list@[j]).node != node,
        decreases list.len() - i,
    {
        if list[i].node == node {
            return true;
        }
        i += 1;
    }
    false
}

/// True if the two lists hold the same node sides, in whatever order.
pub fn same_node_sides(a: &Vec<NodeSide>, b: &Vec<NodeSide>) -> (r: bool)
    ensures
        r == (a@.to_set() == b@.to_set()),
{
    let mut i: usize = 0;
    while i < a.len()
        invariant
            i <= a.len(),
            forall|j: int| 0 <= j < i ==> b@.contains(#[trigger] a@[j]),
        decreases a.len() - i,
    {
        if !holds_node_side(b, &a[i]) {
            proof {
                assert(a@.to_set().contains(a@[i as int]));
            }
            return false;
        }
        i += 1;
    }
    let mut k: usize = 0;
    while k < b.len()
        invariant
            k <= b.len(),
            forall|j: int| 0 <= j < a@.len() ==> b@.contains(#[trigger] a@[j]),
            forall|j: int| 0 <= j < k ==> a@.contains(#[trigger] b@[j]),
        decreases b.len() - k,
    {
        if !holds_node_side(a, &b[k]) {
            proof {
                assert(b@.to_set().contains(b@[k as int]));
            }
            return false;
        }
        k += 1;
    }
    proof {
        assert(a@.to_set() =~= b@.to_set());
    }
    true
}

impl TabStops {
    /// The two vectors run in step, and the entries are well formed.
    pub open spec fn wf(&self) -> bool {
        &&& self.tab_stops@.len() == self.nodes@.len()
        &&& entries_wf(self@)
    }

    /// True if the entry at `k` is the first that holds the node side.
    pub open spec fn first_with_side(&self, node_side: NodeSide, k: int) -> bool {
        &&& 0 <= k < self@.len()
        &&& self@[k].1.contains(node_side)
        &&& forall|j: int| 0 <= j < k ==> !(#[trigger] self@[j]).1.contains(node_side)
    }

    /// True if the entry at `k` holds a side of the node.
    pub open spec fn has_node_at(&self, node: i32, k: int) -> bool {
        exists|j: int| 0 <= j < self@[k].1.len() && (#[trigger] self@[k].1[j]).node == node
    }

    /// True if the entry at `k` is the first that holds a side of the node.
    pub open spec fn first_with_node(&self, node: i32, k: int) -> bool {
        &&& 0 <= k < self@.len()
        &&& self.has_node_at(node, k)
        &&& forall|j: int| 0 <= j < k ==> !self.has_node_at(node, j)
    }

    /// True if `ts1` here and `ts2` in `other` run the same way and carry
    /// the same node sides.
    pub open spec fn spec_equal_by_nodes(&self, other: &TabStops, ts1: TabStop, ts2: TabStop) -> bool {
        &&& ts1.orientation == ts2.orientation
        &&& stops_of(other@).contains(ts2)
        &&& sides_on(self@, ts1).to_set() == sides_on(other@, ts2).to_set()
    }

    /// Tells whether the index is well formed, which is what most of its
    /// functions ask for. An index that was filled by
    /// [`TabStops::insert_unique`] is.
    pub fn is_well_formed(&self) -> (r: bool)
        ensures
            r == self.wf(),
    {
        if self.tab_stops.len() != self.nodes.len() {
            return false;
        }
        proof {
            assert(stops_of(self@) =~= self.tab_stops@);
        }
        let mut i: usize = 0;
        while i < self.tab_stops.len()
            invariant
                i <= self.tab_stops.len(),
                self.tab_stops@.len() == self.nodes@.len(),
                stops_of(self@) == self.tab_stops@,
                forall|a: int, b: int|
                    0 <= a < b < i ==> self.tab_stops@[a] != self.tab_stops@[b],
                forall|j: int| 0 <= j < i ==> (#[trigger] self@[j]).1.len() > 0,
                forall|j: int| 0 <= j < i ==> (#[trigger] self@[j]).1.no_duplicates(),
            decreases self.tab_stops.len() - i,
        {
            let mut k: usize = 0;
            while k < i
                invariant
                    k <= i,
                    i < self.tab_stops.len(),
                    stops_of(self@) == self.tab_stops@,
                    forall|a: int| 0 <= a < k ==> self.tab_stops@[a] != self.tab_stops@[i as int],
                decreases i - k,
            {
                if self.tab_stops[k] == self.tab_stops[i] {
                    return false;
                }
                k += 1;
            }
            proof {
                assert(self@[i as int].1 == self.nodes@[i as int]@);
            }
            if self.nodes[i].len() == 0 {
                return false;
            }
            if !no_node_side_twice(&self.nodes[i]) {
                return false;
            }
            i += 1;
        }
        true
    }

    /// An index without tab stops.
    pub fn new() -> (r: TabStops)
        ensures
            r.wf(),
            r@ == Seq::<TabStopEntry>::empty(),
    {
        let r = TabStops { tab_stops: Vec::new(), nodes: Vec::new() };
        proof {
            assert(r@ =~= Seq::<TabStopEntry>::empty());
        }
        r
    }

    /// Where the entry of a tab stop stands, if it has one.
    pub fn position_of(&self, tab_stop: &TabStop) -> (r: Option<usize>)
        requires
            self.tab_stops@.len() == self.nodes@.len(),
        ensures
            match r {
                Some(i) => stops_of(self@).index_of_first(*tab_stop) == Some(i as int) && i
                    < self.tab_stops@.len() && self.tab_stops@[i as int] == *tab_stop,
                None => stops_of(self@).index_of_first(*tab_stop) is None,
            },
    {
        proof {
            stops_of(self@).index_of_first_ensures(*tab_stop);
        }
        let mut i: usize = 0;
        while i < self.tab_stops.len()
            invariant
                i <= self.tab_stops.len(),
                stops_of(self@) == self.tab_stops@,
                forall|j: int| 0 <= j < i ==> self.tab_stops@[j] != *tab_stop,
            decreases self.tab_stops.len() - i,
        {
            if self.tab_stops[i] == *tab_stop {
                proof {
                    let stops = self.tab_stops@;
                    stops.index_of_first_ensures(*tab_stop);
                    let first = stops.index_of_first(*tab_stop).unwrap();
                    if first < i {
                        assert(stops[first] != *tab_stop);
                    }
                    if first > i {
                        assert(stops[i as int] != *tab_stop);
                    }
                }
                return Some(i);
            }
            i += 1;
        }
        None
    }

    /// Puts a node side on a tab stop. Doing so a second time changes
    /// nothing.
    pub fn insert_unique(&mut self, tab_stop: TabStop, node_side: NodeSide)
        requires
            old(self).wf(),
        ensures
            final(self).wf(),
            final(self)@ == inserted(old(self)@, tab_stop, node_side),
    {
        let ghost before = self@;
        match self.position_of(&tab_stop) {
            Some(i) => {
                if !holds_node_side(&self.nodes[i], &node_side) {
                    let mut list: Vec<NodeSide> = Vec::new();
                    std::mem::swap(&mut list, &mut self.nodes[i]);
                    list.push(node_side);
                    self.nodes[i] = list;
                }
            },
            None => {
                self.tab_stops.push(tab_stop);
                let mut list: Vec<NodeSide> = Vec::new();
                list.push(node_side);
                self.nodes.push(list);
            },
        }
        proof {
            assert(self@ =~= inserted(before, tab_stop, node_side));
            lemma_inserted_wf(before, tab_stop, node_side);
        }
    }

    /// The node sides on a tab stop, if any were put on it.
    pub fn get_nodes(&self, tab_stop: &TabStop) -> (r: Option<&Vec<NodeSide>>)
        requires
            self.wf(),
        ensures
            r is Some <==> stops_of(self@).contains(*tab_stop),
            r matches Some(list) ==> list@ == sides_on(self@, *tab_stop),
    {
        proof {
            stops_of(self@).index_of_first_ensures(*tab_stop);
        }
        match self.position_of(tab_stop) {
            Some(i) => Some(&self.nodes[i]),
            None => None,
        }
    }

    /// The number of tab stops.
    pub fn count(&self) -> (r: usize)
        ensures
            r == self@.len(),
    {
        self.tab_stops.len()
    }

    /// The first tab stop that carries the node side.
    pub fn tab_stop_connected_to_node_side(&self, node_side: &NodeSide) -> (r: TabStop)
        requires
            self.wf(),
            exists|k: int| 0 <= k < self@.len() && (#[trigger] self@[k]).1.contains(*node_side),
        ensures
            exists|k: int| self.first_with_side(*node_side, k) && r == (#[trigger] self@[k]).0,
    {
        let mut i: usize = 0;
        while i < self.tab_stops.len()
            invariant
                self.wf(),
                i <= self.tab_stops.len(),
                forall|j: int| 0 <= j < i ==> !(#[trigger] self@[j]).1.contains(*node_side),
            decreases self.tab_stops.len() - i,
        {
            if holds_node_side(&self.nodes[i], node_side) {
                proof {
                    assert(self.first_with_side(*node_side, i as int));
                }
                return self.tab_stops[i];
            }
            i += 1;
        }
        proof {
            assert(false);
        }
        self.tab_stops[0]
    }

    /// The first tab stop that carries a side of the node.
    pub fn find_tab_stop_for_node(&self, node: &i32) -> (r: Option<TabStop>)
        requires
            self.wf(),
        ensures
            match r {
                Some(t) => exists|k: int|
                    self.first_with_node(*node, k) && t == (#[trigger] self@[k]).0,
                None => forall|k: int| 0 <= k < self@.len() ==> !self.has_node_at(*node, k),
            },
    {
        let mut i: usize = 0;
        while i < self.tab_stops.len()
            invariant
                self.wf(),
                i <= self.tab_stops.len(),
                forall|j: int| 0 <= j < i ==> !self.has_node_at(*node, j),
            decreases self.tab_stops.len() - i,
        {
            if holds_side_of_node(&self.nodes[i], *node) {
                proof {
                    assert(self.has_node_at(*node, i as int));
                }
                return Some(self.tab_stops[i]);
            }
            proof {
                assert(!self.has_node_at(*node, i as int));
            }
            i += 1;
        }
        None
    }

    /// True if `ts1` here and `ts2` in `other` run the same way and carry
    /// the same node sides.
    pub fn tab_stop_equal_by_nodes(&self, other: &TabStops, ts1: &TabStop, ts2: &TabStop) -> (r:
        bool)
        requires
            self.wf(),
            other.wf(),
            stops_of(self@).contains(*ts1),
        ensures
            r == self.spec_equal_by_nodes(other, *ts1, *ts2),
    {
        if ts1.orientation != ts2.orientation {
            return false;
        }
        let nodes1 = self.get_nodes(ts1).unwrap();
        match other.get_nodes(ts2) {
            Some(nodes2) => same_node_sides(nodes1, nodes2),
            None => false,
        }
    }

    /// The tab stops, horizontal ones first, each group by position.
    pub fn sorted(&self) -> (r: Vec<TabStop>)
        ensures
            is_sorted_stops(r@, self.tab_stops@),
    {
        let mut stops: Vec<TabStop> = Vec::new();
        let mut i: usize = 0;
        while i < self.tab_stops.len()
            invariant
                i <= self.tab_stops.len(),
                stops@ == self.tab_stops@.take(i as int),
            decreases self.tab_stops.len() - i,
        {
            stops.push(self.tab_stops[i]);
            proof {
                assert(self.tab_stops@.take(i + 1) =~= self.tab_stops@.take(i as int).push(
                    self.tab_stops@[i as int],
                ));
            }
            i += 1;
        }
        proof {
            assert(self.tab_stops@.take(self.tab_stops.len() as int) =~= self.tab_stops@);
        }
        sort_tab_stops(stops)
    }

    /// The sorted tab stops, the horizontal ones apart from the vertical
    /// ones.
    pub fn sorted_and_split(&self) -> (r: (Vec<TabStop>, Vec<TabStop>))
        ensures
            exists|sorted: Seq<TabStop>|
                {
                    &&& #[trigger] is_sorted_stops(sorted, self.tab_stops@)
                    &&& r.0@ == sorted.filter(
                        |t: TabStop| t.orientation == Orientation::Horizontal,
                    )
                    &&& r.1@ == sorted.filter(
                        |t: TabStop| t.orientation != Orientation::Horizontal,
                    )
                },
    {
        let sorted = self.sorted();
        let mut horizontal: Vec<TabStop> = Vec::new();
        let mut vertical: Vec<TabStop> = Vec::new();
        let ghost is_h = |t: TabStop| t.orientation == Orientation::Horizontal;
        let ghost is_v = |t: TabStop| t.orientation != Orientation::Horizontal;
        let mut i: usize = 0;
        while i < sorted.len()
            invariant
                i <= sorted.len(),
                is_h == (|t: TabStop| t.orientation == Orientation::Horizontal),
                is_v == (|t: TabStop| t.orientation != Orientation::Horizontal),
                horizontal@ == sorted@.take(i as int).filter(is_h),
                vertical@ == sorted@.take(i as int).filter(is_v),
            decreases sorted.len() - i,
        {
            let t = sorted[i];
            proof {
                assert(sorted@.take(i + 1) =~= sorted@.take(i as int).push(t));
                Seq::lemma_filter_push(sorted@.take(i as int), t, is_h);
                Seq::lemma_filter_push(sorted@.take(i as int), t, is_v);
            }
            if t.orientation == Orientation::Horizontal {
                horizontal.push(t);
            } else {
                vertical.push(t);
            }
            i += 1;
        }
        proof {
            assert(sorted@.take(sorted.len() as int) =~= sorted@);
        }
        (horizontal, vertical)
    }

    /// True if the tab stops `s1` of this index and `s2` of `other` match
    /// place by place: they run the same way and carry the same node sides.
    pub open spec fn alike(&self, other: &TabStops, s1: Seq<TabStop>, s2: Seq<TabStop>) -> bool {
        &&& s1.len() == s2.len()
        &&& forall|i: int|
            0 <= i < s1.len() ==> (#[trigger] s1[i]).orientation == s2[i].orientation && sides_on(
                self@,
                s1[i],
            ).to_set() == sides_on(other@, s2[i]).to_set()
    }

    /// True if the two indexes show the same alignment: sorted, their tab
    /// stops match place by place, whatever the positions are.
    pub open spec fn spec_eq(&self, other: &TabStops) -> bool {
        exists|s1: Seq<TabStop>, s2: Seq<TabStop>|
            is_sorted_stops(s1, self.tab_stops@) && is_sorted_stops(s2, other.tab_stops@)
                && #[trigger] self.alike(other, s1, s2)
    }

    /// True if the two indexes show the same alignment: sorted, their tab
    /// stops run the same way and carry the same node sides, place by
    /// place. The positions of the tab stops play no part, so that the tab
    /// stops of two screen sizes can be equal.
    pub fn eq(&self, other: &TabStops) -> (r: bool)
        requires
            self.wf(),
            other.wf(),
        ensures
            r == self.spec_eq(other),
    {
        let sorted_self = self.sorted();
        let sorted_other = other.sorted();
        proof {
            assert(stops_of(self@) =~= self.tab_stops@);
            assert(stops_of(other@) =~= other.tab_stops@);
            lemma_sorted_stops(sorted_self@, self.tab_stops@);
            lemma_sorted_stops(sorted_other@, other.tab_stops@);
            assert forall|s1: Seq<TabStop>, s2: Seq<TabStop>|
                is_sorted_stops(s1, self.tab_stops@) && is_sorted_stops(
                    s2,
                    other.tab_stops@,
                ) implies s1 == sorted_self@ && s2 == sorted_other@ by {
                lemma_sorted_stops_unique(s1, sorted_self@, self.tab_stops@);
                lemma_sorted_stops_unique(s2, sorted_other@, other.tab_stops@);
            }
        }
        if sorted_self.len() != sorted_other.len() {
            return false;
        }
        let length = sorted_self.len();
        let mut i: usize = 0;
        while i < length
            invariant
                self.wf(),
                other.wf(),
                i <= length,
                length == sorted_self@.len(),
                length == sorted_other@.len(),
                stops_of(self@) == self.tab_stops@,
                stops_of(other@) == other.tab_stops@,
                forall|x: TabStop| sorted_self@.contains(x) <==> self.tab_stops@.contains(x),
                forall|x: TabStop| sorted_other@.contains(x) <==> other.tab_stops@.contains(x),
                forall|s1: Seq<TabStop>, s2: Seq<TabStop>|
                    is_sorted_stops(s1, self.tab_stops@) && is_sorted_stops(s2, other.tab_stops@)
                        ==> s1 == sorted_self@ && s2 == sorted_other@,
                forall|k: int|
                    0 <= k < i ==> (#[trigger] sorted_self@[k]).orientation
                        == sorted_other@[k].orientation && sides_on(self@, sorted_self@[k]).to_set()
                        == sides_on(other@, sorted_other@[k]).to_set(),
            decreases length - i,
        {
            let ts_self = sorted_self[i];
            let ts_other = sorted_other[i];
            proof {
                assert(sorted_self@.contains(ts_self));
                assert(sorted_other@.contains(ts_other));
            }
            if ts_self.orientation != ts_other.orientation {
                proof {
                    assert(!self.alike(other, sorted_self@, sorted_other@));
                }
                return false;
            }
            let nodes_self = self.get_nodes(&ts_self).unwrap();
            let nodes_other = other.get_nodes(&ts_other).unwrap();
            if !same_node_sides(nodes_self, nodes_other) {
                proof {
                    assert(!self.alike(other, sorted_self@, sorted_other@));
                }
                return false;
            }
            i += 1;
        }
        proof {
            assert(self.alike(other, sorted_self@, sorted_other@));
        }
        true
    }

    /// True if some tab stop here equals `ts2` of `other` by its nodes.
    pub fn contains(&self, other: &TabStops, ts2: &TabStop) -> (r: bool)
        requires
            self.wf(),
            other.wf(),
        ensures
            r == exists|i: int|
                0 <= i < self@.len() && self.spec_equal_by_nodes(
                    other,
                    (#[trigger] self@[i]).0,
                    *ts2,
                ),
    {
        let mut i: usize = 0;
        while i < self.tab_stops.len()
            invariant
                self.wf(),
                other.wf(),
                i <= self.tab_stops.len(),
                forall|j: int|
                    0 <= j < i ==> !self.spec_equal_by_nodes(other, (#[trigger] self@[j]).0, *ts2),
            decreases self.tab_stops.len() - i,
        {
            let ts = self.tab_stops[i];
            proof {
                assert(stops_of(self@)[i as int] == ts);
            }
            if self.tab_stop_equal_by_nodes(other, &ts, ts2) {
                return true;
            }
            i += 1;
        }
        false
    }
}

/// What [`inserted`] does, case by case: a tab stop without an entry gets
/// one at the end, and the first entry of a tab stop that has one takes the
/// node side unless it holds it.
pub proof fn lemma_inserted_cases(entries: Seq<TabStopEntry>, tab_stop: TabStop, node_side: NodeSide)
    ensures
        (forall|j: int| 0 <= j < entries.len() ==> (#[trigger] entries[j]).0 != tab_stop) ==> inserted(
            entries,
            tab_stop,
            node_side,
        ) == entries.push((tab_stop, seq![node_side])),
        forall|i: int|
            0 <= i < entries.len() && (#[trigger] entries[i]).0 == tab_stop && (forall|j: int|
                0 <= j < i ==> (#[trigger] entries[j]).0 != tab_stop) ==> inserted(
                entries,
                tab_stop,
                node_side,
            ) == if entries[i].1.contains(node_side) {
                entries
            } else {
                entries.update(i, (tab_stop, entries[i].1.push(node_side)))
            },
{
    let stops = stops_of(entries);
    stops.index_of_first_ensures(tab_stop);
    if forall|j: int| 0 <= j < entries.len() ==> (#[trigger] entries[j]).0 != tab_stop {
        if stops.contains(tab_stop) {
            let j = choose|j: int| 0 <= j < stops.len() && stops[j] == tab_stop;
            assert(entries[j].0 == tab_stop);
        }
    }
    assert forall|i: int|
        0 <= i < entries.len() && (#[trigger] entries[i]).0 == tab_stop && (forall|j: int|
            0 <= j < i ==> (#[trigger] entries[j]).0 != tab_stop) implies inserted(
        entries,
        tab_stop,
        node_side,
    ) == if entries[i].1.contains(node_side) {
        entries
    } else {
        entries.update(i, (tab_stop, entries[i].1.push(node_side)))
    } by {
        assert(stops[i] == tab_stop);
        assert(stops.contains(tab_stop));
        let first = stops.index_of_first(tab_stop).unwrap();
        if first < i {
            assert(entries[first].0 != tab_stop);
        }
        if first > i {
            assert(stops[i] != tab_stop);
        }
    }
}

/// Putting a node side on a tab stop keeps the entries well formed.
pub proof fn lemma_inserted_wf(entries: Seq<TabStopEntry>, tab_stop: TabStop, node_side: NodeSide)
    requires
        entries_wf(entries),
    ensures
        entries_wf(inserted(entries, tab_stop, node_side)),
{
    let after = inserted(entries, tab_stop, node_side);
    stops_of(entries).index_of_first_ensures(tab_stop);
    match stops_of(entries).index_of_first(tab_stop) {
        Some(i) => {
            if !entries[i].1.contains(node_side) {
                assert(stops_of(after) =~= stops_of(entries));
                crate::sequences::lemma_push_fresh(entries[i].1, node_side);
            }
        },
        None => {
            assert(stops_of(after) =~= stops_of(entries).push(tab_stop));
            crate::sequences::lemma_push_fresh(stops_of(entries), tab_stop);
        },
    }
}

/// Putting the same node side on the same tab stop twice gives what putting
/// it there once gives.
pub proof fn lemma_insert_is_idempotent(
    entries: Seq<TabStopEntry>,
    tab_stop: TabStop,
    node_side: NodeSide,
)
    ensures
        inserted(inserted(entries, tab_stop, node_side), tab_stop, node_side) == inserted(
            entries,
            tab_stop,
            node_side,
        ),
{
    let once = inserted(entries, tab_stop, node_side);
    stops_of(entries).index_of_first_ensures(tab_stop);
    stops_of(once).index_of_first_ensures(tab_stop);
    match stops_of(entries).index_of_first(tab_stop) {
        Some(i) => {
            if !entries[i].1.contains(node_side) {
                assert(stops_of(once) =~= stops_of(entries));
                assert(once[i].1[entries[i].1.len() as int] == node_side);
            }
        },
        None => {
            let n = entries.len() as int;
            assert(stops_of(once) =~= stops_of(entries).push(tab_stop));
            assert(stops_of(once)[n] == tab_stop);
            assert(once[n].1[0] == node_side);
        },
    }
}

} // verus!
