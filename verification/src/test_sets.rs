//! Test sets: one observation of the node tree per screen size.

use vstd::prelude::*;
use crate::sequences::{first_occurrences, lemma_push_fresh};
use crate::text::{decimal, decimal_text};
use crate::layout_validator::nodes::{Node, Nodes};
use crate::layout_validator::tab_stops::{
    inserted, stops_of, NodeSide, Orientation, Side, TabStop, TabStopEntry, TabStops,
};

verus! {

/// The number of a test set.
#[derive(Eq, PartialEq, Hash, Debug, Clone, Copy, Structural)]
pub struct TestSetId(pub i32);

impl TestSetId {
    /// The number in decimal.
    pub fn to_text(&self) -> (r: String)
        ensures
            r@ == decimal(self.0 as int),
    {
        decimal_text(self.0 as i64)
    }
}

/// One observation: the node tree at one screen size, and the tab stops
/// found in it.
#[derive(Debug)]
pub struct TestSet {
    pub id: TestSetId,
    pub screen_size: (i32, i32),
    pub nodes: Nodes,
    pub tab_stops: TabStops,
}

impl TestSet {
    /// True if `copy` holds what this test set holds.
    pub open spec fn copied_as(&self, copy: TestSet) -> bool {
        &&& copy.id == self.id
        &&& copy.screen_size == self.screen_size
        &&& copy.nodes.root_size == self.nodes.root_size
        &&& copy.nodes.nodes@ == self.nodes.nodes@
        &&& copy.nodes.ids@ == self.nodes.ids@
        &&& copy.tab_stops.tab_stops@ == self.tab_stops.tab_stops@
        &&& copy.tab_stops.nodes@.len() == self.tab_stops.nodes@.len()
        &&& forall|i: int|
            0 <= i < self.tab_stops.nodes@.len() ==> (#[trigger] copy.tab_stops.nodes@[i])@
                == self.tab_stops.nodes@[i]@
    }
}

impl Clone for TestSet {
    fn clone(&self) -> (r: TestSet)
        ensures
            self.copied_as(r),
    {
        TestSet {
            id: self.id,
            screen_size: (self.screen_size.0, self.screen_size.1),
            nodes: self.nodes.clone(),
            tab_stops: self.tab_stops.clone(),
        }
    }
}

/// The entries after the four edges of a node were put on their tab stops:
/// left, top, right and bottom, in this order.
pub open spec fn with_node(entries: Seq<TabStopEntry>, n: Node) -> Seq<TabStopEntry> {
    let d = n.node_data;
    let left = TabStop { orientation: Orientation::Vertical, pos: d.render_position_x as i64 };
    let top = TabStop { orientation: Orientation::Horizontal, pos: d.render_position_y as i64 };
    let right = TabStop {
        orientation: Orientation::Vertical,
        pos: (d.render_position_x + d.render_width) as i64,
    };
    let bottom = TabStop {
        orientation: Orientation::Horizontal,
        pos: (d.render_position_y + d.render_height) as i64,
    };
    let e1 = inserted(entries, left, NodeSide { node: n.id, side: Side::Left });
    let e2 = inserted(e1, top, NodeSide { node: n.id, side: Side::Top });
    let e3 = inserted(e2, right, NodeSide { node: n.id, side: Side::Right });
    inserted(e3, bottom, NodeSide { node: n.id, side: Side::Bottom })
}

/// The entries that the first `k` nodes of the walk give.
pub open spec fn tab_stops_of(nodes: &Nodes, k: nat) -> Seq<TabStopEntry>
    decreases k,
{
    if k == 0 {
        Seq::empty()
    } else {
        with_node(tab_stops_of(nodes, (k - 1) as nat), nodes.node(nodes.order()[k - 1]))
    }
}

/// Puts the four edges of every node on the tab stop at the position of the
/// edge in the rendered box.
pub fn find_tab_stops_for_nodes(nodes: &Nodes) -> (r: TabStops)
    requires
        nodes.wf(),
    ensures
        r.wf(),
        r@ == tab_stops_of(nodes, nodes.order().len()),
{
    let mut tab_stops = TabStops::new();
    let mut i: usize = 0;
    while i < nodes.ids.len()
        invariant
            nodes.wf(),
            i <= nodes.ids.len(),
            tab_stops.wf(),
            tab_stops@ == tab_stops_of(nodes, i as nat),
        decreases nodes.ids.len() - i,
    {
        let id = nodes.ids[i];
        proof {
            assert(nodes.ids@.contains(id));
        }
        let n = nodes.get_from_id(id).unwrap();
        let x = n.node_data.render_position_x as i64;
        let y = n.node_data.render_position_y as i64;
        let w = n.node_data.render_width as i64;
        let h = n.node_data.render_height as i64;
        tab_stops.insert_unique(
            TabStop::new(x, Orientation::Vertical),
            NodeSide::new(n.id, Side::Left),
        );
        tab_stops.insert_unique(
            TabStop::new(y, Orientation::Horizontal),
            NodeSide::new(n.id, Side::Top),
        );
        tab_stops.insert_unique(
            TabStop::new(x + w, Orientation::Vertical),
            NodeSide::new(n.id, Side::Right),
        );
        tab_stops.insert_unique(
            TabStop::new(y + h, Orientation::Horizontal),
            NodeSide::new(n.id, Side::Bottom),
        );
        i += 1;
    }
    tab_stops
}

/// True if the node side lies on the tab stop of the entry at `k`.
pub open spec fn lies_on(entries: Seq<TabStopEntry>, node_side: NodeSide, k: int) -> bool {
    0 <= k < entries.len() && entries[k].1.contains(node_side)
}

/// True if the node side lies on no tab stop.
pub open spec fn on_no_stop(entries: Seq<TabStopEntry>, node_side: NodeSide) -> bool {
    forall|k: int| !lies_on(entries, node_side, k)
}

/// True if the node side lies on one tab stop, and on one only.
pub open spec fn on_one_stop(entries: Seq<TabStopEntry>, node_side: NodeSide) -> bool {
    exists|k: int|
        lies_on(entries, node_side, k) && forall|j: int|
            lies_on(entries, node_side, j) ==> j == k
}

/// Putting a node side on a tab stop puts it on one tab stop if it was on
/// none, and changes nothing for the other node sides.
pub proof fn lemma_inserted_node_side(
    entries: Seq<TabStopEntry>,
    tab_stop: TabStop,
    node_side: NodeSide,
    other: NodeSide,
)
    ensures
        on_no_stop(entries, node_side) ==> on_one_stop(
            inserted(entries, tab_stop, node_side),
            node_side,
        ),
        other != node_side && on_no_stop(entries, other) ==> on_no_stop(
            inserted(entries, tab_stop, node_side),
            other,
        ),
        other != node_side && on_one_stop(entries, other) ==> on_one_stop(
            inserted(entries, tab_stop, node_side),
            other,
        ),
{
    let after = inserted(entries, tab_stop, node_side);
    stops_of(entries).index_of_first_ensures(tab_stop);
    let at: int = match stops_of(entries).index_of_first(tab_stop) {
        Some(i) => i,
        None => entries.len() as int,
    };
    assert forall|k: int| other != node_side implies (lies_on(after, other, k) <==> lies_on(
        entries,
        other,
        k,
    )) by {
        if 0 <= k < after.len() {
            if k == at {
                if at < entries.len() {
                    if !entries[at].1.contains(node_side) {
                        crate::sequences::lemma_push_contains(entries[at].1, node_side, other);
                    }
                } else {
                    if after[k].1.contains(other) {
                        let i = choose|i: int| 0 <= i < after[k].1.len() && after[k].1[i] == other;
                    }
                }
            } else {
                assert(after[k] == entries[k]);
            }
        }
    }
    if on_no_stop(entries, node_side) {
        if at < entries.len() {
            crate::sequences::lemma_push_contains(entries[at].1, node_side, node_side);
        } else {
            assert(after[at].1[0] == node_side);
        }
        assert(lies_on(after, node_side, at));
        assert forall|j: int| lies_on(after, node_side, j) implies j == at by {
            if j != at {
                assert(!lies_on(entries, node_side, j));
            }
        }
    }
    if other != node_side && on_one_stop(entries, other) {
        let k = choose|k: int|
            lies_on(entries, other, k) && forall|j: int| lies_on(entries, other, j) ==> j == k;
        assert forall|j: int| lies_on(after, other, j) implies j == k by {
            assert(lies_on(entries, other, j));
        }
    }
    if other != node_side && on_no_stop(entries, other) {
        assert forall|j: int| !lies_on(after, other, j) by {
            assert(!lies_on(entries, other, j));
        }
    }
}

/// Putting the four edges of a node on their tab stops puts each on one tab
/// stop, if none of them was on any, and changes nothing for the sides of
/// other nodes.
pub proof fn lemma_with_node_sides(entries: Seq<TabStopEntry>, n: Node, other: NodeSide)
    ensures
        (forall|side: Side| on_no_stop(entries, NodeSide { node: n.id, side })) ==> (forall|
            side: Side,
        | #[trigger]
            on_one_stop(with_node(entries, n), NodeSide { node: n.id, side })),
        other.node != n.id && on_no_stop(entries, other) ==> on_no_stop(with_node(entries, n), other),
        other.node != n.id && on_one_stop(entries, other) ==> on_one_stop(
            with_node(entries, n),
            other,
        ),
{
    let d = n.node_data;
    let left = TabStop { orientation: Orientation::Vertical, pos: d.render_position_x as i64 };
    let top = TabStop { orientation: Orientation::Horizontal, pos: d.render_position_y as i64 };
    let right = TabStop {
        orientation: Orientation::Vertical,
        pos: (d.render_position_x + d.render_width) as i64,
    };
    let bottom = TabStop {
        orientation: Orientation::Horizontal,
        pos: (d.render_position_y + d.render_height) as i64,
    };
    let l = NodeSide { node: n.id, side: Side::Left };
    let t = NodeSide { node: n.id, side: Side::Top };
    let r = NodeSide { node: n.id, side: Side::Right };
    let b = NodeSide { node: n.id, side: Side::Bottom };
    let e1 = inserted(entries, left, l);
    let e2 = inserted(e1, top, t);
    let e3 = inserted(e2, right, r);
    lemma_inserted_node_side(entries, left, l, other);
    lemma_inserted_node_side(e1, top, t, other);
    lemma_inserted_node_side(e2, right, r, other);
    lemma_inserted_node_side(e3, bottom, b, other);
    if forall|side: Side| on_no_stop(entries, NodeSide { node: n.id, side }) {
        lemma_inserted_node_side(entries, left, l, t);
        lemma_inserted_node_side(entries, left, l, r);
        lemma_inserted_node_side(entries, left, l, b);
        lemma_inserted_node_side(e1, top, t, l);
        lemma_inserted_node_side(e1, top, t, r);
        lemma_inserted_node_side(e1, top, t, b);
        lemma_inserted_node_side(e2, right, r, l);
        lemma_inserted_node_side(e2, right, r, t);
        lemma_inserted_node_side(e2, right, r, b);
        lemma_inserted_node_side(e3, bottom, b, l);
        lemma_inserted_node_side(e3, bottom, b, t);
        lemma_inserted_node_side(e3, bottom, b, r);
        assert forall|side: Side| #[trigger]
            on_one_stop(with_node(entries, n), NodeSide { node: n.id, side }) by {
            match side {
                Side::Left => {
                    assert(NodeSide { node: n.id, side } == l);
                },
                Side::Top => {
                    assert(NodeSide { node: n.id, side } == t);
                },
                Side::Right => {
                    assert(NodeSide { node: n.id, side } == r);
                },
                Side::Bottom => {
                    assert(NodeSide { node: n.id, side } == b);
                },
            }
        }
    }
}

/// After the first `k` nodes of the walk, every side of each of them lies
/// on one tab stop, and the sides of other nodes lie on none.
pub proof fn lemma_tab_stops_of(nodes: &Nodes, k: nat, node_side: NodeSide)
    requires
        nodes.wf(),
        k <= nodes.order().len(),
    ensures
        nodes.order().take(k as int).contains(node_side.node) ==> on_one_stop(
            tab_stops_of(nodes, k),
            node_side,
        ),
        !nodes.order().take(k as int).contains(node_side.node) ==> on_no_stop(
            tab_stops_of(nodes, k),
            node_side,
        ),
    decreases k,
{
    if k == 0 {
        assert(nodes.order().take(0) =~= Seq::<i32>::empty());
    } else {
        let before = tab_stops_of(nodes, (k - 1) as nat);
        let id = nodes.order()[k - 1];
        assert(nodes.order().contains(id));
        let n = nodes.node(id);
        let seen = nodes.order().take(k - 1);
        assert(nodes.order().take(k as int) =~= seen.push(id));
        crate::sequences::lemma_push_contains(seen, id, node_side.node);
        lemma_tab_stops_of(nodes, (k - 1) as nat, node_side);
        lemma_with_node_sides(before, n, node_side);
        if node_side.node == id {
            if seen.contains(id) {
                let j = choose|j: int| 0 <= j < seen.len() && seen[j] == id;
            }
            assert forall|side: Side| on_no_stop(before, NodeSide { node: n.id, side }) by {
                lemma_tab_stops_of(nodes, (k - 1) as nat, NodeSide { node: n.id, side });
            }
        }
    }
}

/// Every edge of every node of a tree lies on one of the tab stops that
/// [`find_tab_stops_for_nodes`] finds, and on one only.
pub proof fn lemma_every_node_side_has_one_tab_stop(nodes: &Nodes, id: i32, side: Side)
    requires
        nodes.wf(),
        nodes.contains(id),
    ensures
        on_one_stop(tab_stops_of(nodes, nodes.order().len()), NodeSide { node: id, side }),
{
    assert(nodes.order().take(nodes.order().len() as int) =~= nodes.order());
    lemma_tab_stops_of(nodes, nodes.order().len(), NodeSide { node: id, side });
}

/// Merges tab stops that lie within `tab_stop_merge_threshold` of each
/// other. No merge rule is defined yet: the tab stops stay as they are.
pub fn merge_tab_stops(tab_stops: &mut TabStops, tab_stop_merge_threshold: u32)
    ensures
        *final(tab_stops) == *old(tab_stops),
{
}

/// The test sets under analysis. No two of them have the same id.
#[derive(Debug)]
pub struct TestSets {
    pub sets: Vec<TestSet>,
}

impl Clone for TestSets {
    fn clone(&self) -> (r: TestSets)
        ensures
            r.sets@.len() == self.sets@.len(),
            forall|i: int| 0 <= i < self.sets@.len() ==> (#[trigger] self.sets@[i]).copied_as(r.sets@[i]),
    {
        let mut sets: Vec<TestSet> = Vec::new();
        let mut i: usize = 0;
        while i < self.sets.len()
            invariant
                i <= self.sets.len(),
                sets@.len() == i,
                forall|j: int| 0 <= j < i ==> (#[trigger] self.sets@[j]).copied_as(sets@[j]),
            decreases self.sets.len() - i,
        {
            sets.push(self.sets[i].clone());
            i += 1;
        }
        TestSets { sets: sets }
    }
}

/// The ids of the test sets, in their order.
pub open spec fn set_ids(sets: Seq<TestSet>) -> Seq<TestSetId> {
    sets.map_values(|t: TestSet| t.id)
}

/// The ids of the items from which test sets are made, in their order.
pub open spec fn item_ids(items: Seq<(TestSetId, Nodes, (i32, i32))>) -> Seq<TestSetId> {
    items.map_values(|item: (TestSetId, Nodes, (i32, i32))| item.0)
}

/// True if the test set is what [`generate_test_sets`] makes of the item.
pub open spec fn made_of(set: TestSet, item: (TestSetId, Nodes, (i32, i32))) -> bool {
    &&& set.id == item.0
    &&& set.nodes == item.1
    &&& set.screen_size == item.2
    &&& set.tab_stops.wf()
    &&& set.tab_stops@ == tab_stops_of(&item.1, item.1.order().len())
}

impl TestSets {
    /// Every test set has a well formed tree and well formed tab stops, and
    /// no two test sets have one id.
    pub open spec fn wf(&self) -> bool {
        &&& set_ids(self.sets@).no_duplicates()
        &&& forall|t: int| 0 <= t < self.sets@.len() ==> (#[trigger] self.sets@[t]).nodes.wf()
        &&& forall|t: int| 0 <= t < self.sets@.len() ==> (#[trigger] self.sets@[t]).tab_stops.wf()
    }

    /// Tells whether the test sets are well formed, which is what the rules
    /// ask for. Test sets that [`generate_test_sets`] made are.
    pub fn is_well_formed(&self) -> (r: bool)
        ensures
            r == self.wf(),
    {
        let ghost ids = set_ids(self.sets@);
        let mut i: usize = 0;
        while i < self.sets.len()
            invariant
                i <= self.sets.len(),
                ids == set_ids(self.sets@),
                forall|a: int, b: int| 0 <= a < b < i ==> ids[a] != ids[b],
                forall|t: int| 0 <= t < i ==> (#[trigger] self.sets@[t]).nodes.wf(),
                forall|t: int| 0 <= t < i ==> (#[trigger] self.sets@[t]).tab_stops.wf(),
            decreases self.sets.len() - i,
        {
            let mut k: usize = 0;
            while k < i
                invariant
                    k <= i,
                    i < self.sets.len(),
                    ids == set_ids(self.sets@),
                    forall|a: int| 0 <= a < k ==> ids[a] != ids[i as int],
                decreases i - k,
            {
                if self.sets[k].id == self.sets[i].id {
                    proof {
                        assert(ids[k as int] == ids[i as int]);
                    }
                    return false;
                }
                k += 1;
            }
            if !self.sets[i].nodes.is_well_formed() {
                return false;
            }
            if !self.sets[i].tab_stops.is_well_formed() {
                return false;
            }
            i += 1;
        }
        true
    }

    /// The first test set with this id, if there is one.
    pub open spec fn spec_get(&self, id: TestSetId) -> Option<TestSet> {
        match set_ids(self.sets@).index_of_first(id) {
            Some(k) => Some(self.sets@[k]),
            None => None,
        }
    }

    /// The first test set with this id, if there is one.
    pub fn get(&self, id: &TestSetId) -> (r: Option<&TestSet>)
        ensures
            r is Some <==> self.spec_get(*id) is Some,
            r matches Some(t) ==> *t == self.spec_get(*id)->0 && t.id == *id,
    {
        let ghost ids = set_ids(self.sets@);
        let mut i: usize = 0;
        while i < self.sets.len()
            invariant
                i <= self.sets.len(),
                ids == set_ids(self.sets@),
                forall|j: int| 0 <= j < i ==> ids[j] != *id,
            decreases self.sets.len() - i,
        {
            if self.sets[i].id == *id {
                proof {
                    ids.index_of_first_ensures(*id);
                    assert(ids[i as int] == *id);
                    let first = ids.index_of_first(*id).unwrap();
                    if first < i {
                        assert(ids[first] != *id);
                    }
                    if first > i {
                        assert(ids[i as int] != *id);
                    }
                }
                return Some(&self.sets[i]);
            }
            i += 1;
        }
        proof {
            ids.index_of_first_ensures(*id);
            if ids.contains(*id) {
                let j = choose|j: int| 0 <= j < ids.len() && ids[j] == *id;
            }
        }
        None
    }
}

/// Where the test set with this id stands among `sets`, if there is one.
fn position_of_set(sets: &Vec<TestSet>, id: TestSetId) -> (r: Option<usize>)
    ensures
        match r {
            Some(k) => k < sets@.len() && sets@[k as int].id == id,
            None => !set_ids(sets@).contains(id),
        },
{
    let mut i: usize = 0;
    while i < sets.len()
        invariant
            i <= sets.len(),
            forall|j: int| 0 <= j < i ==> (#[trigger] sets@[j]).id != id,
        decreases sets.len() - i,
    {
        if sets[i].id == id {
            return Some(i);
        }
        i += 1;
    }
    None
}

/// Makes a test set of every item: the tab stops are found in its tree and
/// merged. Of two items with one id the later one stays, at the place of
/// the earlier one.
pub fn generate_test_sets(
    test_data: Vec<(TestSetId, Nodes, (i32, i32))>,
    tab_stop_merge_threshold: u32,
) -> (r: TestSets)
    requires
        forall|i: int| 0 <= i < test_data@.len() ==> (#[trigger] test_data@[i]).1.wf(),
    ensures
        r.wf(),
        set_ids(r.sets@) == first_occurrences(item_ids(test_data@)),
        forall|k: int|
            0 <= k < r.sets@.len() ==> exists|j: int|
                {
                    &&& 0 <= j < test_data@.len()
                    &&& made_of(#[trigger] r.sets@[k], #[trigger] test_data@[j])
                    &&& forall|later: int|
                        j < later < test_data@.len() ==> (#[trigger] test_data@[later]).0
                            != r.sets@[k].id
                },
{
    let mut test_sets: Vec<TestSet> = Vec::new();
    let ghost all = test_data@;
    proof {
        assert(set_ids(test_sets@) =~= Seq::<TestSetId>::empty());
    }
    for item in it: test_data
        invariant
            it.seq() == all,
            forall|i: int| 0 <= i < all.len() ==> (#[trigger] all[i]).1.wf(),
            set_ids(test_sets@).no_duplicates(),
            forall|t: int| 0 <= t < test_sets@.len() ==> (#[trigger] test_sets@[t]).nodes.wf(),
            forall|t: int| 0 <= t < test_sets@.len() ==> (#[trigger] test_sets@[t]).tab_stops.wf(),
            set_ids(test_sets@) == first_occurrences(item_ids(all.take(it.index() as int))),
            forall|k: int|
                0 <= k < test_sets@.len() ==> exists|j: int|
                    {
                        &&& 0 <= j < it.index()
                        &&& made_of(#[trigger] test_sets@[k], #[trigger] all[j])
                        &&& forall|later: int|
                            j < later < it.index() ==> (#[trigger] all[later]).0 != test_sets@[k].id
                    },
    {
        let ghost n = it.index() as int;
        let ghost before = test_sets@;
        proof {
            assert(item_ids(all.take(n + 1)).drop_last() =~= item_ids(all.take(n)));
        }
        let (id, nodes, screen_size) = item;
        let mut tab_stops = find_tab_stops_for_nodes(&nodes);
        merge_tab_stops(&mut tab_stops, tab_stop_merge_threshold);
        let test_set = TestSet {
            screen_size: screen_size,
            id: id,
            nodes: nodes,
            tab_stops: tab_stops,
        };
        proof {
            assert(made_of(test_set, all[n]));
        }
        match position_of_set(&test_sets, id) {
            Some(k) => {
                test_sets[k] = test_set;
                proof {
                    assert(set_ids(before)[k as int] == id);
                    assert(set_ids(test_sets@) =~= set_ids(before));
                    assert forall|m: int| 0 <= m < test_sets@.len() implies exists|j: int|
                        {
                            &&& 0 <= j < n + 1
                            &&& made_of(#[trigger] test_sets@[m], #[trigger] all[j])
                            &&& forall|later: int|
                                j < later < n + 1 ==> (#[trigger] all[later]).0 != test_sets@[m].id
                        } by {
                        if m == k {
                            assert(made_of(test_sets@[m], all[n]));
                        } else {
                            assert(set_ids(before)[m] != set_ids(before)[k as int]);
                            let j = choose|j: int|
                                {
                                    &&& 0 <= j < n
                                    &&& made_of(#[trigger] before[m], #[trigger] all[j])
                                    &&& forall|later: int|
                                        j < later < n ==> (#[trigger] all[later]).0 != before[m].id
                                };
                        }
                    }
                }
            },
            None => {
                test_sets.push(test_set);
                proof {
                    assert(set_ids(test_sets@) =~= set_ids(before).push(id));
                    lemma_push_fresh(set_ids(before), id);
                    assert forall|m: int| 0 <= m < test_sets@.len() implies exists|j: int|
                        {
                            &&& 0 <= j < n + 1
                            &&& made_of(#[trigger] test_sets@[m], #[trigger] all[j])
                            &&& forall|later: int|
                                j < later < n + 1 ==> (#[trigger] all[later]).0 != test_sets@[m].id
                        } by {
                        if m == before.len() {
                            assert(made_of(test_sets@[m], all[n]));
                        } else {
                            assert(set_ids(before)[m] == before[m].id);
                            let j = choose|j: int|
                                {
                                    &&& 0 <= j < n
                                    &&& made_of(#[trigger] before[m], #[trigger] all[j])
                                    &&& forall|later: int|
                                        j < later < n ==> (#[trigger] all[later]).0 != before[m].id
                                };
                        }
                    }
                }
            },
        }
    }
    proof {
        assert(all.take(all.len() as int) =~= all);
    }
    TestSets { sets: test_sets }
}

} // verus!
