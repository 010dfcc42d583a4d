//! The rule that finds node sides which share a tab stop in some test sets
//! and not in others.

use vstd::prelude::*;
use vstd::std_specs::cmp::PartialEqSpecImpl;
use super::tab_stops::{inserted, NodeSide, TabStop, TabStopEntry, TabStops};
use super::validity_rules::{views, LayoutViolation, ViolationView};
use crate::test_sets::{TestSet, TestSetId};
use crate::text::{decimal, push_decimal, push_text};

verus! {

/// True if the two sides of a pair are the same side of their boxes.
pub open spec fn same_sided(p: (NodeSide, NodeSide)) -> bool {
    p.0.side == p.1.side
}

/// True if two pairs of node sides are the same pair: they speak of the same
/// two nodes, in either order, and both join equal sides or both join
/// different sides.
pub open spec fn pair_equal(p1: (NodeSide, NodeSide), p2: (NodeSide, NodeSide)) -> bool {
    &&& (p1.0.node == p2.0.node && p1.1.node == p2.1.node) || (p1.0.node == p2.1.node && p1.1.node
        == p2.0.node)
    &&& same_sided(p1) == same_sided(p2)
}

/// Tells whether two pairs of node sides are the same pair.
pub fn node_side_pair_equal(p1: (&NodeSide, &NodeSide), p2: (&NodeSide, &NodeSide)) -> (r: bool)
    ensures
        r == pair_equal((*p1.0, *p1.1), (*p2.0, *p2.1)),
{
    let same_nodes = (p1.0.node == p2.0.node && p1.1.node == p2.1.node) || (p1.0.node == p2.1.node
        && p1.1.node == p2.0.node);
    let sided_1 = p1.0.side == p1.1.side;
    let sided_2 = p2.0.side == p2.1.side;
    same_nodes && sided_1 == sided_2
}

/// The node sides that are aligned with each other: those that lie on one
/// tab stop.
#[derive(Debug)]
pub struct AlignedNodeSides {
    pub aligned_nodes: TabStops,
}

impl AlignedNodeSides {
    /// No node sides yet.
    pub fn new() -> (r: AlignedNodeSides)
        ensures
            r.aligned_nodes.wf(),
            r.aligned_nodes@ == Seq::<TabStopEntry>::empty(),
    {
        AlignedNodeSides { aligned_nodes: TabStops::new() }
    }

    /// Adds a node side to those that lie on the tab stop. Adding it a
    /// second time changes nothing.
    pub fn add_node(&mut self, tab_stop: &TabStop, node_side: NodeSide)
        requires
            old(self).aligned_nodes.wf(),
        ensures
            final(self).aligned_nodes.wf(),
            final(self).aligned_nodes@ == inserted(old(self).aligned_nodes@, *tab_stop, node_side),
    {
        self.aligned_nodes.insert_unique(*tab_stop, node_side);
    }
}

/// Two node sides that lie on one tab stop. Two pairs are equal if they are
/// the same pair in the sense of [`pair_equal`].
#[derive(Debug, Clone, Copy)]
pub struct NodeSidePair {
    pub a: NodeSide,
    pub b: NodeSide,
}

impl NodeSidePair {
    /// The pair as text: for each node side the letter of the side and the
    /// id of the node.
    pub open spec fn spec_text(&self) -> Seq<char> {
        self.a.side.spec_letter() + decimal(self.a.node as int) + "-"@ + self.b.side.spec_letter()
            + decimal(self.b.node as int)
    }

    /// The pair as text, such as `L3-R4`.
    pub fn to_text(&self) -> (r: String)
        ensures
            r@ == self.spec_text(),
    {
        let mut s = String::new();
        push_text(&mut s, self.a.side.letter());
        push_decimal(&mut s, self.a.node as i64);
        push_text(&mut s, "-");
        push_text(&mut s, self.b.side.letter());
        push_decimal(&mut s, self.b.node as i64);
        proof {
            assert(s@ =~= self.spec_text());
        }
        s
    }
}

impl PartialEq for NodeSidePair {
    fn eq(&self, other: &NodeSidePair) -> (r: bool) {
        node_side_pair_equal((&self.a, &self.b), (&other.a, &other.b))
    }
}

impl PartialEqSpecImpl for NodeSidePair {
    open spec fn obeys_eq_spec() -> bool {
        true
    }

    open spec fn eq_spec(&self, other: &NodeSidePair) -> bool {
        pair_equal((self.a, self.b), (other.a, other.b))
    }
}

impl Eq for NodeSidePair {

}

/// A pair of node sides with the number of times it was seen on one tab
/// stop, and the test sets in which it was seen.
#[derive(Debug)]
pub struct AlignedPair {
    pub pair: NodeSidePair,
    pub count: i32,
    pub test_sets: Vec<TestSetId>,
}

/// An [`AlignedPair`] as the contracts see it.
pub struct AlignedPairView {
    pub a: NodeSide,
    pub b: NodeSide,
    pub count: i32,
    pub test_sets: Seq<TestSetId>,
}

impl View for AlignedPair {
    type V = AlignedPairView;

    open spec fn view(&self) -> AlignedPairView {
        AlignedPairView {
            a: self.pair.a,
            b: self.pair.b,
            count: self.count,
            test_sets: self.test_sets@,
        }
    }
}

/// The views of a sequence of aligned pairs.
pub open spec fn pair_views(s: Seq<AlignedPair>) -> Seq<AlignedPairView> {
    s.map_values(|g: AlignedPair| g@)
}

/// Where the first group stands whose pair equals `p`, or the number of
/// groups if there is none.
pub open spec fn group_position(groups: Seq<AlignedPairView>, p: (NodeSide, NodeSide)) -> int
    decreases groups.len(),
{
    if groups.len() == 0 {
        0
    } else if pair_equal((groups[0].a, groups[0].b), p) {
        0
    } else {
        1 + group_position(groups.drop_first(), p)
    }
}

/// The groups after `a` and `b` were seen together in the test set `id`:
/// the group of the pair counts one more, up to `i32::MAX`, and names the
/// test set if it did not yet; a pair that has no group gets one at the end.
pub open spec fn recorded(groups: Seq<AlignedPairView>, a: NodeSide, b: NodeSide, id: TestSetId) -> Seq<
    AlignedPairView,
> {
    let k = group_position(groups, (a, b));
    if k < groups.len() {
        let g = groups[k];
        groups.update(
            k,
            AlignedPairView {
                a: g.a,
                b: g.b,
                count: if g.count < i32::MAX {
                    (g.count + 1) as i32
                } else {
                    g.count
                },
                test_sets: if g.test_sets.contains(id) {
                    g.test_sets
                } else {
                    g.test_sets.push(id)
                },
            },
        )
    } else {
        groups.push(AlignedPairView { a, b, count: 1, test_sets: seq![id] })
    }
}

/// The groups after the node side at `i` was seen with each later node side
/// of its tab stop that stands before `n`.
pub open spec fn with_row(
    groups: Seq<AlignedPairView>,
    sides: Seq<NodeSide>,
    id: TestSetId,
    i: int,
    n: int,
) -> Seq<AlignedPairView>
    decreases n - i,
{
    if n <= i + 1 {
        groups
    } else {
        recorded(with_row(groups, sides, id, i, n - 1), sides[i], sides[n - 1], id)
    }
}

/// The groups after each of the first `m` node sides of a tab stop was seen
/// with each node side that comes after it.
pub open spec fn with_list(
    groups: Seq<AlignedPairView>,
    sides: Seq<NodeSide>,
    id: TestSetId,
    m: nat,
) -> Seq<AlignedPairView>
    decreases m,
{
    if m == 0 {
        groups
    } else {
        with_row(
            with_list(groups, sides, id, (m - 1) as nat),
            sides,
            id,
            m - 1,
            sides.len() as int,
        )
    }
}

/// The groups after the first `k` tab stops of a test set were seen.
pub open spec fn with_tab_stops(
    groups: Seq<AlignedPairView>,
    entries: Seq<TabStopEntry>,
    id: TestSetId,
    k: nat,
) -> Seq<AlignedPairView>
    decreases k,
{
    if k == 0 {
        groups
    } else {
        with_list(
            with_tab_stops(groups, entries, id, (k - 1) as nat),
            entries[k - 1].1,
            id,
            entries[k - 1].1.len(),
        )
    }
}

/// The groups after the first `t` test sets were seen.
pub open spec fn with_test_sets(test_sets: Seq<TestSet>, t: nat) -> Seq<AlignedPairView>
    decreases t,
{
    if t == 0 {
        Seq::empty()
    } else {
        with_tab_stops(
            with_test_sets(test_sets, (t - 1) as nat),
            test_sets[t - 1].tab_stops@,
            test_sets[t - 1].id,
            test_sets[t - 1].tab_stops@.len(),
        )
    }
}

/// The lost alignments among the first `g` groups: the pairs that were seen
/// together less often than there are test sets.
pub open spec fn lost_alignments(groups: Seq<AlignedPairView>, n_test_sets: int, g: nat) -> Seq<
    ViolationView,
>
    decreases g,
{
    if g == 0 {
        Seq::empty()
    } else {
        let before = lost_alignments(groups, n_test_sets, (g - 1) as nat);
        let group = groups[g - 1];
        if group.count < n_test_sets {
            before.push(
                ViolationView::AlignmentLost {
                    a: group.a,
                    b: group.b,
                    count: group.count,
                    test_sets: group.test_sets,
                },
            )
        } else {
            before
        }
    }
}

/// The first group whose pair does not differ from `p` is where
/// [`group_position`] says.
pub proof fn lemma_group_position(groups: Seq<AlignedPairView>, p: (NodeSide, NodeSide), i: int)
    requires
        0 <= i <= groups.len(),
        forall|j: int| 0 <= j < i ==> !pair_equal((#[trigger] groups[j].a, groups[j].b), p),
        i < groups.len() ==> pair_equal((groups[i].a, groups[i].b), p),
    ensures
        group_position(groups, p) == i,
    decreases groups.len(),
{
    if groups.len() > 0 && i > 0 {
        let rest = groups.drop_first();
        assert forall|j: int| 0 <= j < i - 1 implies !pair_equal(
            (#[trigger] rest[j].a, rest[j].b),
            p,
        ) by {
            assert(rest[j] == groups[j + 1]);
        }
        lemma_group_position(rest, p, i - 1);
    }
}

/// True if the list holds the id.
pub fn holds_test_set(list: &Vec<TestSetId>, id: TestSetId) -> (r: bool)
    ensures
        r == list@.contains(id),
{
    let mut i: usize = 0;
    while i < list.len()
        invariant
            i <= list.len(),
            forall|j: int| 0 <= j < i ==> list@[j] != id,
        decreases list.len() - i,
    {
        if list[i] == id {
            return true;
        }
        i += 1;
    }
    false
}

/// Records that `a` and `b` lie on one tab stop in the test set `id`.
pub fn record_pair(groups: &mut Vec<AlignedPair>, a: NodeSide, b: NodeSide, id: TestSetId)
    ensures
        pair_views(final(groups)@) == recorded(pair_views(old(groups)@), a, b, id),
{
    let ghost before = pair_views(groups@);
    let mut k: usize = 0;
    while k < groups.len()
        invariant
            k <= groups.len(),
            before == pair_views(old(groups)@),
            pair_views(groups@) == before,
            forall|j: int| 0 <= j < k ==> !pair_equal((#[trigger] before[j].a, before[j].b), (a, b)),
        decreases groups.len() - k,
    {
        if node_side_pair_equal((&groups[k].pair.a, &groups[k].pair.b), (&a, &b)) {
            proof {
                lemma_group_position(before, (a, b), k as int);
            }
            let group = groups.remove(k);
            let ghost found = group@;
            proof {
                assert(found == before[k as int]);
            }
            let mut test_sets = group.test_sets;
            if !holds_test_set(&test_sets, id) {
                test_sets.push(id);
            }
            let count = if group.count < i32::MAX {
                group.count + 1
            } else {
                group.count
            };
            let updated = AlignedPair { pair: group.pair, count: count, test_sets: test_sets };
            let ghost without = pair_views(groups@);
            proof {
                assert(without =~= before.remove(k as int));
            }
            groups.insert(k, updated);
            proof {
                assert(pair_views(groups@) =~= without.insert(k as int, updated@));
            }
            return ;
        }
        k += 1;
    }
    proof {
        lemma_group_position(before, (a, b), before.len() as int);
    }
    let mut test_sets: Vec<TestSetId> = Vec::new();
    test_sets.push(id);
    groups.push(AlignedPair { pair: NodeSidePair { a: a, b: b }, count: 1, test_sets: test_sets });
    proof {
        assert(pair_views(groups@) =~= recorded(before, a, b, id));
    }
}

/// Finds the pairs of node sides that share a tab stop in some of the test
/// sets but not in all of them. Each pair of node sides on one tab stop of
/// one test set counts once; a pair that counts less than the number of
/// test sets has lost its alignment somewhere.
pub fn check_for_lost_alignment(test_sets: &Vec<TestSet>) -> (r: Vec<LayoutViolation>)
    requires
        test_sets@.len() <= i32::MAX,
        forall|t: int| 0 <= t < test_sets@.len() ==> (#[trigger] test_sets@[t]).tab_stops.wf(),
    ensures
        views(r@) == lost_alignments(
            with_test_sets(test_sets@, test_sets@.len()),
            test_sets@.len() as int,
            with_test_sets(test_sets@, test_sets@.len()).len(),
        ),
{
    let mut groups: Vec<AlignedPair> = Vec::new();
    proof {
        assert(pair_views(groups@) =~= Seq::<AlignedPairView>::empty());
    }
    let mut t: usize = 0;
    while t < test_sets.len()
        invariant
            t <= test_sets.len(),
            forall|t: int| 0 <= t < test_sets@.len() ==> (#[trigger] test_sets@[t]).tab_stops.wf(),
            pair_views(groups@) == with_test_sets(test_sets@, t as nat),
        decreases test_sets.len() - t,
    {
        let test_set = &test_sets[t];
        let id = test_set.id;
        let ghost at_set = pair_views(groups@);
        let ghost entries = test_set.tab_stops@;
        let mut k: usize = 0;
        while k < test_set.tab_stops.nodes.len()
            invariant
                test_set.tab_stops.wf(),
                entries == test_set.tab_stops@,
                k <= test_set.tab_stops.nodes.len(),
                pair_views(groups@) == with_tab_stops(at_set, entries, id, k as nat),
            decreases test_set.tab_stops.nodes.len() - k,
        {
            let sides = &test_set.tab_stops.nodes[k];
            let ghost at_stop = pair_views(groups@);
            proof {
                assert(entries[k as int].1 == sides@);
            }
            let mut i: usize = 0;
            while i < sides.len()
                invariant
                    i <= sides.len(),
                    pair_views(groups@) == with_list(at_stop, sides@, id, i as nat),
                decreases sides.len() - i,
            {
                let ghost at_row = pair_views(groups@);
                let mut j: usize = i + 1;
                while j < sides.len()
                    invariant
                        i < sides.len(),
                        i + 1 <= j <= sides.len(),
                        pair_views(groups@) == with_row(at_row, sides@, id, i as int, j as int),
                    decreases sides.len() - j,
                {
                    record_pair(&mut groups, sides[i], sides[j], id);
                    j += 1;
                }
                i += 1;
            }
            k += 1;
        }
        t += 1;
    }
    let n_test_sets: i32 = test_sets.len() as i32;
    let ghost all = pair_views(groups@);
    let mut violations: Vec<LayoutViolation> = Vec::new();
    proof {
        assert(views(violations@) =~= Seq::<ViolationView>::empty());
    }
    for group in it: groups
        invariant
            pair_views(it.seq()) == all,
            views(violations@) == lost_alignments(all, n_test_sets as int, it.index() as nat),
    {
        proof {
            assert(all[it.index() as int] == group@);
        }
        if group.count < n_test_sets {
            let ghost before = views(violations@);
            let v = LayoutViolation::AlignmentLost {
                a: group.pair.a,
                b: group.pair.b,
                count: group.count,
                test_sets: group.test_sets,
            };
            violations.push(v);
            proof {
                assert(views(violations@) =~= before.push(v@));
            }
        }
    }
    violations
}

/// No group before the one that [`group_position`] names is a group of the
/// pair, and the one that it names is.
pub proof fn lemma_group_position_is_first(groups: Seq<AlignedPairView>, p: (NodeSide, NodeSide))
    ensures
        0 <= group_position(groups, p) <= groups.len(),
        forall|j: int|
            0 <= j < group_position(groups, p) ==> !pair_equal((#[trigger] groups[j].a, groups[j].b), p),
        group_position(groups, p) < groups.len() ==> pair_equal(
            (groups[group_position(groups, p)].a, groups[group_position(groups, p)].b),
            p,
        ),
    decreases groups.len(),
{
    if groups.len() > 0 && !pair_equal((groups[0].a, groups[0].b), p) {
        let rest = groups.drop_first();
        lemma_group_position_is_first(rest, p);
        assert forall|j: int| 0 <= j < group_position(groups, p) implies !pair_equal(
            (#[trigger] groups[j].a, groups[j].b),
            p,
        ) by {
            if j > 0 {
                assert(rest[j - 1] == groups[j]);
            }
        }
    }
}

/// True if every group was seen at least once.
pub open spec fn all_seen(groups: Seq<AlignedPairView>) -> bool {
    forall|k: int| 0 <= k < groups.len() ==> (#[trigger] groups[k]).count >= 1
}

/// Recording a pair leaves no group with a count below one.
pub proof fn lemma_recorded_all_seen(
    groups: Seq<AlignedPairView>,
    a: NodeSide,
    b: NodeSide,
    id: TestSetId,
)
    requires
        all_seen(groups),
    ensures
        all_seen(recorded(groups, a, b, id)),
{
    let after = recorded(groups, a, b, id);
    let at = group_position(groups, (a, b));
    lemma_group_position_is_first(groups, (a, b));
    assert forall|k: int| 0 <= k < after.len() implies (#[trigger] after[k]).count >= 1 by {
        if at < groups.len() {
            if k != at {
                assert(after[k] == groups[k]);
            } else {
                assert(groups[at].count >= 1);
            }
        } else {
            if k < groups.len() {
                assert(after[k] == groups[k]);
            }
        }
    }
}

/// See [`lemma_recorded_all_seen`].
pub proof fn lemma_with_row_all_seen(
    groups: Seq<AlignedPairView>,
    sides: Seq<NodeSide>,
    id: TestSetId,
    i: int,
    n: int,
)
    requires
        all_seen(groups),
    ensures
        all_seen(with_row(groups, sides, id, i, n)),
    decreases n - i,
{
    if n > i + 1 {
        lemma_with_row_all_seen(groups, sides, id, i, n - 1);
        lemma_recorded_all_seen(
            with_row(groups, sides, id, i, n - 1),
            sides[i],
            sides[n - 1],
            id,
        );
    }
}

/// See [`lemma_recorded_all_seen`].
pub proof fn lemma_with_list_all_seen(
    groups: Seq<AlignedPairView>,
    sides: Seq<NodeSide>,
    id: TestSetId,
    m: nat,
)
    requires
        all_seen(groups),
    ensures
        all_seen(with_list(groups, sides, id, m)),
    decreases m,
{
    if m > 0 {
        lemma_with_list_all_seen(groups, sides, id, (m - 1) as nat);
        lemma_with_row_all_seen(
            with_list(groups, sides, id, (m - 1) as nat),
            sides,
            id,
            m - 1,
            sides.len() as int,
        );
    }
}

/// See [`lemma_recorded_all_seen`].
pub proof fn lemma_with_tab_stops_all_seen(
    groups: Seq<AlignedPairView>,
    entries: Seq<TabStopEntry>,
    id: TestSetId,
    k: nat,
)
    requires
        all_seen(groups),
    ensures
        all_seen(with_tab_stops(groups, entries, id, k)),
    decreases k,
{
    if k > 0 {
        lemma_with_tab_stops_all_seen(groups, entries, id, (k - 1) as nat);
        lemma_with_list_all_seen(
            with_tab_stops(groups, entries, id, (k - 1) as nat),
            entries[k - 1].1,
            id,
            entries[k - 1].1.len(),
        );
    }
}

/// Every pair that has a group was seen at least once.
pub proof fn lemma_with_test_sets_all_seen(test_sets: Seq<TestSet>, t: nat)
    ensures
        all_seen(with_test_sets(test_sets, t)),
    decreases t,
{
    if t > 0 {
        lemma_with_test_sets_all_seen(test_sets, (t - 1) as nat);
        lemma_with_tab_stops_all_seen(
            with_test_sets(test_sets, (t - 1) as nat),
            test_sets[t - 1].tab_stops@,
            test_sets[t - 1].id,
            test_sets[t - 1].tab_stops@.len(),
        );
    }
}

/// Where every pair was seen as often as there are test sets, or more often,
/// no alignment is lost.
pub proof fn lemma_nothing_lost(groups: Seq<AlignedPairView>, n_test_sets: int, g: nat)
    requires
        g <= groups.len(),
        forall|k: int| 0 <= k < groups.len() ==> (#[trigger] groups[k]).count >= n_test_sets,
    ensures
        lost_alignments(groups, n_test_sets, g) == Seq::<ViolationView>::empty(),
    decreases g,
{
    if g > 0 {
        lemma_nothing_lost(groups, n_test_sets, (g - 1) as nat);
    }
}

/// With one test set alone no alignment can be lost: a pair is seen once or
/// more, or it is not seen and has no group.
pub proof fn lemma_single_test_set_loses_no_alignment(test_sets: Seq<TestSet>)
    requires
        test_sets.len() == 1,
    ensures
        lost_alignments(
            with_test_sets(test_sets, 1),
            1,
            with_test_sets(test_sets, 1).len(),
        ) == Seq::<ViolationView>::empty(),
{
    lemma_with_test_sets_all_seen(test_sets, 1);
    lemma_nothing_lost(with_test_sets(test_sets, 1), 1, with_test_sets(test_sets, 1).len());
}

} // verus!
