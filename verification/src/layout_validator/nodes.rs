//! The node tree of one test set.

use std::collections::HashMap;
use vstd::math::{max, min};
use vstd::prelude::*;
use super::rect::{clamped_rect, Rect};
use super::sorting::is_stable_sort;
use crate::sequences::{first_occurrences, lemma_push_contains, lemma_push_fresh};
use crate::text::{decimal, push_decimal, push_text};

verus! {

broadcast use vstd::std_specs::hash::group_hash_axioms;

/// What was measured of one node: the box its author declared (`actual_*`),
/// the box it was rendered in (`render_*`), and where it comes from.
#[derive(Debug)]
pub struct NodeData {
    pub name: String,
    pub actual_position_x: i32,
    pub actual_position_y: i32,
    pub actual_width: i32,
    pub actual_height: i32,
    pub render_width: i32,
    pub render_height: i32,
    pub render_position_x: i32,
    pub render_position_y: i32,
    pub line: i32,
    pub file: String,
}

impl NodeData {
    /// The right edge of the declared box.
    pub open spec fn actual_right(&self) -> int {
        self.actual_position_x + self.actual_width
    }

    /// The bottom edge of the declared box.
    pub open spec fn actual_bottom(&self) -> int {
        self.actual_position_y + self.actual_height
    }

    /// True if the declared box lies within the declared box of `other`,
    /// edges included.
    pub open spec fn inside(&self, other: &NodeData) -> bool {
        &&& self.actual_position_x >= other.actual_position_x
        &&& self.actual_right() <= other.actual_right()
        &&& self.actual_position_y >= other.actual_position_y
        &&& self.actual_bottom() <= other.actual_bottom()
    }

    /// True if the declared boxes of the two share more than an edge.
    pub open spec fn overlaps(&self, other: &NodeData) -> bool {
        &&& self.actual_position_x < other.actual_right()
        &&& self.actual_right() > other.actual_position_x
        &&& self.actual_position_y < other.actual_bottom()
        &&& self.actual_bottom() > other.actual_position_y
    }

    /// What the declared boxes of the two have in common.
    pub open spec fn intersection(&self, other: &NodeData) -> Rect {
        let left = max(self.actual_position_x as int, other.actual_position_x as int);
        let top = max(self.actual_position_y as int, other.actual_position_y as int);
        let right = min(self.actual_right(), other.actual_right());
        let bottom = min(self.actual_bottom(), other.actual_bottom());
        clamped_rect(left, top, right - left, bottom - top)
    }

    /// The rendered box.
    pub open spec fn render_rect(&self) -> Rect {
        clamped_rect(
            self.render_position_x as int,
            self.render_position_y as int,
            self.render_width as int,
            self.render_height as int,
        )
    }

    /// Width plus height of the declared box: a measure of its size that is
    /// cheaper than the area, and all that the overflow rule needs.
    pub open spec fn pseudo_area(&self) -> int {
        self.actual_width + self.actual_height
    }

    /// Width plus height of what the declared boxes of the two have in
    /// common. Where one box lies within the other, this is the width plus
    /// height of the inner box.
    pub open spec fn shared_pseudo_area(&self, other: &NodeData) -> int {
        let left = max(self.actual_position_x as int, other.actual_position_x as int);
        let top = max(self.actual_position_y as int, other.actual_position_y as int);
        let right = min(self.actual_right(), other.actual_right());
        let bottom = min(self.actual_bottom(), other.actual_bottom());
        (right - left) + (bottom - top)
    }

    /// A copy of the data.
    pub fn duplicate(&self) -> (r: NodeData)
        ensures
            r == *self,
    {
        NodeData {
            name: self.name.clone(),
            actual_position_x: self.actual_position_x,
            actual_position_y: self.actual_position_y,
            actual_width: self.actual_width,
            actual_height: self.actual_height,
            render_width: self.render_width,
            render_height: self.render_height,
            render_position_x: self.render_position_x,
            render_position_y: self.render_position_y,
            line: self.line,
            file: self.file.clone(),
        }
    }
}

impl Clone for NodeData {
    fn clone(&self) -> (r: NodeData)
        ensures
            r == *self,
    {
        self.duplicate()
    }
}

/// A node of the tree. The root is the node without a parent.
#[derive(Debug)]
pub struct Node {
    pub id: i32,
    pub parent: Option<i32>,
    pub node_data: NodeData,
}

impl Clone for Node {
    fn clone(&self) -> (r: Node)
        ensures
            r == *self,
    {
        self.duplicate()
    }
}

impl Node {
    /// A node with this id, parent and data.
    pub fn new(id: i32, parent: Option<i32>, node_data: NodeData) -> (n: Node)
        ensures
            n == (Node { id, parent, node_data }),
    {
        Node { id: id, parent: parent, node_data: node_data }
    }

    /// The node as text: its id and the line on which it was declared.
    pub open spec fn spec_text(&self) -> Seq<char> {
        decimal(self.id as int) + " @ L-"@ + decimal(self.node_data.line as int)
    }

    /// The node as text, such as `3 @ L-12` for node 3 of line 12.
    pub fn to_text(&self) -> (r: String)
        ensures
            r@ == self.spec_text(),
    {
        let mut s = String::new();
        push_decimal(&mut s, self.id as i64);
        push_text(&mut s, " @ L-");
        push_decimal(&mut s, self.node_data.line as i64);
        proof {
            assert(s@ =~= self.spec_text());
        }
        s
    }

    /// A copy of the node.
    pub fn duplicate(&self) -> (r: Node)
        ensures
            r == *self,
    {
        Node { id: self.id, parent: self.parent, node_data: self.node_data.duplicate() }
    }
}

/// The texts of the strings.
pub open spec fn texts(s: Seq<String>) -> Seq<Seq<char>> {
    s.map_values(|t: String| t@)
}

/// The ids of the nodes, in their order.
pub open spec fn ids_of(s: Seq<Node>) -> Seq<i32> {
    s.map_values(|n: Node| n.id)
}

/// The map from id to node that `s` describes: of two nodes with one id
/// the later one stays.
pub open spec fn node_map(s: Seq<Node>) -> Map<i32, Node>
    decreases s.len(),
{
    if s.len() == 0 {
        Map::empty()
    } else {
        node_map(s.drop_last()).insert(s.last().id, s.last())
    }
}

/// What [`node_map`] holds: the ids of the nodes, each with the last node
/// that has the id.
pub proof fn lemma_node_map(s: Seq<Node>)
    ensures
        forall|id: i32|
            node_map(s).contains_key(id) <==> exists|i: int|
                0 <= i < s.len() && (#[trigger] s[i]).id == id,
        forall|i: int|
            0 <= i < s.len() && (forall|j: int| i < j < s.len() ==> (#[trigger] s[j]).id != s[i].id)
                ==> node_map(s)[(#[trigger] s[i]).id] == s[i],
    decreases s.len(),
{
    if s.len() > 0 {
        let before = s.drop_last();
        lemma_node_map(before);
        assert forall|id: i32| node_map(s).contains_key(id) <==> exists|i: int|
            0 <= i < s.len() && (#[trigger] s[i]).id == id by {
            if node_map(s).contains_key(id) {
                if id == s.last().id {
                    assert(s[s.len() - 1].id == id);
                } else {
                    assert(node_map(before).contains_key(id));
                    let i = choose|i: int| 0 <= i < before.len() && (#[trigger] before[i]).id == id;
                }
            }
            if exists|i: int| 0 <= i < s.len() && (#[trigger] s[i]).id == id {
                let i = choose|i: int| 0 <= i < s.len() && (#[trigger] s[i]).id == id;
                if i < before.len() {
                    assert(before[i].id == id);
                }
            }
        }
        assert forall|i: int|
            0 <= i < s.len() && (forall|j: int|
                i < j < s.len() ==> (#[trigger] s[j]).id != s[i].id) implies node_map(s)[(
        #[trigger] s[i]).id] == s[i] by {
            if i < before.len() {
                assert forall|j: int| i < j < before.len() implies (#[trigger] before[j]).id
                    != before[i].id by {
                    assert(s[j].id != s[i].id);
                }
            }
        }
    }
}

/// True if `r` holds the nodes of `s` by ascending line, with nodes of one
/// line left in their order.
pub open spec fn is_sorted_by_line(r: Seq<Node>, s: Seq<Node>) -> bool {
    is_stable_sort(r, s, |a: Node, b: Node| a.node_data.line <= b.node_data.line)
}

/// Calls `slice::sort_by_key` of std with the line of a node as the key.
/// The sort is stable: afterwards the vector holds the same nodes by
/// ascending line, and nodes of one line stand as they stood. This is taken
/// from the documentation of the function, and not proved.
#[verifier::external_body]
fn sort_by_line(nodes: &mut Vec<Node>)
    ensures
        is_sorted_by_line(final(nodes)@, old(nodes)@),
{
    nodes.sort_by_key(|n| n.node_data.line);
}

/// The nodes of one test set, by id, and the order in which they are walked.
#[derive(Debug)]
pub struct Nodes {
    pub root_size: (i32, i32),
    pub nodes: HashMap<i32, Node>,
    pub ids: Vec<i32>,
}

impl Clone for Nodes {
    fn clone(&self) -> (r: Nodes)
        ensures
            r.root_size == self.root_size,
            r.nodes@ == self.nodes@,
            r.ids@ == self.ids@,
    {
        Nodes {
            root_size: (self.root_size.0, self.root_size.1),
            nodes: self.nodes.clone(),
            ids: self.ids.clone(),
        }
    }
}

impl Nodes {
    /// `ids` lists the keys of `nodes`, each once, and every node is stored
    /// under its own id.
    pub open spec fn wf(&self) -> bool {
        &&& self.ids@.no_duplicates()
        &&& forall|id: i32| self.ids@.contains(id) <==> self.nodes@.contains_key(id)
        &&& forall|id: i32| self.nodes@.contains_key(id) ==> (#[trigger] self.nodes@[id]).id == id
    }

    /// True if the tree holds a node with this id.
    pub open spec fn contains(&self, id: i32) -> bool {
        self.nodes@.contains_key(id)
    }

    /// The node with this id.
    pub open spec fn node(&self, id: i32) -> Node
        recommends
            self.contains(id),
    {
        self.nodes@[id]
    }

    /// The ids in the order in which the tree is walked.
    pub open spec fn order(&self) -> Seq<i32> {
        self.ids@
    }

    /// The parent id of the node with this id, if the tree holds the node
    /// and the node names a parent.
    pub open spec fn parent_id(&self, id: i32) -> Option<i32> {
        if self.contains(id) {
            self.node(id).parent
        } else {
            None
        }
    }

    /// True if the tree holds this node and the node has no parent.
    pub open spec fn is_root(&self, id: i32) -> bool {
        self.contains(id) && self.node(id).parent is None
    }

    /// What is reached from `id` after `k` steps from a node to its parent:
    /// `id` itself for `k == 0`, and nothing once a step starts at a node
    /// that has no parent or that the tree does not hold.
    pub open spec fn ancestor(&self, id: i32, k: nat) -> Option<i32>
        decreases k,
    {
        if k == 0 {
            Some(id)
        } else {
            match self.ancestor(id, (k - 1) as nat) {
                Some(a) => self.parent_id(a),
                None => None,
            }
        }
    }

    /// True if `a` is reached from `b` by one or more steps to the parent.
    pub open spec fn spec_is_ancestor_of(&self, a: i32, b: i32) -> bool {
        exists|k: nat| k >= 1 && self.ancestor(b, k) == Some(a)
    }

    /// True if the walk from `id` to parent after parent stops within `n`
    /// steps, at a node without a parent or at an id that the tree lacks.
    pub open spec fn ends_within(&self, id: i32, n: nat) -> bool
        decreases n,
    {
        match self.parent_id(id) {
            None => true,
            Some(p) => n > 0 && self.ends_within(p, (n - 1) as nat),
        }
    }

    /// True if the walk from `id` to parent after parent stops: it runs
    /// into no cycle.
    pub open spec fn chain_ends(&self, id: i32) -> bool {
        exists|n: nat| self.ends_within(id, n)
    }

    /// True if the walk from `id` to parent after parent meets only nodes
    /// of the tree and stops at a root within `n` steps.
    pub open spec fn reaches_root_within(&self, id: i32, n: nat) -> bool
        decreases n,
    {
        self.contains(id) && match self.node(id).parent {
            None => true,
            Some(p) => n > 0 && self.reaches_root_within(p, (n - 1) as nat),
        }
    }

    /// True if the walk from `id` to parent after parent ends at a root.
    pub open spec fn reaches_root(&self, id: i32) -> bool {
        exists|n: nat| self.reaches_root_within(id, n)
    }

    /// True if the root is `k` steps above `id`.
    pub open spec fn level_is(&self, id: i32, k: nat) -> bool {
        self.ancestor(id, k) matches Some(a) && self.is_root(a)
    }

    /// The nodes form one tree: every parent is there, every walk to the
    /// parent ends, and no two nodes are roots.
    pub open spec fn is_tree(&self) -> bool {
        &&& self.wf()
        &&& forall|id: i32| self.contains(id) ==> self.reaches_root(id)
        &&& forall|a: i32, b: i32| self.is_root(a) && self.is_root(b) ==> a == b
    }

    /// In a tree the walk from the first node ends at the root, which is
    /// what [`Nodes::root_node`] asks for.
    pub proof fn lemma_tree_has_a_root(&self)
        requires
            self.is_tree(),
            self.order().len() > 0,
        ensures
            self.reaches_root(self.order()[0]),
    {
        assert(self.order().contains(self.order()[0]));
    }

    /// The children of `id` in the order of the walk.
    pub open spec fn spec_children_of(&self, id: i32) -> Seq<i32> {
        self.order().filter(|c: i32| self.node(c).parent == Some(id))
    }

    /// True if both nodes name a parent, and the same one.
    pub open spec fn spec_are_siblings(&self, n1: i32, n2: i32) -> bool {
        self.node(n1).parent is Some && self.node(n1).parent == self.node(n2).parent
    }

    /// True if `b` names `a` as its parent.
    pub open spec fn spec_is_parent_of(&self, a: i32, b: i32) -> bool {
        self.node(b).parent == Some(a)
    }

    /// The overlap of the declared boxes of two nodes, if both are there and
    /// their boxes overlap.
    pub open spec fn spec_overlap(&self, n1: i32, n2: i32) -> Option<Rect> {
        if self.contains(n1) && self.contains(n2) && self.node(n1).node_data.overlaps(
            &self.node(n2).node_data,
        ) {
            Some(self.node(n1).node_data.intersection(&self.node(n2).node_data))
        } else {
            None
        }
    }

    /// Tells whether the tree is well formed, which is what most of its
    /// functions ask for. A tree that [`Nodes::new`] made is.
    pub fn is_well_formed(&self) -> (r: bool)
        ensures
            r == self.wf(),
    {
        if self.ids.len() != self.nodes.len() {
            proof {
                if self.wf() {
                    self.ids@.unique_seq_to_set();
                    assert(self.ids@.to_set() =~= self.nodes@.dom());
                }
            }
            return false;
        }
        let mut i: usize = 0;
        while i < self.ids.len()
            invariant
                i <= self.ids.len(),
                self.ids@.len() == self.nodes@.len(),
                forall|j: int|
                    0 <= j < i ==> self.nodes@.contains_key(#[trigger] self.ids@[j])
                        && self.nodes@[self.ids@[j]].id == self.ids@[j],
                forall|a: int, b: int| 0 <= a < b < i ==> self.ids@[a] != self.ids@[b],
            decreases self.ids.len() - i,
        {
            let id = self.ids[i];
            proof {
                assert(self.ids@.contains(id));
            }
            match self.nodes.get(&id) {
                Some(node) => {
                    if node.id != id {
                        return false;
                    }
                },
                None => {
                    return false;
                },
            }
            let mut k: usize = 0;
            while k < i
                invariant
                    k <= i,
                    i < self.ids.len(),
                    id == self.ids@[i as int],
                    forall|a: int| 0 <= a < k ==> self.ids@[a] != id,
                decreases i - k,
            {
                if self.ids[k] == id {
                    return false;
                }
                k += 1;
            }
            i += 1;
        }
        proof {
            let ids = self.ids@;
            let dom = self.nodes@.dom();
            assert(ids.no_duplicates());
            ids.unique_seq_to_set();
            assert(ids.to_set().subset_of(dom)) by {
                assert forall|id: i32| ids.to_set().contains(id) implies dom.contains(id) by {
                    let j = choose|j: int| 0 <= j < ids.len() && ids[j] == id;
                    assert(self.nodes@.contains_key(ids[j]));
                }
            }
            vstd::set_lib::lemma_set_subset_finite(dom, ids.to_set());
            vstd::set_lib::lemma_subset_equality(ids.to_set(), dom);
            assert forall|id: i32| self.nodes@.contains_key(id) implies (
            #[trigger] self.nodes@[id]).id == id by {
                assert(ids.to_set().contains(id));
                let j = choose|j: int| 0 <= j < ids.len() && ids[j] == id;
                assert(self.nodes@[ids[j]].id == ids[j]);
            }
        }
        true
    }

    /// The tree of these nodes. Of two nodes with one id the later one stays;
    /// the tree is walked in the order in which the ids occur first.
    pub fn new(nodes: Vec<Node>, root_size: (i32, i32)) -> (r: Nodes)
        ensures
            r.wf(),
            r.root_size == root_size,
            r.nodes@ == node_map(nodes@),
            r.ids@ == first_occurrences(ids_of(nodes@)),
    {
        let mut nodes_map: HashMap<i32, Node> = HashMap::new();
        let mut ids: Vec<i32> = Vec::new();
        let ghost all = nodes@;
        for n in it: nodes
            invariant
                it.seq() == all,
                ids@.no_duplicates(),
                forall|id: i32| ids@.contains(id) <==> nodes_map@.contains_key(id),
                forall|id: i32| nodes_map@.contains_key(id) ==> (#[trigger] nodes_map@[id]).id == id,
                nodes_map@ == node_map(all.take(it.index() as int)),
                ids@ == first_occurrences(ids_of(all.take(it.index() as int))),
        {
            proof {
                let k = it.index() as int;
                assert(all.take(k + 1).drop_last() =~= all.take(k));
                assert(ids_of(all.take(k + 1)).drop_last() =~= ids_of(all.take(k)));
            }
            let ghost ids_before = ids@;
            if !nodes_map.contains_key(&n.id) {
                ids.push(n.id);
                proof {
                    lemma_push_fresh(ids_before, n.id);
                }
            }
            nodes_map.insert(n.id, n);
            proof {
                assert forall|id: i32| ids@.contains(id) <==> nodes_map@.contains_key(
                    id,
                ) by {
                    lemma_push_contains(ids_before, n.id, id);
                }
            }
        }
        proof {
            assert(all.take(all.len() as int) =~= all);
        }
        Nodes { root_size: root_size, nodes: nodes_map, ids: ids }
    }

    /// The nodes in the order of the walk.
    pub open spec fn nodes_in_order(&self) -> Seq<Node> {
        self.order().map_values(|id: i32| self.node(id))
    }

    /// Copies of the nodes, by the line on which each was declared.
    pub fn sorted_by_line(&self) -> (r: Vec<Node>)
        requires
            self.wf(),
        ensures
            is_sorted_by_line(r@, self.nodes_in_order()),
    {
        let mut nodes_vec: Vec<Node> = Vec::new();
        let mut i: usize = 0;
        while i < self.ids.len()
            invariant
                self.wf(),
                i <= self.ids.len(),
                nodes_vec@ == self.nodes_in_order().take(i as int),
            decreases self.ids.len() - i,
        {
            let id = self.ids[i];
            proof {
                assert(self.ids@.contains(id));
            }
            let n = self.nodes.get(&id).unwrap();
            nodes_vec.push(n.duplicate());
            proof {
                assert(nodes_vec@ =~= self.nodes_in_order().take(i + 1));
            }
            i += 1;
        }
        proof {
            assert(nodes_vec@ =~= self.nodes_in_order());
        }
        sort_by_line(&mut nodes_vec);
        nodes_vec
    }

    /// The node with this id, if the tree holds one.
    pub fn get_from_id(&self, id: i32) -> (r: Option<&Node>)
        ensures
            r is Some <==> self.contains(id),
            r matches Some(n) ==> *n == self.node(id),
    {
        self.nodes.get(&id)
    }

    /// The parent of a node, if the node names one and the tree holds it.
    pub fn parent_of(&self, n: &i32) -> (r: Option<&Node>)
        requires
            self.contains(*n),
        ensures
            r is Some <==> self.node(*n).parent is Some && self.contains(self.node(*n).parent->0),
            r matches Some(p) ==> *p == self.node(self.node(*n).parent->0),
    {
        let node = self.nodes.get(n).unwrap();
        match node.parent {
            Some(parent) => self.nodes.get(&parent),
            None => None,
        }
    }

    /// The ids of the nodes that name `n` as their parent, in the order of the
    /// walk.
    pub fn children_of(&self, n: &i32) -> (r: Vec<i32>)
        requires
            self.wf(),
            self.contains(*n),
        ensures
            r@ == self.spec_children_of(*n),
    {
        let mut ret: Vec<i32> = Vec::new();
        let ghost pred = |c: i32| self.node(c).parent == Some(*n);
        let mut i: usize = 0;
        while i < self.ids.len()
            invariant
                self.wf(),
                i <= self.ids.len(),
                pred == (|c: i32| self.node(c).parent == Some(*n)),
                ret@ == self.ids@.take(i as int).filter(pred),
            decreases self.ids.len() - i,
        {
            let id = self.ids[i];
            proof {
                assert(self.ids@.contains(id));
                assert(self.ids@.take(i + 1) =~= self.ids@.take(i as int).push(id));
                Seq::lemma_filter_push(self.ids@.take(i as int), id, pred);
            }
            let node = self.nodes.get(&id);
            match node {
                Some(c) => {
                    match c.parent {
                        Some(parent_id) => {
                            if parent_id == *n {
                                ret.push(id);
                            }
                        },
                        None => {},
                    }
                },
                None => {},
            }
            i += 1;
        }
        proof {
            assert(self.ids@.take(self.ids.len() as int) =~= self.ids@);
        }
        ret
    }

    /// The rendered box of a node.
    pub fn rect_of(&self, n: &i32) -> (r: Rect)
        requires
            self.contains(*n),
        ensures
            r == self.node(*n).node_data.render_rect(),
            r.is_clamped(),
    {
        let node = self.nodes.get(n).unwrap();
        Rect::from_wide(
            node.node_data.render_position_x as i64,
            node.node_data.render_position_y as i64,
            node.node_data.render_width as i64,
            node.node_data.render_height as i64,
        )
    }

    /// True if both nodes name a parent, and the same one.
    pub fn are_siblings(&self, n1: &i32, n2: &i32) -> (r: bool)
        requires
            self.contains(*n1),
            self.contains(*n2),
        ensures
            r == self.spec_are_siblings(*n1, *n2),
    {
        let node1 = self.nodes.get(n1).unwrap();
        let node2 = self.nodes.get(n2).unwrap();
        match node1.parent {
            Some(parent_1) => match node2.parent {
                Some(parent_2) => parent_1 == parent_2,
                None => false,
            },
            None => false,
        }
    }

    /// The overlap of the declared boxes of two nodes. Boxes that only
    /// touch do not overlap, and a node that is not there overlaps nothing.
    pub fn are_overlapping(&self, n1: &i32, n2: &i32) -> (r: Option<Rect>)
        ensures
            r == self.spec_overlap(*n1, *n2),
            r matches Some(rect) ==> rect.is_clamped(),
    {
        let n1 = self.nodes.get(n1);
        let n2 = self.nodes.get(n2);
        match (n1, n2) {
            (Some(n1), Some(n2)) => {
                let x1 = n1.node_data.actual_position_x as i64;
                let x2 = n2.node_data.actual_position_x as i64;
                let y1 = n1.node_data.actual_position_y as i64;
                let y2 = n2.node_data.actual_position_y as i64;
                let w1 = n1.node_data.actual_width as i64;
                let w2 = n2.node_data.actual_width as i64;
                let h1 = n1.node_data.actual_height as i64;
                let h2 = n2.node_data.actual_height as i64;
                if x1 < x2 + w2 && x1 + w1 > x2 && y1 < y2 + h2 && y1 + h1 > y2 {
                    let left = if x1 > x2 { x1 } else { x2 };
                    let right = if x1 + w1 < x2 + w2 { x1 + w1 } else { x2 + w2 };
                    let top = if y1 > y2 { y1 } else { y2 };
                    let bottom = if y1 + h1 < y2 + h2 { y1 + h1 } else { y2 + h2 };
                    Some(Rect::from_wide(left, top, right - left, bottom - top))
                } else {
                    None
                }
            },
            _ => None,
        }
    }

    /// Whether the whole of a node can be scrolled into view inside its
    /// parent. Nothing is known of scrolling, so every node counts as
    /// reachable.
    pub fn can_be_reached_within_parent(&self, node: &i32) -> (r: bool)
        ensures
            r,
    {
        true
    }

    /// Width plus height of the declared box of a node.
    pub fn area(&self, node: &i32) -> (r: i64)
        requires
            self.contains(*node),
        ensures
            r == self.node(*node).node_data.pseudo_area(),
    {
        let n = self.nodes.get(node).unwrap();
        n.node_data.actual_width as i64 + n.node_data.actual_height as i64
    }

    /// Width plus height of what the declared boxes of two nodes have in
    /// common.
    pub fn shared_area(&self, n1: &i32, n2: &i32) -> (r: i64)
        requires
            self.contains(*n1),
            self.contains(*n2),
        ensures
            r == self.node(*n1).node_data.shared_pseudo_area(&self.node(*n2).node_data),
    {
        let n1 = self.nodes.get(n1).unwrap();
        let n2 = self.nodes.get(n2).unwrap();
        let x1 = n1.node_data.actual_position_x as i64;
        let x2 = n2.node_data.actual_position_x as i64;
        let y1 = n1.node_data.actual_position_y as i64;
        let y2 = n2.node_data.actual_position_y as i64;
        let r1 = x1 + n1.node_data.actual_width as i64;
        let r2 = x2 + n2.node_data.actual_width as i64;
        let b1 = y1 + n1.node_data.actual_height as i64;
        let b2 = y2 + n2.node_data.actual_height as i64;
        let left = if x1 > x2 { x1 } else { x2 };
        let right = if r1 < r2 { r1 } else { r2 };
        let top = if y1 > y2 { y1 } else { y2 };
        let bottom = if b1 < b2 { b1 } else { b2 };
        (right - left) + (bottom - top)
    }

    /// True if `b` names `a` as its parent.
    pub fn is_parent_of(&self, a: &i32, b: &i32) -> (r: bool)
        requires
            self.contains(*b),
        ensures
            r == self.spec_is_parent_of(*a, *b),
    {
        let node_b = self.nodes.get(b).unwrap();
        match node_b.parent {
            Some(p) => *a == p,
            None => false,
        }
    }

    /// True if the declared box of `n1` lies within that of `n2`.
    pub fn is_node_completely_inside_other(&self, n1: &i32, n2: &i32) -> (r: bool)
        requires
            self.contains(*n1),
            self.contains(*n2),
        ensures
            r == self.node(*n1).node_data.inside(&self.node(*n2).node_data),
    {
        let n1 = self.nodes.get(n1).unwrap();
        let n2 = self.nodes.get(n2).unwrap();
        let n1_l = n1.node_data.actual_position_x as i64;
        let n1_r = n1.node_data.actual_position_x as i64 + n1.node_data.actual_width as i64;
        let n1_t = n1.node_data.actual_position_y as i64;
        let n1_b = n1.node_data.actual_position_y as i64 + n1.node_data.actual_height as i64;
        let n2_l = n2.node_data.actual_position_x as i64;
        let n2_r = n2.node_data.actual_position_x as i64 + n2.node_data.actual_width as i64;
        let n2_t = n2.node_data.actual_position_y as i64;
        let n2_b = n2.node_data.actual_position_y as i64 + n2.node_data.actual_height as i64;
        n1_l >= n2_l && n1_r <= n2_r && n1_t >= n2_t && n1_b <= n2_b
    }

    /// Once the walk to the parent has stopped, it goes nowhere.
    pub proof fn lemma_ancestor_stops(&self, id: i32, k: nat, j: nat)
        requires
            self.ancestor(id, k) is None,
            k <= j,
        ensures
            self.ancestor(id, j) is None,
        decreases j,
    {
        if j > k {
            self.lemma_ancestor_stops(id, k, (j - 1) as nat);
        }
    }

    /// The root of the tree as it is found from the first node of the walk:
    /// the node without a parent that ends the walk to the parent.
    pub fn root_node(&self) -> (r: Option<i32>)
        requires
            self.wf(),
            self.order().len() > 0 ==> self.reaches_root(self.order()[0]),
        ensures
            r is None <==> self.order().len() == 0,
            r matches Some(root) ==> self.is_root(root) && exists|k: nat|
                self.ancestor(self.order()[0], k) == Some(root),
    {
        if self.ids.len() == 0 {
            return None;
        }
        let first = self.ids[0];
        let ghost mut fuel: nat = choose|n: nat| self.reaches_root_within(first, n);
        let ghost mut k: nat = 0;
        let mut current: i32 = first;
        loop
            invariant
                self.wf(),
                self.ids@.len() > 0,
                first == self.ids@[0],
                self.reaches_root_within(current, fuel),
                self.ancestor(first, k) == Some(current),
            decreases fuel,
        {
            let node = self.nodes.get(&current).unwrap();
            match node.parent {
                Some(parent) => {
                    proof {
                        fuel = (fuel - 1) as nat;
                        k = k + 1;
                    }
                    current = parent;
                },
                None => {
                    return Some(node.id);
                },
            }
        }
    }

    /// The number of steps from a node up to the root, at most `i32::MAX`.
    /// An empty tree has level 0 everywhere.
    pub fn node_level(&self, n: &i32) -> (r: i32)
        requires
            self.nodes@.len() > 0 ==> self.reaches_root(*n),
        ensures
            self.nodes@.len() == 0 ==> r == 0,
            0 <= r,
            self.nodes@.len() > 0 && r < i32::MAX ==> self.level_is(*n, r as nat),
            self.nodes@.len() > 0 ==> forall|k: nat| k < r ==> !self.level_is(*n, k),
    {
        if self.nodes.len() == 0 {
            return 0;
        }
        let ghost mut fuel: nat = choose|m: nat| self.reaches_root_within(*n, m);
        let ghost mut k: nat = 0;
        let mut current: i32 = *n;
        let mut c: i32 = 0;
        loop
            invariant
                self.nodes@.len() > 0,
                self.reaches_root_within(current, fuel),
                self.ancestor(*n, k) == Some(current),
                0 <= c,
                c as nat == if k <= i32::MAX { k } else { i32::MAX as nat },
                forall|j: nat| j < k ==> !self.level_is(*n, j),
            decreases fuel,
        {
            let node = self.nodes.get(&current).unwrap();
            match node.parent {
                Some(parent) => {
                    proof {
                        fuel = (fuel - 1) as nat;
                        k = k + 1;
                    }
                    if c < i32::MAX {
                        c += 1;
                    }
                    current = parent;
                },
                None => {
                    return c;
                },
            }
        }
    }

    /// True if `a` is reached from `b` by one or more steps to the parent.
    pub fn is_ancestor_of(&self, a: &i32, b: &i32) -> (r: bool)
        requires
            self.chain_ends(*b),
        ensures
            r == self.spec_is_ancestor_of(*a, *b),
    {
        let ghost mut fuel: nat = choose|n: nat| self.ends_within(*b, n);
        let ghost mut k: nat = 0;
        let mut p: i32 = *b;
        loop
            invariant
                self.ends_within(p, fuel),
                self.ancestor(*b, k) == Some(p),
                forall|j: nat| 1 <= j <= k ==> self.ancestor(*b, j) != Some(*a),
            decreases fuel,
        {
            let parent = match self.nodes.get(&p) {
                Some(node) => node.parent,
                None => None,
            };
            match parent {
                Some(parent) => {
                    proof {
                        fuel = (fuel - 1) as nat;
                        k = k + 1;
                    }
                    p = parent;
                    if *a == parent {
                        return true;
                    }
                },
                None => {
                    proof {
                        assert forall|j: nat| j >= 1 implies self.ancestor(*b, j) != Some(*a) by {
                            if j > k {
                                self.lemma_ancestor_stops(*b, k + 1, j);
                            }
                        }
                    }
                    return false;
                },
            }
        }
    }

    /// True if some node of `a` is an ancestor of some node of `b`.
    pub fn node_set_has_ancestor_of(&self, a: &Vec<i32>, b: &Vec<i32>) -> (r: bool)
        requires
            forall|j: int| 0 <= j < b@.len() ==> self.chain_ends(#[trigger] b@[j]),
        ensures
            r == exists|i: int, j: int|
                0 <= i < a@.len() && 0 <= j < b@.len() && self.spec_is_ancestor_of(
                    #[trigger] a@[i],
                    #[trigger] b@[j],
                ),
    {
        let mut i: usize = 0;
        while i < a.len()
            invariant
                i <= a.len(),
                forall|j: int| 0 <= j < b@.len() ==> self.chain_ends(#[trigger] b@[j]),
                forall|x: int, y: int|
                    0 <= x < i && 0 <= y < b@.len() ==> !self.spec_is_ancestor_of(
                        #[trigger] a@[x],
                        #[trigger] b@[y],
                    ),
            decreases a.len() - i,
        {
            let mut j: usize = 0;
            while j < b.len()
                invariant
                    i < a.len(),
                    j <= b.len(),
                    forall|j: int| 0 <= j < b@.len() ==> self.chain_ends(#[trigger] b@[j]),
                    forall|x: int, y: int|
                        0 <= x < i && 0 <= y < b@.len() ==> !self.spec_is_ancestor_of(
                            #[trigger] a@[x],
                            #[trigger] b@[y],
                        ),
                    forall|y: int|
                        0 <= y < j ==> !self.spec_is_ancestor_of(a@[i as int], #[trigger] b@[y]),
                decreases b.len() - j,
            {
                let n_a = a[i];
                let n_b = b[j];
                if self.is_ancestor_of(&n_a, &n_b) {
                    return true;
                }
                j += 1;
            }
            i += 1;
        }
        false
    }

    /// The root as [`Nodes::root_node`] finds it, for any nodes: nothing if
    /// the tree is empty, or if the walk from the first node to parent after
    /// parent does not end at a root within as many steps as there are
    /// nodes.
    pub fn checked_root_node(&self) -> (r: Option<i32>)
        requires
            self.wf(),
        ensures
            r is Some <==> self.order().len() > 0 && exists|k: nat|
                k <= self.order().len() && self.level_is(self.order()[0], k),
            r matches Some(root) ==> self.is_root(root) && exists|k: nat|
                self.ancestor(self.order()[0], k) == Some(root),
    {
        if self.ids.len() == 0 {
            return None;
        }
        let first = self.ids[0];
        let ghost mut k: nat = 0;
        let mut steps: usize = 0;
        let mut current: i32 = first;
        loop
            invariant
                self.wf(),
                self.ids@.len() > 0,
                first == self.ids@[0],
                steps == k,
                steps <= self.ids.len(),
                self.ancestor(first, k) == Some(current),
                forall|j: nat| j < k ==> !self.level_is(first, j),
            decreases self.ids.len() - steps,
        {
            match self.nodes.get(&current) {
                Some(node) => {
                    match node.parent {
                        Some(parent) => {
                            if steps == self.ids.len() {
                                proof {
                                    assert(!self.level_is(first, k));
                                }
                                return None;
                            }
                            proof {
                                k = k + 1;
                            }
                            steps += 1;
                            current = parent;
                        },
                        None => {
                            proof {
                                assert(self.level_is(first, k));
                            }
                            return Some(node.id);
                        },
                    }
                },
                None => {
                    proof {
                        assert forall|j: nat| !self.level_is(first, j) by {
                            if j > k {
                                self.lemma_ancestor_stops(first, k + 1, j);
                            }
                        }
                    }
                    return None;
                },
            }
        }
    }

    /// The line that describes a node: as many tabs as its level, its id,
    /// its declared size and its rendered size.
    pub open spec fn spec_node_line(&self, n: i32, level: nat) -> Seq<char> {
        let d = self.node(n).node_data;
        Seq::new(level, |i: int| '\t') + "Node: "@ + decimal(self.node(n).id as int) + " -- (W:"@
            + decimal(d.actual_width as int) + ",H:"@ + decimal(d.actual_height as int)
            + ") - (DW:"@ + decimal(d.render_width as int) + ",DH:"@ + decimal(
            d.render_height as int,
        ) + ")"@
    }

    /// The lines that describe a node and what is below it, down to `depth`
    /// levels: first the lines of its children, each with what is below it,
    /// then the line of the node itself.
    pub open spec fn subtree_lines(&self, n: i32, level: nat, depth: nat) -> Seq<Seq<char>>
        decreases depth, 0nat, 0nat,
    {
        let below = if depth == 0 {
            Seq::empty()
        } else {
            self.forest_lines(
                self.spec_children_of(n),
                self.spec_children_of(n).len(),
                level + 1,
                (depth - 1) as nat,
            )
        };
        below.push(self.spec_node_line(n, level))
    }

    /// The lines that describe the first `k` of the nodes `children`, each
    /// with what is below it.
    pub open spec fn forest_lines(&self, children: Seq<i32>, k: nat, level: nat, depth: nat) -> Seq<
        Seq<char>,
    >
        decreases depth, 1nat, k,
    {
        if k == 0 {
            Seq::empty()
        } else {
            self.forest_lines(children, (k - 1) as nat, level, depth) + self.subtree_lines(
                children[k - 1],
                level,
                depth,
            )
        }
    }

    /// The line that describes a node.
    pub fn node_line(&self, n: &i32, level: usize) -> (r: String)
        requires
            self.contains(*n),
        ensures
            r@ == self.spec_node_line(*n, level as nat),
    {
        let node = self.nodes.get(n).unwrap();
        let mut line = String::new();
        let mut i: usize = 0;
        while i < level
            invariant
                i <= level,
                line@ == Seq::new(i as nat, |k: int| '\t'),
            decreases level - i,
        {
            proof {
                reveal_strlit("\t");
            }
            push_text(&mut line, "\t");
            proof {
                assert(line@ =~= Seq::new((i + 1) as nat, |k: int| '\t'));
            }
            i += 1;
        }
        push_text(&mut line, "Node: ");
        push_decimal(&mut line, node.id as i64);
        push_text(&mut line, " -- (W:");
        push_decimal(&mut line, node.node_data.actual_width as i64);
        push_text(&mut line, ",H:");
        push_decimal(&mut line, node.node_data.actual_height as i64);
        push_text(&mut line, ") - (DW:");
        push_decimal(&mut line, node.node_data.render_width as i64);
        push_text(&mut line, ",DH:");
        push_decimal(&mut line, node.node_data.render_height as i64);
        push_text(&mut line, ")");
        proof {
            assert(line@ =~= self.spec_node_line(*n, level as nat));
        }
        line
    }

    /// Appends the lines that describe a node and what is below it.
    fn push_subtree_lines(&self, n: &i32, level: usize, depth: usize, lines: &mut Vec<String>)
        requires
            self.wf(),
            self.contains(*n),
            level + depth <= usize::MAX,
        ensures
            texts(final(lines)@) == texts(old(lines)@) + self.subtree_lines(
                *n,
                level as nat,
                depth as nat,
            ),
        decreases depth,
    {
        let ghost start = texts(lines@);
        if depth > 0 {
            let children = self.children_of(n);
            let mut k: usize = 0;
            while k < children.len()
                invariant
                    self.wf(),
                    depth > 0,
                    level + depth <= usize::MAX,
                    k <= children.len(),
                    children@ == self.spec_children_of(*n),
                    texts(lines@) == start + self.forest_lines(
                        children@,
                        k as nat,
                        (level + 1) as nat,
                        (depth - 1) as nat,
                    ),
                decreases children.len() - k,
            {
                let child = children[k];
                proof {
                    self.order().lemma_filter_contains_rev(
                        |c: i32| self.node(c).parent == Some(*n),
                        child,
                    );
                }
                self.push_subtree_lines(&child, level + 1, depth - 1, lines);
                proof {
                    assert(texts(lines@) =~= start + self.forest_lines(
                        children@,
                        (k + 1) as nat,
                        (level + 1) as nat,
                        (depth - 1) as nat,
                    ));
                }
                k += 1;
            }
        }
        let ghost below = texts(lines@);
        let line = self.node_line(n, level);
        lines.push(line);
        proof {
            assert(texts(lines@) =~= below.push(line@));
        }
    }

    /// The lines that describe a node and what is below it, down to `depth`
    /// levels below the node: first the lines of its children, each with
    /// what is below it, then the line of the node itself, which starts with
    /// `level` tabs. A tree is described whole if `depth` is the number of
    /// its nodes.
    pub fn node_lines(&self, n: &i32, level: usize, depth: usize) -> (r: Vec<String>)
        requires
            self.wf(),
            self.contains(*n),
            level + depth <= usize::MAX,
        ensures
            texts(r@) == self.subtree_lines(*n, level as nat, depth as nat),
    {
        let mut lines: Vec<String> = Vec::new();
        proof {
            assert(texts(lines@) =~= Seq::<Seq<char>>::empty());
        }
        self.push_subtree_lines(n, level, depth, &mut lines);
        lines
    }

    /// The lines that describe the tree, from the leaves up to the root as
    /// [`Nodes::checked_root_node`] finds it. Nothing if no root is found.
    pub fn node_tree_lines(&self) -> (r: Option<Vec<String>>)
        requires
            self.wf(),
        ensures
            r is Some <==> self.order().len() > 0 && exists|k: nat|
                k <= self.order().len() && self.level_is(self.order()[0], k),
            r matches Some(lines) ==> exists|root: i32|
                self.is_root(root) && (exists|k: nat|
                    self.ancestor(self.order()[0], k) == Some(root)) && texts(lines@)
                    == #[trigger] self.subtree_lines(root, 0, self.order().len()),
    {
        match self.checked_root_node() {
            Some(root) => Some(self.node_lines(&root, 0, self.ids.len())),
            None => None,
        }
    }
}

} // verus!
