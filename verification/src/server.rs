//! What arrives from the application under test: its node tree, nested.

use vstd::prelude::*;
use crate::layout_validator::nodes::{Node, NodeData};

pub use crate::message::ServerBuffer;

verus! {

broadcast use vstd::std_specs::vec::group_vec_axioms;

/// A node as the application under test reports it, with its children
/// nested in it.
#[derive(Debug)]
pub struct JSONNode {
    pub children: Vec<JSONNode>,
    pub name: String,
    pub line: i32,
    pub file: String,
    pub actual_position_x: i32,
    pub actual_position_y: i32,
    pub actual_width: i32,
    pub actual_height: i32,
    pub render_width: i32,
    pub render_height: i32,
    pub render_position_x: i32,
    pub render_position_y: i32,
}

/// The ids that a tree can have: one for every number from 0 to `i32::MAX`.
pub const MAX_NODES: usize = 0x8000_0000;

/// The number of nodes in the first `k` of the trees.
pub open spec fn forest_size(children: Seq<JSONNode>, k: nat) -> nat
    decreases children, k,
{
    if k == 0 || k > children.len() {
        0
    } else {
        forest_size(children, (k - 1) as nat) + children[k - 1].size()
    }
}

/// The first `k` of the trees, flattened one after the other as children of
/// `parent`, with ids from `base` on.
pub open spec fn flat_forest(children: Seq<JSONNode>, k: nat, parent: int, base: int) -> Seq<Node>
    decreases children, k,
{
    if k == 0 || k > children.len() {
        Seq::empty()
    } else {
        let before = flat_forest(children, (k - 1) as nat, parent, base);
        before + children[k - 1].flat(Some(parent as i32), base + before.len())
    }
}

impl JSONNode {
    /// The number of nodes in the tree.
    pub open spec fn size(&self) -> nat
        decreases self,
    {
        1 + forest_size(self.children@, self.children@.len())
    }

    /// What the node says of itself, without its children.
    pub open spec fn data(&self) -> NodeData {
        NodeData {
            name: self.name,
            line: self.line,
            file: self.file,
            actual_position_x: self.actual_position_x,
            actual_position_y: self.actual_position_y,
            actual_width: self.actual_width,
            actual_height: self.actual_height,
            render_width: self.render_width,
            render_height: self.render_height,
            render_position_x: self.render_position_x,
            render_position_y: self.render_position_y,
        }
    }

    /// The tree, flattened: the node itself with the id `base` and the given
    /// parent, then each of its children with all that is below it. Every
    /// node has the id of its place in the sequence, counted from `base`.
    pub open spec fn flat(&self, parent: Option<i32>, base: int) -> Seq<Node>
        decreases self,
    {
        seq![Node { id: base as i32, parent: parent, node_data: self.data() }] + flat_forest(
            self.children@,
            self.children@.len(),
            base,
            base + 1,
        )
    }
}

/// A forest grows with the number of its trees.
pub proof fn lemma_forest_size_grows(children: Seq<JSONNode>, k: nat, n: nat)
    requires
        k <= n <= children.len(),
    ensures
        forest_size(children, k) <= forest_size(children, n),
    decreases n,
{
    if k < n {
        lemma_forest_size_grows(children, k, (n - 1) as nat);
    }
}

/// A flattened forest has one node for each node of its trees.
pub proof fn lemma_flat_forest_len(children: Seq<JSONNode>, k: nat, parent: int, base: int)
    requires
        k <= children.len(),
    ensures
        flat_forest(children, k, parent, base).len() == forest_size(children, k),
    decreases children, k,
{
    if k > 0 {
        lemma_flat_forest_len(children, (k - 1) as nat, parent, base);
        let before = flat_forest(children, (k - 1) as nat, parent, base);
        children[k - 1].lemma_flat_len(Some(parent as i32), base + before.len());
    }
}

/// In a flattened forest every node has the id of its place.
pub proof fn lemma_flat_forest_ids(children: Seq<JSONNode>, k: nat, parent: int, base: int, i: int)
    requires
        k <= children.len(),
        0 <= base,
        base + forest_size(children, k) <= MAX_NODES,
        0 <= i < forest_size(children, k),
    ensures
        flat_forest(children, k, parent, base).len() == forest_size(children, k),
        flat_forest(children, k, parent, base)[i].id == base + i,
    decreases children, k,
{
    lemma_flat_forest_len(children, k, parent, base);
    if k > 0 {
        let before = flat_forest(children, (k - 1) as nat, parent, base);
        lemma_flat_forest_len(children, (k - 1) as nat, parent, base);
        if i < before.len() {
            lemma_flat_forest_ids(children, (k - 1) as nat, parent, base, i);
        } else {
            children[k - 1].lemma_flat_len(Some(parent as i32), base + before.len());
            children[k - 1].lemma_flat_ids(Some(parent as i32), base + before.len(), i - before.len());
        }
    }
}

impl JSONNode {
    /// A flattened tree has one node for each node of the tree.
    pub proof fn lemma_flat_len(&self, parent: Option<i32>, base: int)
        ensures
            self.flat(parent, base).len() == self.size(),
        decreases self,
    {
        lemma_flat_forest_len(self.children@, self.children@.len(), base, base + 1);
    }

    /// In a flattened tree every node has the id of its place.
    pub proof fn lemma_flat_ids(&self, parent: Option<i32>, base: int, i: int)
        requires
            0 <= base,
            base + self.size() <= MAX_NODES,
            0 <= i < self.size(),
        ensures
            self.flat(parent, base).len() == self.size(),
            self.flat(parent, base)[i].id == base + i,
        decreases self,
    {
        self.lemma_flat_len(parent, base);
        if i > 0 {
            lemma_flat_forest_ids(self.children@, self.children@.len(), base, base + 1, i - 1);
        }
    }

    /// Appends the flattened tree to `nodes`, with ids that go on from the
    /// number of nodes that are there. Tells whether the ids sufficed; if
    /// they did not, what `nodes` holds then is of no use.
    fn flatten_into(&self, parent: Option<i32>, nodes: &mut Vec<Node>) -> (ok: bool)
        ensures
            ok <==> old(nodes)@.len() + self.size() <= MAX_NODES,
            ok ==> final(nodes)@ == old(nodes)@ + self.flat(parent, old(nodes)@.len() as int),
        decreases self,
    {
        let ghost start = nodes@;
        let ghost base = nodes@.len() as int;
        if nodes.len() >= MAX_NODES {
            return false;
        }
        let id: i32 = nodes.len() as i32;
        let node = Node {
            id: id,
            parent: parent,
            node_data: NodeData {
                name: self.name.clone(),
                line: self.line,
                file: self.file.clone(),
                actual_position_x: self.actual_position_x,
                actual_position_y: self.actual_position_y,
                actual_width: self.actual_width,
                actual_height: self.actual_height,
                render_width: self.render_width,
                render_height: self.render_height,
                render_position_x: self.render_position_x,
                render_position_y: self.render_position_y,
            },
        };
        let ghost head = seq![node];
        nodes.push(node);
        let mut i: usize = 0;
        while i < self.children.len()
            invariant
                i <= self.children.len(),
                start == old(nodes)@,
                base == start.len(),
                base < MAX_NODES,
                id == base,
                head == seq![Node { id: base as i32, parent: parent, node_data: self.data() }],
                nodes@ == start + head + flat_forest(self.children@, i as nat, base, base + 1),
                nodes@.len() == base + 1 + forest_size(self.children@, i as nat),
                nodes@.len() <= MAX_NODES,
            decreases self.children.len() - i,
        {
            let ghost before = nodes@;
            let ghost forest = flat_forest(self.children@, i as nat, base, base + 1);
            proof {
                lemma_flat_forest_len(self.children@, i as nat, base, base + 1);
                lemma_forest_size_grows(
                    self.children@,
                    (i + 1) as nat,
                    self.children@.len(),
                );
            }
            let ok = self.children[i].flatten_into(Some(id), nodes);
            if !ok {
                proof {
                    assert(forest_size(self.children@, (i + 1) as nat) == forest_size(
                        self.children@,
                        i as nat,
                    ) + self.children@[i as int].size());
                }
                return false;
            }
            proof {
                let child = self.children@[i as int];
                child.lemma_flat_len(Some(id), before.len() as int);
                assert(nodes@ =~= start + head + (forest + child.flat(
                    Some(id),
                    base + 1 + forest.len(),
                )));
            }
            i += 1;
        }
        proof {
            assert(nodes@ =~= start + self.flat(parent, base));
        }
        true
    }

    /// Flattens the tree into the nodes of a test set: a node comes before
    /// its children, each node has the id of its place, and the root has no
    /// parent. Gives nothing if the tree has more nodes than there are ids.
    pub fn checked_into_validator_node(&self) -> (r: Option<Vec<Node>>)
        ensures
            r is Some <==> self.size() <= MAX_NODES,
            r matches Some(nodes) ==> nodes@ == self.flat(None, 0),
    {
        let mut nodes: Vec<Node> = Vec::new();
        if self.flatten_into(None, &mut nodes) {
            proof {
                assert(nodes@ =~= self.flat(None, 0));
            }
            Some(nodes)
        } else {
            None
        }
    }

    /// Flattens the tree into the nodes of a test set: a node comes before
    /// its children, each node has the id of its place, and the root has no
    /// parent.
    pub fn into_validator_node(&self) -> (r: Vec<Node>)
        requires
            self.size() <= MAX_NODES,
        ensures
            r@ == self.flat(None, 0),
    {
        let mut nodes: Vec<Node> = Vec::new();
        self.flatten_into(None, &mut nodes);
        proof {
            assert(nodes@ =~= self.flat(None, 0));
        }
        nodes
    }
}

} // verus!
