//! The tree: an append-only arena of nodes that refer to each other by index.
use vstd::prelude::*;
use glam::Vec2;
use crate::geometry::{dist_squared, distance_squared_bits};
use crate::order::{less, less_than};
use crate::rank::{clamped_rank, has_rank, is_nearest, kth_nearest, kth_nearest_in, nearest_in};
use crate::types::NodeId;

verus! {

/// One point of the growing structure.
#[derive(Debug)]
pub struct TreeNode {
    /// Where the node lies.
    pub pos: Vec2,
    /// Thickness of the branch at this node, as the bit pattern of a binary32
    /// number. The engine hands it on and never computes with it.
    pub radius: u32,
    /// The node this one grew from; none for a root or a free node.
    pub parent: Option<NodeId>,
    /// The nodes that grew from this one, oldest first.
    pub children: Vec<NodeId>,
}

/// A node as contracts see it.
pub struct NodeView {
    pub pos: Vec2,
    pub radius: u32,
    pub parent: Option<NodeId>,
    pub children: Seq<NodeId>,
}

impl View for TreeNode {
    type V = NodeView;

    /// The node with its child list as a sequence.
    open spec fn view(&self) -> NodeView {
        NodeView {
            pos: self.pos,
            radius: self.radius,
            parent: self.parent,
            children: self.children@,
        }
    }
}

/// All nodes of one growing structure, in the order in which they were added.
#[derive(Debug)]
pub struct Tree {
    pub nodes: Vec<TreeNode>,
}

impl View for Tree {
    type V = Seq<NodeView>;

    /// The nodes in order of their indices.
    open spec fn view(&self) -> Seq<NodeView> {
        Seq::new(self.nodes@.len(), |i: int| self.nodes@[i]@)
    }
}

/// A node without a parent and without children.
pub open spec fn root_node(pos: Vec2, radius: u32) -> NodeView {
    NodeView { pos, radius, parent: None, children: Seq::empty() }
}

/// A node under `parent`, without children of its own.
pub open spec fn child_node(pos: Vec2, radius: u32, parent: NodeId) -> NodeView {
    NodeView { pos, radius, parent: Some(parent), children: Seq::empty() }
}

/// The links of node `c` agree: its parent exists and lists it, and each of
/// its children exists, names it as parent and is listed once.
pub open spec fn node_linked(nodes: Seq<NodeView>, c: int) -> bool {
    &&& nodes[c].parent matches Some(p) ==> p < nodes.len() && nodes[p as int].children.contains(
        c as usize,
    )
    &&& forall|j: int|
        0 <= j < nodes[c].children.len() ==> {
            let child = #[trigger] nodes[c].children[j];
            child < nodes.len() && nodes[child as int].parent == Some(c as usize)
        }
    &&& nodes[c].children.no_duplicates()
}

/// The parent and child links of `nodes` agree: those of every node do. A
/// node with a parent is listed once by that parent and by no other node, and
/// every link points at a node that exists.
pub open spec fn linked(nodes: Seq<NodeView>) -> bool {
    forall|c: int| 0 <= c < nodes.len() ==> #[trigger] node_linked(nodes, c)
}

/// `after` holds every node of `before` at its old index, with its position,
/// radius and parent as they were and with its old children first in its
/// child list: nodes were added, none removed, moved or changed otherwise.
pub open spec fn extends(before: Seq<NodeView>, after: Seq<NodeView>) -> bool {
    &&& before.len() <= after.len()
    &&& forall|i: int|
        0 <= i < before.len() ==> {
            let a = #[trigger] after[i];
            &&& a.pos == before[i].pos
            &&& a.radius == before[i].radius
            &&& a.parent == before[i].parent
            &&& before[i].children.is_prefix_of(a.children)
        }
}

/// `nodes` with one more parentless node at the end.
pub open spec fn with_free_node(nodes: Seq<NodeView>, pos: Vec2, radius: u32) -> Seq<NodeView> {
    nodes.push(root_node(pos, radius))
}

/// `nodes` with one more node at the end, entered last in the child list of
/// `parent`.
pub open spec fn with_child(nodes: Seq<NodeView>, parent: NodeId, pos: Vec2, radius: u32) -> Seq<
    NodeView,
>
    recommends
        parent < nodes.len(),
{
    let id = nodes.len() as usize;
    let p = nodes[parent as int];
    nodes.update(parent as int, NodeView { children: p.children.push(id), ..p }).push(
        child_node(pos, radius, parent),
    )
}

/// Squared distance from `pos` to every node, as bit patterns, by node index.
/// A distance that is a NaN is the canonical NaN.
pub open spec fn distances(nodes: Seq<NodeView>, pos: Vec2) -> Seq<u32> {
    Seq::new(nodes.len(), |i: int| dist_squared(nodes[i].pos, pos))
}

/// Some child of `parent` lies at a squared distance below `eps2` from `pos`.
pub open spec fn near_child(nodes: Seq<NodeView>, parent: NodeId, pos: Vec2, eps2: u32) -> bool {
    exists|j: int|
        0 <= j < nodes[parent as int].children.len() && less(
            dist_squared(nodes[(#[trigger] nodes[parent as int].children[j]) as int].pos, pos),
            eps2,
        )
}

impl TreeNode {
    /// A node without a parent.
    pub fn new_root(pos: Vec2, radius: u32) -> (node: Self)
        ensures
            node@ == root_node(pos, radius),
    {
        Self { pos, radius, parent: None, children: Vec::with_capacity(4) }
    }

    /// A node under `parent`. The parent's child list is not touched: that is
    /// the work of [`Tree::add_child`].
    pub fn new_child(pos: Vec2, radius: u32, parent: NodeId) -> (node: Self)
        ensures
            node@ == child_node(pos, radius, parent),
    {
        Self { pos, radius, parent: Some(parent), children: Vec::with_capacity(4) }
    }
}

impl Tree {
    /// The links of this tree agree; see [`linked`].
    pub open spec fn wf(&self) -> bool {
        linked(self@)
    }

    /// A tree of one node, the root, at index 0.
    pub fn new(root_pos: Vec2, root_radius: u32) -> (tree: Self)
        ensures
            tree@ == seq![root_node(root_pos, root_radius)],
            tree.wf(),
    {
        let mut nodes: Vec<TreeNode> = Vec::new();
        nodes.push(TreeNode::new_root(root_pos, root_radius));
        let tree = Self { nodes };
        proof {
            assert(tree@ =~= seq![root_node(root_pos, root_radius)]);
            lemma_root_alone_linked(root_pos, root_radius);
        }
        tree
    }

    /// Appends a node without a parent and returns its index.
    pub fn add_free_node(&mut self, pos: Vec2, radius: u32) -> (id: NodeId)
        ensures
            id == old(self)@.len(),
            final(self)@ == with_free_node(old(self)@, pos, radius),
            extends(old(self)@, final(self)@),
            old(self).wf() ==> final(self).wf(),
    {
        let id: usize = self.nodes.len();
        self.nodes.push(TreeNode::new_root(pos, radius));
        proof {
            assert(self@ =~= with_free_node(old(self)@, pos, radius));
            if old(self).wf() {
                lemma_free_node_keeps_links(old(self)@, pos, radius);
            }
        }
        id
    }

    /// Appends a node under `parent`, enters it last in the parent's child
    /// list and returns its index.
    pub fn add_child(&mut self, parent: NodeId, pos: Vec2, radius: u32) -> (id: NodeId)
        requires
            parent < old(self)@.len(),
        ensures
            id == old(self)@.len(),
            final(self)@ == with_child(old(self)@, parent, pos, radius),
            extends(old(self)@, final(self)@),
            old(self).wf() ==> final(self).wf(),
    {
        let id: usize = self.nodes.len();
        self.nodes.push(TreeNode::new_child(pos, radius, parent));
        self.nodes[parent].children.push(id);
        proof {
            assert(self@ =~= with_child(old(self)@, parent, pos, radius));
            if old(self).wf() {
                lemma_child_keeps_links(old(self)@, parent, pos, radius);
            }
        }
        id
    }

    /// Whether `parent` lists `child` among its children.
    pub fn lists_child(&self, parent: NodeId, child: NodeId) -> (r: bool)
        requires
            parent < self@.len(),
        ensures
            r == self@[parent as int].children.contains(child),
    {
        let n: usize = self.nodes[parent].children.len();
        let mut j: usize = 0;
        while j < n
            invariant
                parent < self@.len(),
                n == self@[parent as int].children.len(),
                j <= n,
                forall|i: int| 0 <= i < j ==> self@[parent as int].children[i] != child,
            decreases n - j,
        {
            if self.nodes[parent].children[j] == child {
                assert(self@[parent as int].children[j as int] == child);
                return true;
            }
            j += 1;
        }
        false
    }

    /// Whether the links of node `id` agree; see [`node_linked`].
    pub fn node_is_linked(&self, id: NodeId) -> (r: bool)
        requires
            id < self@.len(),
        ensures
            r == node_linked(self@, id as int),
    {
        let n: usize = self.nodes.len();
        match self.nodes[id].parent {
            Some(p) => {
                if p >= n || !self.lists_child(p, id) {
                    return false;
                }
            },
            None => {},
        }
        let m: usize = self.nodes[id].children.len();
        let mut j: usize = 0;
        while j < m
            invariant
                n == self@.len(),
                id < n,
                m == self@[id as int].children.len(),
                j <= m,
                forall|i: int|
                    0 <= i < j ==> {
                        let child = #[trigger] self@[id as int].children[i];
                        child < n && self@[child as int].parent == Some(id)
                    },
                forall|a: int, b: int|
                    0 <= a < b < j ==> self@[id as int].children[a] != self@[id as int].children[b],
            decreases m - j,
        {
            let child: usize = self.nodes[id].children[j];
            assert(child == self@[id as int].children[j as int]);
            if child >= n {
                return false;
            }
            match self.nodes[child].parent {
                Some(p) => {
                    if p != id {
                        return false;
                    }
                },
                None => {
                    return false;
                },
            }
            let mut i: usize = 0;
            while i < j
                invariant
                    id < self@.len(),
                    j < m,
                    m == self@[id as int].children.len(),
                    child == self@[id as int].children[j as int],
                    i <= j,
                    forall|a: int| 0 <= a < i ==> self@[id as int].children[a] != child,
                decreases j - i,
            {
                if self.nodes[id].children[i] == child {
                    assert(self@[id as int].children[i as int] == child);
                    return false;
                }
                i += 1;
            }
            j += 1;
        }
        true
    }

    /// Whether the links of this tree agree. A tree that was built by
    /// [`Tree::new`], [`Tree::add_free_node`] and [`Tree::add_child`] alone
    /// always passes; one that was put together by hand may not.
    pub fn is_linked(&self) -> (r: bool)
        ensures
            r == self.wf(),
    {
        let n: usize = self.nodes.len();
        let mut c: usize = 0;
        while c < n
            invariant
                n == self@.len(),
                c <= n,
                forall|i: int| 0 <= i < c ==> node_linked(self@, i),
            decreases n - c,
        {
            if !self.node_is_linked(c) {
                return false;
            }
            c += 1;
        }
        true
    }

    /// Whether some child of `parent` lies at a squared distance below `eps2`
    /// from `pos`. `eps2` is the bit pattern of a binary32 number, and "below"
    /// is the `<` of such numbers: a distance that is a NaN is below nothing,
    /// and nothing is below an `eps2` that is one.
    pub fn has_child_near(&self, parent: NodeId, pos: Vec2, eps2: u32) -> (r: bool)
        requires
            self.wf(),
            parent < self@.len(),
        ensures
            r == near_child(self@, parent, pos, eps2),
    {
        let n: usize = self.nodes[parent].children.len();
        let mut j: usize = 0;
        while j < n
            invariant
                self.wf(),
                parent < self@.len(),
                n == self@[parent as int].children.len(),
                j <= n,
                forall|i: int|
                    0 <= i < j ==> !less(
                        dist_squared(
                            self@[(#[trigger] self@[parent as int].children[i]) as int].pos,
                            pos,
                        ),
                        eps2,
                    ),
            decreases n - j,
        {
            let cid: usize = self.nodes[parent].children[j];
            assert(cid == self@[parent as int].children[j as int]);
            assert(node_linked(self@, parent as int));
            let d2: u32 = distance_squared_bits(self.nodes[cid].pos, pos);
            if less_than(d2, eps2) {
                return true;
            }
            j += 1;
        }
        false
    }

    /// Squared distance from `pos` to every node, by node index. A distance
    /// that is a NaN is handed out as the canonical NaN.
    pub fn distances_to(&self, pos: Vec2) -> (dists: Vec<u32>)
        ensures
            dists@ == distances(self@, pos),
    {
        let n: usize = self.nodes.len();
        let mut dists: Vec<u32> = Vec::with_capacity(n);
        let mut i: usize = 0;
        while i < n
            invariant
                n == self@.len(),
                i <= n,
                dists@ == distances(self@, pos).subrange(0, i as int),
            decreases n - i,
        {
            dists.push(distance_squared_bits(self.nodes[i].pos, pos));
            proof {
                assert(dists@ =~= distances(self@, pos).subrange(0, i + 1));
            }
            i += 1;
        }
        proof {
            assert(dists@ =~= distances(self@, pos));
        }
        dists
    }

    /// The node nearest to `pos` with its squared distance; of several equally
    /// near, the one with the lowest index. Nothing only when the tree has no
    /// node. A distance that is a NaN counts as farther than every number.
    pub fn find_nearest_node(&self, pos: Vec2) -> (r: Option<(NodeId, u32)>)
        ensures
            r is None <==> self@.len() == 0,
            r matches Some(entry) ==> is_nearest(distances(self@, pos), entry),
    {
        let dists = self.distances_to(pos);
        nearest_in(&dists)
    }

    /// The node at rank `k` by distance from `pos` (0 is nearest) with its
    /// squared distance, the distances taken in the total order of binary32.
    /// A rank beyond the last reads the last, the farthest node. Nothing only
    /// when the tree has no node.
    ///
    /// A distance that is a NaN, as that to a node or from a position with a
    /// component that is not finite can be, takes one of the last ranks,
    /// behind every number and behind infinity: it is held as the canonical
    /// NaN, whatever NaN the arithmetic yielded.
    pub fn find_kth_nearest_nodes(&self, pos: Vec2, k: usize) -> (r: Option<(NodeId, u32)>)
        ensures
            r is None <==> self@.len() == 0,
            r == kth_nearest(distances(self@, pos), k),
            r matches Some(entry) ==> has_rank(
                distances(self@, pos),
                clamped_rank(self@.len(), k),
                entry,
            ),
    {
        let dists = self.distances_to(pos);
        kth_nearest_in(&dists, k)
    }
}

/// A query for a rank at or beyond the number of nodes reads the same entry
/// as a query for the last rank: the farthest node.
pub proof fn lemma_rank_beyond_last_is_last(nodes: Seq<NodeView>, pos: Vec2, k: usize)
    requires
        0 < nodes.len() <= usize::MAX,
        k >= nodes.len(),
    ensures
        kth_nearest(distances(nodes, pos), k) == kth_nearest(
            distances(nodes, pos),
            (nodes.len() - 1) as usize,
        ),
        kth_nearest(distances(nodes, pos), k) is Some,
{
}

/// A root alone is linked.
proof fn lemma_root_alone_linked(pos: Vec2, radius: u32)
    ensures
        linked(seq![root_node(pos, radius)]),
{
    let nodes = seq![root_node(pos, radius)];
    assert forall|c: int| 0 <= c < nodes.len() implies #[trigger] node_linked(nodes, c) by {
        assert(nodes[c] == root_node(pos, radius));
    }
}

/// One more parentless node does not disturb the links.
proof fn lemma_free_node_keeps_links(nodes: Seq<NodeView>, pos: Vec2, radius: u32)
    requires
        linked(nodes),
    ensures
        linked(with_free_node(nodes, pos, radius)),
{
    let after = with_free_node(nodes, pos, radius);
    assert forall|c: int| 0 <= c < after.len() implies #[trigger] node_linked(after, c) by {
        if c < nodes.len() {
            assert(node_linked(nodes, c));
            assert(after[c] == nodes[c]);
            if let Some(p) = nodes[c].parent {
                assert(after[p as int] == nodes[p as int]);
            }
            assert forall|j: int| 0 <= j < after[c].children.len() implies {
                let child = #[trigger] after[c].children[j];
                child < after.len() && after[child as int].parent == Some(c as usize)
            } by {
                let child = nodes[c].children[j];
                assert(after[child as int] == nodes[child as int]);
            }
        }
    }
}

/// One more node under a parent that exists, entered last in the parent's
/// child list, does not disturb the links.
proof fn lemma_child_keeps_links(nodes: Seq<NodeView>, parent: NodeId, pos: Vec2, radius: u32)
    requires
        linked(nodes),
        parent < nodes.len() <= usize::MAX,
    ensures
        linked(with_child(nodes, parent, pos, radius)),
{
    let after = with_child(nodes, parent, pos, radius);
    let id = nodes.len() as usize;
    let old_children = nodes[parent as int].children;
    assert(node_linked(nodes, parent as int));
    assert(after[parent as int].children == old_children.push(id));
    assert(after[id as int] == child_node(pos, radius, parent));
    assert forall|c: int| 0 <= c < after.len() implies #[trigger] node_linked(after, c) by {
        if c < nodes.len() {
            assert(node_linked(nodes, c));
            assert(after[c].parent == nodes[c].parent);
            if let Some(p) = nodes[c].parent {
                let listed = nodes[p as int].children;
                let j = choose|j: int| 0 <= j < listed.len() && listed[j] == c as usize;
                if p == parent {
                    assert(after[p as int].children[j] == c as usize);
                } else {
                    assert(after[p as int] == nodes[p as int]);
                }
            }
            assert forall|j: int| 0 <= j < after[c].children.len() implies {
                let child = #[trigger] after[c].children[j];
                child < after.len() && after[child as int].parent == Some(c as usize)
            } by {
                if c == parent && j == old_children.len() {
                } else {
                    let child = nodes[c].children[j];
                    assert(after[c].children[j] == child);
                    assert(after[child as int].parent == nodes[child as int].parent);
                }
            }
            if c == parent {
                let listed = after[c].children;
                assert forall|i: int, j: int|
                    0 <= i < listed.len() && 0 <= j < listed.len() && i != j implies listed[i]
                    != listed[j] by {
                    if i < old_children.len() {
                        assert(old_children[i] < nodes.len());
                    }
                    if j < old_children.len() {
                        assert(old_children[j] < nodes.len());
                    }
                }
            } else {
                assert(after[c].children == nodes[c].children);
            }
        } else {
            assert(after[parent as int].children[old_children.len() as int] == id);
        }
    }
}

} // verus!
