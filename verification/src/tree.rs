//! Spanning trees over a factor graph: nodes created in breadth-first
//! discovery order, each holding the graph id it represents and
//! parent/child links by index.

use vstd::prelude::*;

verus! {

/// A node in a spanning tree.
///
/// `data` is the id of the graph node this tree node represents; `index`
/// is its own position in the tree's node vector. The root is the only
/// node without a parent.
#[derive(Debug)]
pub struct TreeNode {
    /// Graph id this tree node represents.
    pub data: u32,
    /// Display name of the represented graph node.
    pub name: String,
    /// Index of this node's parent within the tree, absent for the root.
    pub parent: Option<usize>,
    /// Index of this node within the tree.
    pub index: usize,
    /// Children of this node in the tree, in discovery order.
    pub children: Vec<usize>,
}

/// A spanning tree over an underlying factor graph.
///
/// `all_nodes` lists every node in the order it was first discovered;
/// the root sits at index 0.
#[derive(Debug)]
pub struct SpanningTree {
    /// Index of the root node, always 0.
    pub root: usize,
    /// Vector storing all nodes in the tree.
    pub all_nodes: Vec<TreeNode>,
    /// Current index into the vector of all nodes.
    pub cur_index: usize,
}

impl TreeNode {
    /// Make a new tree node.
    pub fn new(index: usize, data: u32, name: &str, parent: usize) -> (node: TreeNode)
        ensures
            node.index == index,
            node.data == data,
            node.name@ == name@,
            node.parent == Some(parent),
            node.children@ == Seq::<usize>::empty(),
    {
        TreeNode {
            index,
            data,
            name: name.to_owned(),
            parent: Some(parent),
            children: Vec::new(),
        }
    }

    /// Make a new root node, which doesn't have a parent.
    pub fn new_root(index: usize, data: u32, name: &str) -> (node: TreeNode)
        ensures
            node.index == index,
            node.data == data,
            node.name@ == name@,
            node.parent is None,
            node.children@ == Seq::<usize>::empty(),
    {
        TreeNode {
            index,
            data,
            name: name.to_owned(),
            parent: None,
            children: Vec::new(),
        }
    }

    /// Get this node's name.
    pub fn get_name(&self) -> (r: String)
        ensures
            r@ == self.name@,
    {
        self.name.clone()
    }

    /// Add a child to this tree node.
    pub fn add_child(&mut self, node: usize)
        ensures
            final(self).data == old(self).data,
            final(self).name == old(self).name,
            final(self).parent == old(self).parent,
            final(self).index == old(self).index,
            final(self).children@ == old(self).children@.push(node),
    {
        self.children.push(node);
    }
}

impl SpanningTree {
    /// The nodes of the tree, in discovery order.
    pub open spec fn nodes(&self) -> Seq<TreeNode> {
        self.all_nodes@
    }

    /// The parent index recorded at node `k`.
    pub open spec fn parent_index(&self, k: int) -> int
        recommends
            0 <= k < self.nodes().len(),
            self.nodes()[k].parent is Some,
    {
        self.nodes()[k].parent->0 as int
    }

    /// Structural well-formedness: one root at index 0, every other node
    /// with a parent of strictly smaller index, and parent/child links
    /// that agree in both directions.
    pub open spec fn wf(&self) -> bool {
        &&& self.root == 0
        &&& self.cur_index == self.nodes().len()
        &&& self.nodes().len() >= 1
        &&& forall|k: int| 0 <= k < self.nodes().len() ==> (#[trigger] self.nodes()[k].index) == k
        &&& self.nodes()[0].parent is None
        &&& forall|k: int|
            1 <= k < self.nodes().len() ==> (#[trigger] self.nodes()[k].parent) is Some && 0
                <= self.parent_index(k) < k
        &&& forall|k: int, t: int|
            #![trigger self.nodes()[k].children@[t]]
            0 <= k < self.nodes().len() && 0 <= t < self.nodes()[k].children@.len() ==> k < (
            self.nodes()[k].children@[t] as int) < self.nodes().len() && self.parent_index(
                self.nodes()[k].children@[t] as int,
            ) == k && self.nodes()[self.nodes()[k].children@[t] as int].parent is Some
        &&& forall|k: int, t1: int, t2: int|
            #![trigger self.nodes()[k].children@[t1], self.nodes()[k].children@[t2]]
            0 <= k < self.nodes().len() && 0 <= t1 < t2 < self.nodes()[k].children@.len()
                ==> self.nodes()[k].children@[t1] < self.nodes()[k].children@[t2]
        &&& forall|c: int|
            1 <= c < self.nodes().len() ==> self.nodes()[#[trigger] self.parent_index(
                c,
            )].children@.contains(c as usize)
    }

    /// Whether the tree holds a node for graph id `id`.
    pub open spec fn contains_data(&self, id: u32) -> bool {
        exists|k: int| 0 <= k < self.nodes().len() && self.nodes()[k].data == id
    }

    /// The index of the node for graph id `id`.
    pub open spec fn index_of_data(&self, id: u32) -> int {
        choose|k: int| 0 <= k < self.nodes().len() && self.nodes()[k].data == id
    }

    /// No two tree nodes represent the same graph id.
    pub open spec fn distinct_data(&self) -> bool {
        forall|k1: int, k2: int|
            #![trigger self.nodes()[k1].data, self.nodes()[k2].data]
            0 <= k1 < k2 < self.nodes().len() ==> self.nodes()[k1].data != self.nodes()[k2].data
    }

    /// The depth of the node representing graph id `x`.
    #[verifier::opaque]
    pub open spec fn data_depth(&self, x: u32) -> nat {
        self.depth(self.index_of_data(x))
    }

    /// With distinct data, looking a node's own id up finds that node.
    pub proof fn lemma_index_of_data_unique(&self, k: int)
        requires
            self.distinct_data(),
            0 <= k < self.nodes().len(),
        ensures
            self.index_of_data(self.nodes()[k].data) == k,
    {
        let x = self.nodes()[k].data;
        assert(0 <= k < self.nodes().len() && self.nodes()[k].data == x);
        let k2 = self.index_of_data(x);
        assert(0 <= k2 < self.nodes().len() && self.nodes()[k2].data == x);
    }

    /// Appending a node with a fresh id moves no existing node and
    /// changes no existing depth.
    pub proof fn lemma_data_depth_preserved(o: Self, g: Self, x: u32)
        requires
            o.distinct_data(),
            g.distinct_data(),
            o.contains_data(x),
            g.nodes().len() == o.nodes().len() + 1,
            forall|k: int| 0 <= k < o.nodes().len() ==> (#[trigger] g.nodes()[k].data) == o.nodes()[k].data,
            forall|k: int| 0 <= k < o.nodes().len() ==> (#[trigger] g.depth(k)) == o.depth(k),
        ensures
            g.contains_data(x),
            g.index_of_data(x) == o.index_of_data(x),
            g.data_depth(x) == o.data_depth(x),
    {
        reveal(SpanningTree::data_depth);
        let k = o.index_of_data(x);
        assert(0 <= k < o.nodes().len() && o.nodes()[k].data == x);
        assert(g.nodes()[k].data == x);
        g.lemma_index_of_data_unique(k);
    }

    /// The depth of node `k`: the number of parent links between it and
    /// the root.
    pub open spec fn depth(&self, k: int) -> nat
        decreases k,
    {
        if 0 < k < self.nodes().len() && self.nodes()[k].parent is Some && 0 <= self.parent_index(
            k,
        ) < k {
            1 + self.depth(self.parent_index(k))
        } else {
            0
        }
    }

    /// Whether node `a` lies on the parent chain of node `d`.
    pub open spec fn is_ancestor(&self, a: int, d: int) -> bool
        decreases d,
    {
        if 0 < d < self.nodes().len() && self.nodes()[d].parent is Some && 0 <= self.parent_index(
            d,
        ) < d {
            self.parent_index(d) == a || self.is_ancestor(a, self.parent_index(d))
        } else {
            false
        }
    }

    /// An ancestor always has a strictly smaller index than its
    /// descendant: parent links only point backwards in discovery order.
    pub proof fn lemma_ancestor_smaller(&self, a: int, d: int)
        requires
            self.is_ancestor(a, d),
        ensures
            a < d,
        decreases d,
    {
        if 0 < d < self.nodes().len() && self.nodes()[d].parent is Some && 0 <= self.parent_index(
            d,
        ) < d {
            if self.parent_index(d) != a {
                self.lemma_ancestor_smaller(a, self.parent_index(d));
            }
        }
    }

    /// The parent/child relation is acyclic: no node lies on its own
    /// parent chain, so no graph id ever appears as its own ancestor.
    pub proof fn lemma_no_self_ancestor(&self, k: int)
        ensures
            !self.is_ancestor(k, k),
    {
        if self.is_ancestor(k, k) {
            self.lemma_ancestor_smaller(k, k);
        }
    }

    /// Make a new spanning tree holding only its root.
    pub fn new(root: u32, name: &str, num_nodes: usize) -> (tree: SpanningTree)
        ensures
            tree.wf(),
            tree.nodes().len() == 1,
            tree.nodes()[0].data == root,
            tree.nodes()[0].name@ == name@,
            tree.nodes()[0].children@ == Seq::<usize>::empty(),
    {
        let mut node_vec: Vec<TreeNode> = Vec::with_capacity(num_nodes);
        node_vec.push(TreeNode::new_root(0, root, name));
        SpanningTree { root: 0, all_nodes: node_vec, cur_index: 1 }
    }

    /// Get the index of the first tree node for the input graph id.
    fn get_node_for_data(&self, id: u32) -> (r: Option<usize>)
        ensures
            match r {
                Some(k) => {
                    &&& 0 <= k < self.nodes().len()
                    &&& self.nodes()[k as int].data == id
                    &&& forall|k2: int| 0 <= k2 < k ==> self.nodes()[k2].data != id
                },
                None => !self.contains_data(id),
            },
    {
        let mut i: usize = 0;
        while i < self.all_nodes.len()
            invariant
                i <= self.nodes().len(),
                forall|k2: int| 0 <= k2 < i ==> self.nodes()[k2].data != id,
            decreases self.nodes().len() - i,
        {
            if self.all_nodes[i].data == id {
                return Some(i);
            }
            i = i + 1;
        }
        None
    }

    /// Growing a tree (appending nodes and children) never changes the
    /// depth of an existing node: depth only reads parent links at or
    /// below the node's own index.
    pub proof fn lemma_depth_frame(o: SpanningTree, g: SpanningTree, k: int)
        requires
            0 <= k < o.nodes().len(),
            o.nodes().len() <= g.nodes().len(),
            forall|i: int|
                0 <= i < o.nodes().len() ==> (#[trigger] g.nodes()[i].parent) == o.nodes()[i].parent,
        ensures
            g.depth(k) == o.depth(k),
        decreases k,
    {
        if 0 < k && o.nodes()[k].parent is Some && 0 <= o.parent_index(k) < k {
            Self::lemma_depth_frame(o, g, o.parent_index(k));
        }
    }

    /// How adding a child for graph id `b` under the node for graph id
    /// `u` grows a tree from `o` to `g`: one node is appended, hanging
    /// one level below the first node whose data is `u`, and every
    /// existing node keeps its place, its fields and its depth.
    pub open spec fn child_extended(o: Self, g: Self, u: u32, b: u32, bname: Seq<char>) -> bool {
        let new_k = o.nodes().len() as int;
        let p = g.parent_index(new_k);
        &&& g.nodes().len() == o.nodes().len() + 1
        &&& g.nodes()[new_k].data == b
        &&& g.nodes()[new_k].name@ == bname
        &&& g.nodes()[new_k].children@ == Seq::<usize>::empty()
        &&& g.nodes()[new_k].parent is Some
        &&& 0 <= p < new_k
        &&& o.nodes()[p].data == u
        &&& forall|q: int| 0 <= q < p ==> o.nodes()[q].data != u
        &&& g.nodes()[p].data == o.nodes()[p].data
        &&& g.nodes()[p].name == o.nodes()[p].name
        &&& g.nodes()[p].parent == o.nodes()[p].parent
        &&& g.nodes()[p].index == o.nodes()[p].index
        &&& g.nodes()[p].children@ == o.nodes()[p].children@.push(new_k as usize)
        &&& forall|k: int|
            0 <= k < new_k && k != p ==> (#[trigger] g.nodes()[k]) == o.nodes()[k]
        &&& g.depth(new_k) == o.depth(p) + 1
        &&& forall|k: int|
            0 <= k < o.nodes().len() ==> (#[trigger] g.depth(k)) == o.depth(k)
    }

    /// Add a child to the specified node within the tree.
    ///
    /// The child is appended as a new node whose parent is the first
    /// tree node representing graph id `parent`; every existing node
    /// keeps its place and its depth.
    pub fn add_child(&mut self, parent: u32, child_data: u32, name: &str)
        requires
            old(self).wf(),
            old(self).contains_data(parent),
        ensures
            final(self).wf(),
            Self::child_extended(*old(self), *final(self), parent, child_data, name@),
            forall|x: u32|
                final(self).contains_data(x) <==> (old(self).contains_data(x) || x == child_data),
    {
        let parent_node = match self.get_node_for_data(parent) {
            Some(x) => x,
            None => vstd::pervasive::unreached(),
        };
        let idx = self.cur_index;
        let child_node = TreeNode::new(idx, child_data, name, parent_node);
        let ghost o = *self;
        self.all_nodes.push(child_node);
        let pnode = &mut self.all_nodes[parent_node];
        pnode.add_child(idx);
        self.cur_index = self.all_nodes.len();
        proof {
            let g = *self;
            let new_k = o.nodes().len() as int;
            let p = parent_node as int;
            assert(g.nodes() == o.nodes().push(child_node).update(p, g.nodes()[p]));
            assert(g.nodes()[new_k] == child_node);
            assert(g.parent_index(new_k) == p);
            // Well-formedness of the grown tree.
            assert forall|k: int| 0 <= k < g.nodes().len() implies (#[trigger] g.nodes()[k].index)
                == k by {
                if k < new_k && k != p {
                    assert(g.nodes()[k] == o.nodes()[k]);
                }
            }
            assert forall|k: int| 1 <= k < g.nodes().len() implies (#[trigger] g.nodes()[k].parent)
                is Some && 0 <= g.parent_index(k) < k by {
                if k < new_k {
                    assert(g.nodes()[k].parent == o.nodes()[k].parent);
                }
            }
            assert forall|k: int, t: int|
                #![trigger g.nodes()[k].children@[t]]
                0 <= k < g.nodes().len() && 0 <= t < g.nodes()[k].children@.len() implies k < (
            g.nodes()[k].children@[t] as int) < g.nodes().len() && g.parent_index(
                g.nodes()[k].children@[t] as int,
            ) == k && g.nodes()[g.nodes()[k].children@[t] as int].parent is Some by {
                if k == p && t == g.nodes()[p].children@.len() - 1 {
                    assert(g.nodes()[k].children@[t] == idx);
                } else if k == p {
                    assert(g.nodes()[k].children@[t] == o.nodes()[k].children@[t]);
                    let c = o.nodes()[k].children@[t] as int;
                    assert(c < new_k);
                    assert(g.nodes()[c].parent == o.nodes()[c].parent);
                } else if k < new_k {
                    assert(g.nodes()[k] == o.nodes()[k]);
                    let c = o.nodes()[k].children@[t] as int;
                    assert(c < new_k);
                    assert(g.nodes()[c].parent == o.nodes()[c].parent);
                }
            }
            assert forall|k: int, t1: int, t2: int|
                #![trigger g.nodes()[k].children@[t1], g.nodes()[k].children@[t2]]
                0 <= k < g.nodes().len() && 0 <= t1 < t2 < g.nodes()[k].children@.len() implies
            g.nodes()[k].children@[t1] < g.nodes()[k].children@[t2] by {
                if k == p {
                    if t2 == g.nodes()[p].children@.len() - 1 {
                        assert(g.nodes()[k].children@[t1] == o.nodes()[k].children@[t1]);
                        assert((o.nodes()[k].children@[t1] as int) < new_k);
                        assert(g.nodes()[k].children@[t2] == idx);
                    }
                } else if k < new_k {
                    assert(g.nodes()[k] == o.nodes()[k]);
                }
            }
            assert forall|c: int| 1 <= c < g.nodes().len() implies g.nodes()[
                #[trigger] g.parent_index(c)].children@.contains(c as usize) by {
                if c == new_k {
                    assert(g.nodes()[p].children@.last() == idx);
                    assert(g.nodes()[p].children@.contains(idx));
                } else {
                    assert(g.nodes()[c].parent == o.nodes()[c].parent);
                    let pc = o.parent_index(c);
                    assert(o.nodes()[pc].children@.contains(c as usize));
                    let t = choose|t: int|
                        0 <= t < o.nodes()[pc].children@.len() && o.nodes()[pc].children@[t] == (
                        c as usize);
                    if pc == p {
                        assert(g.nodes()[pc].children@[t] == (c as usize));
                    } else {
                        assert(g.nodes()[pc] == o.nodes()[pc]);
                    }
                    assert(g.nodes()[pc].children@.contains(c as usize));
                }
            }
            assert(g.wf());
            // Depths of existing nodes are unchanged; the child hangs one
            // level below its parent.
            assert forall|i: int| 0 <= i < o.nodes().len() implies (#[trigger] g.nodes()[i].parent)
                == o.nodes()[i].parent by {
                if i != p {
                    assert(g.nodes()[i] == o.nodes()[i]);
                }
            }
            assert forall|k: int| 0 <= k < o.nodes().len() implies (#[trigger] g.depth(k))
                == o.depth(k) by {
                Self::lemma_depth_frame(o, g, k);
            }
            assert(g.depth(new_k) == 1 + g.depth(p));
            // Membership of graph ids changes only by the new child.
            assert forall|x: u32| g.contains_data(x) implies (o.contains_data(x) || x
                == child_data) by {
                let k = choose|k: int| 0 <= k < g.nodes().len() && g.nodes()[k].data == x;
                if k < new_k {
                    assert(g.nodes()[k].data == o.nodes()[k].data);
                }
            }
            assert forall|x: u32| o.contains_data(x) || x == child_data implies g.contains_data(
                x,
            ) by {
                if o.contains_data(x) {
                    let k = choose|k: int| 0 <= k < o.nodes().len() && o.nodes()[k].data == x;
                    assert(g.nodes()[k].data == x);
                } else {
                    assert(g.nodes()[new_k].data == x);
                }
            }
            assert(Self::child_extended(o, g, parent, child_data, name@));
        }
    }

    /// Test whether the spanning tree already contains a node for the
    /// given graph id.
    pub fn has_node(&self, id: u32) -> (r: bool)
        ensures
            r == self.contains_data(id),
    {
        let mut i: usize = 0;
        while i < self.all_nodes.len()
            invariant
                i <= self.nodes().len(),
                forall|k2: int| 0 <= k2 < i ==> self.nodes()[k2].data != id,
            decreases self.nodes().len() - i,
        {
            if self.all_nodes[i].data == id {
                return true;
            }
            i = i + 1;
        }
        false
    }
}

} // verus!
