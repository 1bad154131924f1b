//! The enumeration surface an external renderer consumes: node ids,
//! edges, labels and shapes, for the full graph and for a spanning tree,
//! independent of either one's internal storage.

use vstd::prelude::*;

verus! {

use crate::tree::SpanningTree;
use crate::{FactorGraph, FactorGraphItem};

/// The shape a node renders as: circles for variables, boxes for factors.
#[derive(Debug, PartialEq, Eq, Structural)]
pub enum NodeShape {
    /// A variable node.
    Circle,
    /// A factor node.
    Box,
}

impl<T, P> FactorGraph<T, P> {
    /// The display label of the node with id `id`: a variable's name, or
    /// a factor's label synthesized from its scope. `None` exactly when
    /// no node has that id.
    pub fn label(&self, id: u32) -> (r: Option<String>)
        ensures
            match r {
                Some(s) => self.valid_id(id as int) && s@ == self.item_at(id as int).spec_name(),
                None => !self.valid_id(id as int),
            },
    {
        match self.item_by_id(id) {
            Some(item) => Some(item.get_name()),
            None => None,
        }
    }

    /// The shape of the node with id `id`. `None` exactly when no node
    /// has that id.
    pub fn shape(&self, id: u32) -> (r: Option<NodeShape>)
        ensures
            match r {
                Some(s) => self.valid_id(id as int) && (s == NodeShape::Box <==> self.item_at(
                    id as int,
                ) is Factor),
                None => !self.valid_id(id as int),
            },
    {
        match self.item_by_id(id) {
            Some(item) => {
                if item.is_factor() {
                    Some(NodeShape::Box)
                } else {
                    Some(NodeShape::Circle)
                }
            },
            None => None,
        }
    }

    /// The edges of the bipartite graph, as (variable id, factor id)
    /// pairs: exactly the incidence relation, each edge once, grouped by
    /// variable in id order.
    pub fn edges(&self) -> (r: Vec<(u32, u32)>)
        requires
            self.wf(),
        ensures
            forall|e: (u32, u32)| #[trigger]
                r@.contains(e) <==> (self.is_variable_id(e.0 as int) && self.incident(
                    e.0 as int,
                ).contains(e.1)),
            forall|t1: int, t2: int| 0 <= t1 < t2 < r@.len() ==> r@[t1] != r@[t2],
            forall|t1: int, t2: int|
                #![trigger r@[t1].0, r@[t2].0]
                0 <= t1 < t2 < r@.len() ==> r@[t1].0 <= r@[t2].0,
    {
        let mut r: Vec<(u32, u32)> = Vec::new();
        let mut j: usize = 0;
        while j < self.items.len()
            invariant
                self.wf(),
                j <= self.n(),
                forall|e: (u32, u32)| #[trigger]
                    r@.contains(e) <==> (e.0 < j && self.is_variable_id(e.0 as int)
                        && self.incident(e.0 as int).contains(e.1)),
                forall|t1: int, t2: int| 0 <= t1 < t2 < r@.len() ==> r@[t1] != r@[t2],
                forall|t: int| #![trigger r@[t].0] 0 <= t < r@.len() ==> r@[t].0 < j,
                forall|t1: int, t2: int|
                    #![trigger r@[t1].0, r@[t2].0]
                    0 <= t1 < t2 < r@.len() ==> r@[t1].0 <= r@[t2].0,
            decreases self.n() - j,
        {
            match &self.items[j] {
                FactorGraphItem::Variable(v) => {
                    let mut k: usize = 0;
                    while k < v.factor_ids.len()
                        invariant
                            self.wf(),
                            j < self.n(),
                            self.is_variable_id(j as int),
                            v.factor_ids@ == self.incident(j as int),
                            k <= v.factor_ids@.len(),
                            forall|e: (u32, u32)| #[trigger]
                                r@.contains(e) <==> ((e.0 < j && self.is_variable_id(e.0 as int)
                                    && self.incident(e.0 as int).contains(e.1)) || (e.0 == j &&exists|s: int|
                                    0 <= s < k && self.incident(j as int)[s] == e.1)),
                            forall|t1: int, t2: int| 0 <= t1 < t2 < r@.len() ==> r@[t1] != r@[t2],
                            forall|t: int| #![trigger r@[t].0] 0 <= t < r@.len() ==> r@[t].0 <= j,
                            forall|t1: int, t2: int|
                                #![trigger r@[t1].0, r@[t2].0]
                                0 <= t1 < t2 < r@.len() ==> r@[t1].0 <= r@[t2].0,
                        decreases v.factor_ids@.len() - k,
                    {
                        let ghost r0 = r@;
                        r.push((j as u32, v.factor_ids[k]));
                        proof {
                            let e_new = (j as u32, v.factor_ids@[k as int]);
                            assert(r@ == r0.push(e_new));
                            assert forall|e: (u32, u32)| #[trigger] r@.contains(e) implies ((e.0 < j
                                && self.is_variable_id(e.0 as int) && self.incident(
                                e.0 as int,
                            ).contains(e.1)) || (e.0 == j && exists|s: int|
                                0 <= s < k + 1 && self.incident(j as int)[s] == e.1)) by {
                                let t = choose|t: int| 0 <= t < r@.len() && r@[t] == e;
                                if t < r0.len() {
                                    assert(r0.contains(e));
                                } else {
                                    assert(e == e_new);
                                    assert(self.incident(j as int)[k as int] == e.1);
                                }
                            }
                            assert forall|e: (u32, u32)| ((e.0 < j && self.is_variable_id(
                                e.0 as int,
                            ) && self.incident(e.0 as int).contains(e.1)) || (e.0 == j && exists|s: int|
                                0 <= s < k + 1 && self.incident(j as int)[s] == e.1)) implies
                                #[trigger] r@.contains(e) by {
                                if e.0 < j || (e.0 == j && exists|s: int|
                                    0 <= s < k && self.incident(j as int)[s] == e.1) {
                                    assert(r0.contains(e));
                                    let t = choose|t: int| 0 <= t < r0.len() && r0[t] == e;
                                    assert(r@[t] == e);
                                } else {
                                    let s = choose|s: int|
                                        0 <= s < k + 1 && self.incident(j as int)[s] == e.1;
                                    assert(s == k);
                                    assert(e == e_new);
                                    assert(r@[r@.len() - 1] == e);
                                }
                            }
                            assert forall|t1: int, t2: int|
                                0 <= t1 < t2 < r@.len() implies r@[t1] != r@[t2] by {
                                if t2 == r@.len() - 1 {
                                    assert(r0.contains(r0[t1]));
                                    if r0[t1] == e_new {
                                        assert(exists|s: int|
                                            0 <= s < k && self.incident(j as int)[s] == e_new.1);
                                        let s = choose|s: int|
                                            0 <= s < k && self.incident(j as int)[s] == e_new.1;
                                        assert(self.variable_ok(j as int));
                                        assert(self.incident(j as int)[s] != self.incident(
                                            j as int,
                                        )[k as int]);
                                    }
                                }
                            }
                        }
                        k = k + 1;
                    }
                },
                FactorGraphItem::Factor(_) => {},
            }
            proof {
                assert forall|e: (u32, u32)| #[trigger] r@.contains(e) implies (e.0 < j + 1
                    && self.is_variable_id(e.0 as int) && self.incident(e.0 as int).contains(
                    e.1,
                )) by {
                    if self.is_variable_id(j as int) && e.0 == j {
                        let s = choose|s: int|
                            0 <= s < self.incident(j as int).len() && self.incident(j as int)[s]
                                == e.1;
                        assert(self.incident(j as int).contains(e.1));
                    }
                }
            }
            j = j + 1;
        }
        r
    }
}

impl SpanningTree {
    /// The graph ids of the tree's nodes, in discovery order.
    pub fn node_ids(&self) -> (r: Vec<u32>)
        ensures
            r@.len() == self.nodes().len(),
            forall|k: int| 0 <= k < r@.len() ==> r@[k] == self.nodes()[k].data,
    {
        let mut r: Vec<u32> = Vec::new();
        let mut k: usize = 0;
        while k < self.all_nodes.len()
            invariant
                k <= self.nodes().len(),
                r@.len() == k,
                forall|t: int| 0 <= t < k ==> r@[t] == self.nodes()[t].data,
            decreases self.nodes().len() - k,
        {
            r.push(self.all_nodes[k].data);
            k = k + 1;
        }
        r
    }

    /// The tree's edges as (parent id, child id) pairs, one per non-root
    /// node, in discovery order of the child.
    pub fn edges(&self) -> (r: Vec<(u32, u32)>)
        requires
            self.wf(),
        ensures
            r@.len() == self.nodes().len() - 1,
            forall|t: int|
                0 <= t < r@.len() ==> #[trigger] r@[t] == (
                    self.nodes()[self.parent_index(t + 1)].data,
                    self.nodes()[t + 1].data,
                ),
    {
        let mut r: Vec<(u32, u32)> = Vec::new();
        let mut k: usize = 1;
        while k < self.all_nodes.len()
            invariant
                self.wf(),
                1 <= k <= self.nodes().len(),
                r@.len() == k - 1,
                forall|t: int|
                    0 <= t < r@.len() ==> #[trigger] r@[t] == (
                        self.nodes()[self.parent_index(t + 1)].data,
                        self.nodes()[t + 1].data,
                    ),
            decreases self.nodes().len() - k,
        {
            let parent = match self.all_nodes[k].parent {
                Some(p) => p,
                None => vstd::pervasive::unreached(),
            };
            let pair = (self.all_nodes[parent].data, self.all_nodes[k].data);
            r.push(pair);
            k = k + 1;
        }
        r
    }

    /// The display label of the tree node for graph id `id`: the name it
    /// was discovered under. `None` exactly when the tree has no node for
    /// that id.
    pub fn label(&self, id: u32) -> (r: Option<String>)
        ensures
            match r {
                Some(s) => self.contains_data(id) && exists|k: int|
                    0 <= k < self.nodes().len() && self.nodes()[k].data == id
                        && s@ == #[trigger] self.nodes()[k].name@,
                None => !self.contains_data(id),
            },
    {
        let mut k: usize = 0;
        while k < self.all_nodes.len()
            invariant
                k <= self.nodes().len(),
                forall|t: int| 0 <= t < k ==> self.nodes()[t].data != id,
            decreases self.nodes().len() - k,
        {
            if self.all_nodes[k].data == id {
                return Some(self.all_nodes[k].get_name());
            }
            k = k + 1;
        }
        None
    }
}

} // verus!
