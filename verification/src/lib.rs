//! Probabilistic factor graphs: bipartite graphs of variable and factor
//! nodes, built incrementally, with breadth-first spanning-tree extraction
//! and a node/edge enumeration surface for external renderers.

pub mod factor;
pub mod render;
pub mod tree;
pub mod variable;

use vstd::prelude::*;

pub use factor::Factor;
pub use tree::{SpanningTree, TreeNode};
pub use variable::DiscreteVariable;

verus! {

use crate::factor::scope_label_of;

/// Errors reported by graph construction and traversal operations.
#[derive(Debug, PartialEq, Eq)]
pub enum GraphError {
    /// A variable with the given name is already registered.
    DuplicateName(String),
    /// A factor's scope references the given name, which is not a
    /// registered variable.
    UnknownVariable(String),
    /// A spanning-tree request named a root variable that is not present.
    UnknownRoot(String),
    /// A registry or incidence lookup failed despite earlier validation;
    /// the graph's internal invariants are broken.
    InternalInconsistency,
}

/// How many entries of `s` are still `false`: the number of ids a
/// traversal has yet to visit.
spec fn count_false(s: Seq<bool>) -> nat
    decreases s.len(),
{
    if s.len() == 0 {
        0
    } else {
        count_false(s.drop_last()) + (if s.last() {
            0nat
        } else {
            1nat
        })
    }
}

/// Marking one unvisited entry visited strictly shrinks the count of
/// unvisited entries.
proof fn lemma_count_false_update(s: Seq<bool>, i: int)
    requires
        0 <= i < s.len(),
        !s[i],
    ensures
        count_false(s.update(i, true)) < count_false(s),
    decreases s.len(),
{
    let t = s.update(i, true);
    if i == s.len() - 1 {
        assert(t.drop_last() =~= s.drop_last());
    } else {
        assert(t.drop_last() =~= s.drop_last().update(i, true));
        assert(t.last() == s.last());
        lemma_count_false_update(s.drop_last(), i);
    }
}

/// Whether `x` still waits in the unprocessed part of a traversal queue:
/// at or after position `head`.
spec fn in_pending(queue: Seq<u32>, head: int, x: u32) -> bool {
    exists|t: int| head <= t < queue.len() && queue[t] == x
}

/// The position of the first occurrence of `x` in `s` (the length of
/// `s` if `x` does not occur).
pub open spec fn first_index_of(s: Seq<u32>, x: u32) -> int
    decreases s.len(),
{
    if s.len() == 0 {
        0
    } else if s[0] == x {
        0
    } else {
        1 + first_index_of(s.drop_first(), x)
    }
}

/// When everything before position `n` differs from `x` and `s[n]` is
/// `x`, the first occurrence of `x` is exactly `n`.
proof fn lemma_first_index_of(s: Seq<u32>, x: u32, n: int)
    requires
        0 <= n < s.len(),
        s[n] == x,
        forall|i: int| 0 <= i < n ==> s[i] != x,
    ensures
        first_index_of(s, x) == n,
    decreases n,
{
    if n > 0 {
        assert(s[0] != x);
        let t = s.drop_first();
        assert(t[n - 1] == s[n]);
        assert forall|i: int| 0 <= i < n - 1 implies t[i] != x by {
            assert(t[i] == s[i + 1]);
        }
        lemma_first_index_of(t, x, n - 1);
    }
}

/// A node stored in the factor graph: either a variable or a factor.
///
/// The two kinds share one dense id space and are treated uniformly
/// during traversal and rendering.
pub enum FactorGraphItem<T, P> {
    /// A variable node.
    Variable(DiscreteVariable<T>),
    /// A factor node.
    Factor(Factor<P>),
}

impl<T, P> FactorGraphItem<T, P> {
    /// The registry id of this node.
    pub open spec fn spec_id(&self) -> u32 {
        match self {
            FactorGraphItem::Variable(v) => v.id,
            FactorGraphItem::Factor(f) => f.id,
        }
    }

    /// The display name of this node: a variable's own name, or a
    /// factor's label synthesized from its scope.
    pub open spec fn spec_name(&self) -> Seq<char> {
        match self {
            FactorGraphItem::Variable(v) => v.name@,
            FactorGraphItem::Factor(f) => scope_label_of(f.variables.deep_view()),
        }
    }

    /// Get this item's id.
    pub fn get_id(&self) -> (r: u32)
        ensures
            r == self.spec_id(),
    {
        match self {
            FactorGraphItem::Variable(v) => v.id,
            FactorGraphItem::Factor(f) => f.id,
        }
    }

    /// Get the name of this item.
    pub fn get_name(&self) -> (r: String)
        ensures
            r@ == self.spec_name(),
    {
        match self {
            FactorGraphItem::Variable(v) => v.name.clone(),
            FactorGraphItem::Factor(f) => f.label(),
        }
    }

    /// Return whether the item is a factor.
    pub fn is_factor(&self) -> (r: bool)
        ensures
            r == (*self is Factor),
    {
        match self {
            FactorGraphItem::Variable(_) => false,
            FactorGraphItem::Factor(_) => true,
        }
    }
}

/// The full factor graph: a registry of nodes indexed by their dense id.
///
/// `items[i]` is the node with id `i`; ids are assigned sequentially in
/// insertion order and never reused. The bipartite incidence structure is
/// kept on both sides: a variable records the ids of the factors over it,
/// and a factor records the names of the variables in its scope.
pub struct FactorGraph<T, P> {
    /// All nodes, indexed by id.
    pub items: Vec<FactorGraphItem<T, P>>,
}

impl<T, P> FactorGraph<T, P> {
    /// Number of nodes; also the next id to be assigned.
    pub open spec fn n(&self) -> int {
        self.items@.len() as int
    }

    /// Whether `i` is the id of a registered node.
    pub open spec fn valid_id(&self, i: int) -> bool {
        0 <= i < self.n()
    }

    /// The node with id `i`.
    pub open spec fn item_at(&self, i: int) -> FactorGraphItem<T, P> {
        self.items@[i]
    }

    /// Whether id `i` names a variable.
    pub open spec fn is_variable_id(&self, i: int) -> bool {
        self.valid_id(i) && self.item_at(i) is Variable
    }

    /// Whether id `i` names a factor.
    pub open spec fn is_factor_id(&self, i: int) -> bool {
        self.valid_id(i) && self.item_at(i) is Factor
    }

    /// The variable with id `i`.
    pub open spec fn var_at(&self, i: int) -> DiscreteVariable<T>
        recommends
            self.is_variable_id(i),
    {
        self.item_at(i)->Variable_0
    }

    /// The factor with id `i`.
    pub open spec fn factor_at(&self, i: int) -> Factor<P>
        recommends
            self.is_factor_id(i),
    {
        self.item_at(i)->Factor_0
    }

    /// The name of the variable with id `i`.
    pub open spec fn var_name(&self, i: int) -> Seq<char>
        recommends
            self.is_variable_id(i),
    {
        self.var_at(i).name@
    }

    /// The incident factor ids of the variable with id `i`.
    pub open spec fn incident(&self, i: int) -> Seq<u32>
        recommends
            self.is_variable_id(i),
    {
        self.var_at(i).factor_ids@
    }

    /// The scope of the factor with id `i`, as a sequence of names.
    pub open spec fn scope_names(&self, i: int) -> Seq<Seq<char>>
        recommends
            self.is_factor_id(i),
    {
        self.factor_at(i).variables.deep_view()
    }

    /// Whether some registered variable is named `name`.
    pub open spec fn has_var_named(&self, name: Seq<char>) -> bool {
        exists|j: int| self.is_variable_id(j) && self.var_name(j) == name
    }

    /// The id of the variable named `name` (unique in a well-formed graph).
    pub open spec fn var_id_named(&self, name: Seq<char>) -> int {
        choose|j: int| self.is_variable_id(j) && self.var_name(j) == name
    }

    /// The incidence entries of the variable with id `j` are distinct ids
    /// of registered factors.
    pub open spec fn variable_ok(&self, j: int) -> bool {
        &&& forall|k: int|
            0 <= k < self.incident(j).len() ==> self.is_factor_id(#[trigger] self.incident(j)[k] as int)
        &&& forall|k1: int, k2: int|
            #![trigger self.incident(j)[k1], self.incident(j)[k2]]
            0 <= k1 < k2 < self.incident(j).len() ==> self.incident(j)[k1] != self.incident(j)[k2]
    }

    /// The factor with id `i` has a non-empty scope whose names all
    /// resolve to registered variables.
    pub open spec fn factor_ok(&self, i: int) -> bool {
        &&& self.scope_names(i).len() >= 1
        &&& forall|k: int|
            0 <= k < self.scope_names(i).len() ==> self.has_var_named(#[trigger] self.scope_names(i)[k])
    }

    /// Well-formedness of the whole graph: dense ids, unique variable
    /// names, valid incidence lists, resolvable scopes, and agreement of
    /// the two sides of the bipartite incidence relation.
    pub open spec fn wf(&self) -> bool {
        &&& self.n() <= u32::MAX
        &&& forall|i: int| self.valid_id(i) ==> (#[trigger] self.item_at(i)).spec_id() == i as u32
        &&& forall|i: int, j: int|
            #![trigger self.var_name(i), self.var_name(j)]
            self.is_variable_id(i) && self.is_variable_id(j) && i != j ==> self.var_name(i)
                != self.var_name(j)
        &&& forall|j: int| #[trigger] self.is_variable_id(j) ==> self.variable_ok(j)
        &&& forall|i: int| #[trigger] self.is_factor_id(i) ==> self.factor_ok(i)
        &&& forall|i: int, j: int|
            #![trigger self.scope_names(i), self.incident(j)]
            self.is_factor_id(i) && self.is_variable_id(j) ==> (self.scope_names(i).contains(
                self.var_name(j),
            ) <==> self.incident(j).contains(i as u32))
    }

    /// Create an empty FactorGraph.
    pub fn new() -> (g: FactorGraph<T, P>)
        ensures
            g.wf(),
            g.n() == 0,
    {
        FactorGraph { items: Vec::new() }
    }

    /// Number of registered nodes; equally, the id the next insertion
    /// will receive.
    pub fn next_id(&self) -> (r: u32)
        requires
            self.wf(),
        ensures
            r == self.n(),
    {
        self.items.len() as u32
    }

    /// Find the id of the variable named `name` by scanning the registry.
    fn find_variable(&self, name: &String) -> (r: Option<usize>)
        ensures
            match r {
                Some(j) => self.is_variable_id(j as int) && self.var_name(j as int) == name@,
                None => !self.has_var_named(name@),
            },
    {
        let mut i: usize = 0;
        while i < self.items.len()
            invariant
                i <= self.items@.len(),
                forall|j: int| 0 <= j < i ==> !(self.is_variable_id(j) && self.var_name(j) == name@),
            decreases self.items@.len() - i,
        {
            match &self.items[i] {
                FactorGraphItem::Variable(v) => {
                    if v.name == *name {
                        return Some(i);
                    }
                },
                FactorGraphItem::Factor(_) => {},
            }
            i = i + 1;
        }
        None
    }

    /// Look a variable up by name.
    pub fn variable_by_name(&self, name: &str) -> (r: Option<&DiscreteVariable<T>>)
        requires
            self.wf(),
        ensures
            match r {
                Some(v) => {
                    &&& self.has_var_named(name@)
                    &&& self.is_variable_id(v.id as int)
                    &&& *v == self.var_at(v.id as int)
                    &&& v.name@ == name@
                },
                None => !self.has_var_named(name@),
            },
    {
        let owned = name.to_owned();
        match self.find_variable(&owned) {
            Some(j) => {
                match &self.items[j] {
                    FactorGraphItem::Variable(v) => Some(v),
                    FactorGraphItem::Factor(_) => vstd::pervasive::unreached(),
                }
            },
            None => None,
        }
    }

    /// Look a node up by id; `None` exactly when no node has that id.
    pub fn item_by_id(&self, id: u32) -> (r: Option<&FactorGraphItem<T, P>>)
        ensures
            match r {
                Some(item) => self.valid_id(id as int) && *item == self.item_at(id as int),
                None => !self.valid_id(id as int),
            },
    {
        if (id as usize) < self.items.len() {
            Some(&self.items[id as usize])
        } else {
            None
        }
    }

    /// Pushing a fresh variable onto a well-formed graph keeps it
    /// well-formed: the new name is unused, so uniqueness and the
    /// bipartite agreement are undisturbed.
    proof fn lemma_push_variable_wf(o: Self, g: Self, v: DiscreteVariable<T>)
        requires
            o.wf(),
            o.n() < u32::MAX,
            g.items@ == o.items@.push(FactorGraphItem::Variable(v)),
            v.id == o.n() as u32,
            v.factor_ids@ == Seq::<u32>::empty(),
            !o.has_var_named(v.name@),
        ensures
            g.wf(),
    {
        assert(g.n() == o.n() + 1);
        assert forall|i: int| o.valid_id(i) implies g.item_at(i) == o.item_at(i) by {
            assert(g.items@[i] == o.items@[i]);
        }
        assert(g.item_at(o.n()) == FactorGraphItem::<T, P>::Variable(v));
        // No existing variable carries the new name.
        assert forall|j: int| o.is_variable_id(j) implies o.var_name(j) != v.name@ by {
            if o.var_name(j) == v.name@ {
                assert(o.has_var_named(v.name@));
            }
        }
        // No existing factor's scope mentions the new name: each scope
        // name already resolved among the old variables.
        assert forall|i: int| o.is_factor_id(i) implies !o.scope_names(i).contains(v.name@) by {
            if o.scope_names(i).contains(v.name@) {
                let k = choose|k: int|
                    0 <= k < o.scope_names(i).len() && o.scope_names(i)[k] == v.name@;
                assert(o.factor_ok(i));
                assert(o.has_var_named(o.scope_names(i)[k]));
            }
        }
        assert forall|i: int| g.valid_id(i) implies (#[trigger] g.item_at(i)).spec_id()
            == i as u32 by {
            if i < o.n() {
                assert(o.item_at(i).spec_id() == i as u32);
            }
        }
        assert forall|i: int, j: int|
            #![trigger g.var_name(i), g.var_name(j)]
            g.is_variable_id(i) && g.is_variable_id(j) && i != j implies g.var_name(i)
            != g.var_name(j) by {
            if i < o.n() && j < o.n() {
                assert(o.is_variable_id(i) && o.is_variable_id(j));
                assert(o.var_name(i) != o.var_name(j));
            } else if i < o.n() {
                assert(o.is_variable_id(i));
                assert(g.var_name(j) == v.name@);
                assert(o.var_name(i) != v.name@);
            } else {
                assert(o.is_variable_id(j));
                assert(g.var_name(i) == v.name@);
                assert(o.var_name(j) != v.name@);
            }
        }
        assert forall|j: int| #[trigger] g.is_variable_id(j) implies g.variable_ok(j) by {
            if j < o.n() {
                assert(o.is_variable_id(j));
                assert(o.variable_ok(j));
                assert(g.incident(j) == o.incident(j));
                assert forall|k: int| 0 <= k < g.incident(j).len() implies g.is_factor_id(
                    #[trigger] g.incident(j)[k] as int,
                ) by {
                    assert(o.is_factor_id(o.incident(j)[k] as int));
                }
            } else {
                assert(g.incident(j).len() == 0);
            }
        }
        assert forall|i: int| #[trigger] g.is_factor_id(i) implies g.factor_ok(i) by {
            assert(i < o.n());
            assert(o.is_factor_id(i));
            assert(o.factor_ok(i));
            assert(g.scope_names(i) == o.scope_names(i));
            assert forall|k: int| 0 <= k < g.scope_names(i).len() implies g.has_var_named(
                #[trigger] g.scope_names(i)[k],
            ) by {
                assert(o.has_var_named(o.scope_names(i)[k]));
                let w = choose|w: int|
                    o.is_variable_id(w) && o.var_name(w) == o.scope_names(i)[k];
                assert(g.is_variable_id(w) && g.var_name(w) == g.scope_names(i)[k]);
            }
        }
        assert forall|i: int, j: int|
            #![trigger g.scope_names(i), g.incident(j)]
            g.is_factor_id(i) && g.is_variable_id(j) implies (g.scope_names(i).contains(
            g.var_name(j),
        ) <==> g.incident(j).contains(i as u32)) by {
            assert(i < o.n());
            if j < o.n() {
                assert(o.is_factor_id(i) && o.is_variable_id(j));
                assert(g.scope_names(i) == o.scope_names(i));
                assert(g.incident(j) == o.incident(j));
                assert(g.var_name(j) == o.var_name(j));
            } else {
                assert(g.var_name(j) == v.name@);
                assert(!o.scope_names(i).contains(v.name@));
                assert(g.incident(j).len() == 0);
            }
        }
    }

    /// Add a new variable with the specified name to the factor graph.
    ///
    /// On success the variable receives the next id. If a variable of
    /// that name is already registered, the insertion is rejected and the
    /// graph is left unchanged.
    pub fn add_discrete_var(&mut self, name: &str, val_names: Vec<T>) -> (r: Result<
        u32,
        GraphError,
    >)
        requires
            old(self).wf(),
            old(self).n() < u32::MAX,
            val_names@.len() <= u32::MAX,
        ensures
            final(self).wf(),
            match r {
                Ok(id) => {
                    &&& !old(self).has_var_named(name@)
                    &&& id as int == old(self).n()
                    &&& final(self).n() == old(self).n() + 1
                    &&& forall|i: int|
                        old(self).valid_id(i) ==> final(self).item_at(i) == old(self).item_at(i)
                    &&& final(self).is_variable_id(old(self).n())
                    &&& final(self).var_name(old(self).n()) == name@
                    &&& final(self).var_at(old(self).n()).val_names == val_names
                    &&& final(self).var_at(old(self).n()).domain@ == Seq::new(
                        val_names@.len(),
                        |k: int| k as u32,
                    )
                    &&& final(self).incident(old(self).n()) == Seq::<u32>::empty()
                },
                Err(e) => {
                    &&& old(self).has_var_named(name@)
                    &&& e matches GraphError::DuplicateName(w) && w@ == name@
                    &&& *final(self) == *old(self)
                },
            },
    {
        let owned = name.to_owned();
        match self.find_variable(&owned) {
            Some(_) => Err(GraphError::DuplicateName(owned)),
            None => {
                let id = self.items.len() as u32;
                let v = DiscreteVariable::new(id, name, val_names);
                let ghost o = *self;
                let ghost vg = v;
                self.items.push(FactorGraphItem::Variable(v));
                proof {
                    Self::lemma_push_variable_wf(o, *self, vg);
                }
                Ok(id)
            },
        }
    }

    /// The variable with id `i` is unchanged from `o` to `g` except that
    /// the factor id `id` has been appended to its incident list.
    pub open spec fn extends_incident(o: Self, g: Self, i: int, id: u32) -> bool {
        &&& g.item_at(i) is Variable
        &&& g.var_at(i).id == o.var_at(i).id
        &&& g.var_at(i).name == o.var_at(i).name
        &&& g.var_at(i).val_names == o.var_at(i).val_names
        &&& g.var_at(i).domain == o.var_at(i).domain
        &&& g.incident(i) == o.incident(i).push(id)
    }

    /// How committing the factor `id` with scope `names` changes the node
    /// with id `i`: a variable in the scope gains `id` at the end of its
    /// incident list, exactly once; every other node is untouched.
    pub open spec fn committed_item(o: Self, g: Self, i: int, names: Seq<Seq<char>>, id: u32) -> bool {
        if o.item_at(i) is Variable {
            if names.contains(o.var_name(i)) {
                Self::extends_incident(o, g, i, id) && !o.incident(i).contains(id)
            } else {
                g.item_at(i) == o.item_at(i)
            }
        } else {
            g.item_at(i) == o.item_at(i)
        }
    }

    /// Committing a fully validated factor keeps the graph well-formed:
    /// the fresh id cannot collide, and the two sides of the incidence
    /// relation are extended in step.
    proof fn lemma_commit_factor_wf(o: Self, g: Self, f: Factor<P>)
        requires
            o.wf(),
            o.n() < u32::MAX,
            f.id == o.n() as u32,
            f.variables.deep_view().len() >= 1,
            forall|t: int|
                0 <= t < f.variables.deep_view().len() ==> o.has_var_named(
                    #[trigger] f.variables.deep_view()[t],
                ),
            g.n() == o.n() + 1,
            g.item_at(o.n()) == FactorGraphItem::<T, P>::Factor(f),
            forall|i: int|
                0 <= i < o.n() ==> Self::committed_item(o, g, i, f.variables.deep_view(), f.id),
        ensures
            g.wf(),
    {
        let names = f.variables.deep_view();
        let id = f.id;
        // Old incident entries are valid factor ids, hence below the
        // fresh id.
        assert forall|j: int| o.is_variable_id(j) implies !o.incident(j).contains(id) by {
            if o.incident(j).contains(id) {
                let k = choose|k: int| 0 <= k < o.incident(j).len() && o.incident(j)[k] == id;
                assert(o.variable_ok(j));
                assert(o.is_factor_id(o.incident(j)[k] as int));
            }
        }
        assert forall|i: int| g.valid_id(i) implies (#[trigger] g.item_at(i)).spec_id()
            == i as u32 by {
            if i < o.n() {
                assert(Self::committed_item(o, g, i, names, id));
                assert(o.item_at(i).spec_id() == i as u32);
            }
        }
        assert forall|i: int, j: int|
            #![trigger g.var_name(i), g.var_name(j)]
            g.is_variable_id(i) && g.is_variable_id(j) && i != j implies g.var_name(i)
            != g.var_name(j) by {
            assert(i < o.n() && j < o.n());
            assert(Self::committed_item(o, g, i, names, id));
            assert(Self::committed_item(o, g, j, names, id));
            assert(o.is_variable_id(i) && o.is_variable_id(j));
            assert(g.var_name(i) == o.var_name(i));
            assert(g.var_name(j) == o.var_name(j));
        }
        assert forall|j: int| #[trigger] g.is_variable_id(j) implies g.variable_ok(j) by {
            assert(j < o.n());
            assert(Self::committed_item(o, g, j, names, id));
            assert(o.is_variable_id(j));
            assert(o.variable_ok(j));
            assert forall|k: int| 0 <= k < g.incident(j).len() implies g.is_factor_id(
                #[trigger] g.incident(j)[k] as int,
            ) by {
                if k < o.incident(j).len() {
                    assert(g.incident(j)[k] == o.incident(j)[k]);
                    assert(o.is_factor_id(o.incident(j)[k] as int));
                    assert(Self::committed_item(o, g, o.incident(j)[k] as int, names, id));
                } else {
                    assert(g.incident(j)[k] == id);
                }
            }
            assert forall|k1: int, k2: int|
                #![trigger g.incident(j)[k1], g.incident(j)[k2]]
                0 <= k1 < k2 < g.incident(j).len() implies g.incident(j)[k1]
                != g.incident(j)[k2] by {
                if k2 < o.incident(j).len() {
                } else if o.incident(j).len() <= g.incident(j).len() - 1 < g.incident(j).len() {
                    if k2 == g.incident(j).len() - 1 && g.incident(j).len()
                        == o.incident(j).len() + 1 {
                        assert(g.incident(j)[k2] == id);
                        assert(g.incident(j)[k1] == o.incident(j)[k1]);
                        if o.incident(j)[k1] == id {
                            assert(o.incident(j).contains(id));
                        }
                    }
                }
            }
        }
        assert forall|i: int| #[trigger] g.is_factor_id(i) implies g.factor_ok(i) by {
            if i < o.n() {
                assert(Self::committed_item(o, g, i, names, id));
                assert(o.is_factor_id(i));
                assert(o.factor_ok(i));
                assert(g.scope_names(i) == o.scope_names(i));
                assert forall|k: int| 0 <= k < g.scope_names(i).len() implies g.has_var_named(
                    #[trigger] g.scope_names(i)[k],
                ) by {
                    assert(o.has_var_named(o.scope_names(i)[k]));
                    let w = choose|w: int|
                        o.is_variable_id(w) && o.var_name(w) == o.scope_names(i)[k];
                    assert(Self::committed_item(o, g, w, names, id));
                    assert(g.is_variable_id(w) && g.var_name(w) == g.scope_names(i)[k]);
                }
            } else {
                assert(g.scope_names(i) == names);
                assert forall|k: int| 0 <= k < g.scope_names(i).len() implies g.has_var_named(
                    #[trigger] g.scope_names(i)[k],
                ) by {
                    assert(o.has_var_named(names[k]));
                    let w = choose|w: int| o.is_variable_id(w) && o.var_name(w) == names[k];
                    assert(Self::committed_item(o, g, w, names, id));
                    assert(g.is_variable_id(w) && g.var_name(w) == g.scope_names(i)[k]);
                }
            }
        }
        assert forall|i: int, j: int|
            #![trigger g.scope_names(i), g.incident(j)]
            g.is_factor_id(i) && g.is_variable_id(j) implies (g.scope_names(i).contains(
            g.var_name(j),
        ) <==> g.incident(j).contains(i as u32)) by {
            assert(j < o.n());
            assert(Self::committed_item(o, g, j, names, id));
            assert(o.is_variable_id(j));
            assert(g.var_name(j) == o.var_name(j));
            if i < o.n() {
                assert(Self::committed_item(o, g, i, names, id));
                assert(o.is_factor_id(i));
                assert(g.scope_names(i) == o.scope_names(i));
                if names.contains(o.var_name(j)) {
                    assert(g.incident(j) == o.incident(j).push(id));
                    assert(g.incident(j).contains(i as u32) <==> (o.incident(j).contains(i as u32)
                        || i as u32 == id)) by {
                        if g.incident(j).contains(i as u32) {
                            let k = choose|k: int|
                                0 <= k < g.incident(j).len() && g.incident(j)[k] == i as u32;
                            if k < o.incident(j).len() {
                                assert(o.incident(j).contains(i as u32));
                            }
                        }
                        if o.incident(j).contains(i as u32) {
                            let k = choose|k: int|
                                0 <= k < o.incident(j).len() && o.incident(j)[k] == i as u32;
                            assert(g.incident(j)[k] == i as u32);
                        }
                        if i as u32 == id {
                            assert(g.incident(j)[g.incident(j).len() - 1] == id);
                        }
                    }
                    assert(i as u32 != id);
                } else {
                    assert(g.incident(j) == o.incident(j));
                }
            } else {
                assert(g.scope_names(i) == names);
                if names.contains(o.var_name(j)) {
                    assert(g.incident(j) == o.incident(j).push(id));
                    assert(g.incident(j)[g.incident(j).len() - 1] == id);
                    assert(g.incident(j).contains(i as u32));
                } else {
                    assert(g.incident(j) == o.incident(j));
                    assert(!o.incident(j).contains(id));
                    assert forall|k: int|
                        0 <= k < g.incident(j).len() implies #[trigger] g.incident(j)[k]
                        != i as u32 by {
                        if g.incident(j)[k] == id {
                            assert(o.incident(j).contains(id));
                        }
                    }
                }
            }
        }
    }

    /// Whether ids `a` and `b` are joined by an incidence edge. Every
    /// edge connects exactly one variable and one factor: the relation is
    /// symmetric and bipartite by construction.
    pub open spec fn adjacent(&self, a: int, b: int) -> bool {
        &&& self.valid_id(a)
        &&& self.valid_id(b)
        &&& {
            ||| (self.is_variable_id(a) && self.is_factor_id(b) && self.incident(a).contains(
                b as u32,
            ))
            ||| (self.is_variable_id(b) && self.is_factor_id(a) && self.incident(b).contains(
                a as u32,
            ))
        }
    }

    /// The ids adjacent to node `i`, in the node's natural order: a
    /// variable's incident factors in insertion order, a factor's scope
    /// resolved to variable ids in scope order.
    pub open spec fn neighbors_of(&self, i: int) -> Seq<u32>
        recommends
            self.valid_id(i),
    {
        if self.item_at(i) is Variable {
            self.incident(i)
        } else {
            Seq::new(
                self.scope_names(i).len(),
                |s: int| self.var_id_named(self.scope_names(i)[s]) as u32,
            )
        }
    }

    /// Whether consecutive entries of `p` are adjacent.
    pub open spec fn is_path(&self, p: Seq<int>) -> bool {
        forall|k: int| 0 <= k < p.len() - 1 ==> self.adjacent(#[trigger] p[k], p[k + 1])
    }

    /// Whether some path of exactly `n` edges leads from `a` to `b`.
    #[verifier::opaque]
    pub open spec fn connected_n(&self, a: int, b: int, n: nat) -> bool {
        exists|p: Seq<int>|
            self.is_path(p) && p.len() == n + 1 && p[0] == a && p.last() == b
    }

    /// Whether `b` can be reached from `a` along incidence edges.
    #[verifier::opaque]
    pub open spec fn reachable(&self, a: int, b: int) -> bool {
        exists|n: nat| self.connected_n(a, b, n)
    }

    /// A path can be extended along one more edge.
    proof fn lemma_connected_step(&self, a: int, b: int, c: int, n: nat)
        requires
            self.connected_n(a, b, n),
            self.adjacent(b, c),
        ensures
            self.connected_n(a, c, n + 1),
    {
        reveal(FactorGraph::connected_n);
        let p = choose|p: Seq<int>|
            self.is_path(p) && p.len() == n + 1 && p[0] == a && p.last() == b;
        let q = p.push(c);
        assert forall|k: int| 0 <= k < q.len() - 1 implies self.adjacent(#[trigger] q[k], q[k + 1]) by {
            if k < p.len() - 1 {
                assert(self.adjacent(p[k], p[k + 1]));
            } else {
                assert(q[k] == b && q[k + 1] == c);
            }
        }
        assert(self.is_path(q) && q.len() == n + 1 + 1 && q[0] == a && q.last() == c);
    }

    /// Every id reaches itself by the empty path.
    proof fn lemma_connected_self(&self, a: int)
        ensures
            self.connected_n(a, a, 0),
            self.reachable(a, a),
    {
        reveal(FactorGraph::connected_n);
        reveal(FactorGraph::reachable);
        let p = seq![a];
        assert(self.is_path(p));
        assert(self.is_path(p) && p.len() == 0 + 1 && p[0] == a && p.last() == a);
        assert(self.connected_n(a, a, 0));
        let n: nat = 0;
        assert(self.connected_n(a, a, n));
    }

    /// Once a set of visited ids contains `a` and is closed under
    /// adjacency, it contains everything reachable from `a`.
    proof fn lemma_closed_visits_reachable(&self, visited: Seq<bool>, a: int, b: int, n: nat)
        requires
            visited.len() == self.n(),
            self.valid_id(a),
            visited[a],
            forall|v: int, w: int|
                0 <= v < self.n() && visited[v] && #[trigger] self.adjacent(v, w) ==> visited[w],
            self.connected_n(a, b, n),
        ensures
            self.valid_id(b),
            visited[b],
        decreases n,
    {
        reveal(FactorGraph::connected_n);
        let p = choose|p: Seq<int>|
            self.is_path(p) && p.len() == n + 1 && p[0] == a && p.last() == b;
        if n == 0 {
            assert(b == a);
        } else {
            let q = p.drop_last();
            let c = p[n - 1];
            assert forall|k: int| 0 <= k < q.len() - 1 implies self.adjacent(
                #[trigger] q[k],
                q[k + 1],
            ) by {
                assert(self.adjacent(p[k], p[k + 1]));
            }
            assert(self.is_path(q) && q.len() == (n - 1) + 1 && q[0] == a && q.last() == c);
            assert(self.connected_n(a, c, (n - 1) as nat));
            self.lemma_closed_visits_reachable(visited, a, c, (n - 1) as nat);
            assert(self.adjacent(p[n - 1], p[n as int]));
        }
    }

    /// Once every visited id's neighbors are visited at a depth at most
    /// one greater, a node's recorded depth is a lower bound on the
    /// length of every path from the root to it: breadth-first discovery
    /// order finds shortest paths.
    proof fn lemma_depth_lower_bound(&self, t: SpanningTree, rid: int, b: int, n: nat)
        requires
            self.wf(),
            t.wf(),
            t.distinct_data(),
            self.valid_id(rid),
            t.nodes()[0].data as int == rid,
            forall|k: int|
                0 <= k < t.nodes().len() ==> self.valid_id(#[trigger] t.nodes()[k].data as int),
            forall|v: int, w: int|
                0 <= v < self.n() && t.contains_data(v as u32) && #[trigger] self.adjacent(v, w)
                    ==> t.contains_data(w as u32) && t.data_depth(w as u32) <= t.data_depth(
                    v as u32,
                ) + 1,
            self.connected_n(rid, b, n),
        ensures
            self.valid_id(b),
            t.contains_data(b as u32),
            t.data_depth(b as u32) <= n,
        decreases n,
    {
        reveal(FactorGraph::connected_n);
        let p = choose|p: Seq<int>|
            self.is_path(p) && p.len() == n + 1 && p[0] == rid && p.last() == b;
        if n == 0 {
            assert(b == rid);
            t.lemma_index_of_data_unique(0);
            assert(t.index_of_data(rid as u32) == 0);
            assert(t.depth(0) == 0);
            assert(t.data_depth(b as u32) == 0) by {
                reveal(SpanningTree::data_depth);
            }
        } else {
            let q = p.drop_last();
            let c = p[n - 1];
            assert forall|k: int| 0 <= k < q.len() - 1 implies self.adjacent(
                #[trigger] q[k],
                q[k + 1],
            ) by {
                assert(self.adjacent(p[k], p[k + 1]));
            }
            assert(self.is_path(q) && q.len() == (n - 1) + 1 && q[0] == rid && q.last() == c);
            assert(self.connected_n(rid, c, (n - 1) as nat));
            self.lemma_depth_lower_bound(t, rid, c, (n - 1) as nat);
            assert(self.adjacent(p[n - 1], p[n as int]));
            assert((c as u32) as int == c);
        }
    }

    /// The ids adjacent to node `id`, in the node's natural order: a
    /// variable's incident factors in insertion order, or the variables a
    /// factor's scope resolves to, in scope order. The result contains
    /// exactly the neighbors of `id`.
    pub fn neighbor_ids(&self, id: u32) -> (r: Vec<u32>)
        requires
            self.wf(),
            self.valid_id(id as int),
        ensures
            forall|b: u32| r@.contains(b) <==> self.adjacent(id as int, b as int),
            forall|t: int| 0 <= t < r@.len() ==> self.adjacent(id as int, #[trigger] r@[t] as int),
            r@ == self.neighbors_of(id as int),
            self.item_at(id as int) is Factor ==> forall|s: int|
                0 <= s < r@.len() ==> self.var_name(#[trigger] r@[s] as int) == self.scope_names(
                    id as int,
                )[s],
    {
        match &self.items[id as usize] {
            FactorGraphItem::Variable(v) => {
                let r = v.factor_ids.clone();
                proof {
                    assert(r@ =~= v.factor_ids@);
                    assert(self.is_variable_id(id as int));
                    assert(self.variable_ok(id as int));
                    assert(self.incident(id as int) == v.factor_ids@);
                    assert forall|b: u32| r@.contains(b) implies self.adjacent(
                        id as int,
                        b as int,
                    ) by {
                        let t = choose|t: int| 0 <= t < r@.len() && r@[t] == b;
                        assert(self.is_factor_id(self.incident(id as int)[t] as int));
                    }
                    assert forall|b: u32| self.adjacent(id as int, b as int) implies r@.contains(
                        b,
                    ) by {
                        assert(self.incident(id as int).contains(b));
                    }
                    assert forall|t: int| 0 <= t < r@.len() implies self.adjacent(
                        id as int,
                        #[trigger] r@[t] as int,
                    ) by {
                        assert(r@.contains(r@[t]));
                    }
                }
                r
            },
            FactorGraphItem::Factor(f) => {
                let ghost names = f.variables.deep_view();
                let mut r: Vec<u32> = Vec::new();
                let mut t: usize = 0;
                proof {
                    assert(self.is_factor_id(id as int));
                    assert(self.factor_ok(id as int));
                    assert(self.scope_names(id as int) == names);
                }
                while t < f.variables.len()
                    invariant
                        self.wf(),
                        self.is_factor_id(id as int),
                        names == f.variables.deep_view(),
                        self.scope_names(id as int) == names,
                        self.factor_ok(id as int),
                        t <= names.len(),
                        r@.len() == t,
                        forall|s: int|
                            0 <= s < t ==> self.is_variable_id(#[trigger] r@[s] as int)
                                && self.var_name(r@[s] as int) == names[s],
                    decreases names.len() - t,
                {
                    let name_t = &f.variables[t];
                    proof {
                        assert(names[t as int] == name_t@);
                        assert(self.has_var_named(names[t as int]));
                    }
                    match self.find_variable(name_t) {
                        Some(j) => {
                            r.push(j as u32);
                        },
                        None => {
                            vstd::pervasive::unreached::<()>();
                        },
                    }
                    t = t + 1;
                }
                proof {
                    assert forall|b: u32| r@.contains(b) implies self.adjacent(
                        id as int,
                        b as int,
                    ) by {
                        let s = choose|s: int| 0 <= s < r@.len() && r@[s] == b;
                        assert(self.is_variable_id(b as int));
                        assert(self.var_name(b as int) == names[s]);
                        assert(self.scope_names(id as int)[s] == names[s]);
                        assert(self.scope_names(id as int).contains(self.var_name(b as int)));
                        assert(self.incident(b as int).contains(id));
                    }
                    assert forall|b: u32| self.adjacent(id as int, b as int) implies r@.contains(
                        b,
                    ) by {
                        assert(self.is_variable_id(b as int));
                        assert(self.incident(b as int).contains(id));
                        assert(self.scope_names(id as int).contains(self.var_name(b as int)));
                        let s = choose|s: int|
                            0 <= s < names.len() && names[s] == self.var_name(b as int);
                        assert(self.is_variable_id(r@[s] as int));
                        assert(self.var_name(r@[s] as int) == self.var_name(b as int));
                        assert(r@[s] == b);
                        assert(r@.contains(r@[s]));
                    }
                    assert forall|t2: int| 0 <= t2 < r@.len() implies self.adjacent(
                        id as int,
                        #[trigger] r@[t2] as int,
                    ) by {
                        assert(r@.contains(r@[t2]));
                    }
                    assert forall|s2: int| 0 <= s2 < r@.len() implies #[trigger] r@[s2]
                        == self.neighbors_of(id as int)[s2] by {
                        let j = self.var_id_named(names[s2]);
                        assert(self.has_var_named(names[s2]));
                        assert(self.is_variable_id(j) && self.var_name(j) == names[s2]);
                        assert(self.is_variable_id(r@[s2] as int));
                        assert(self.var_name(r@[s2] as int) == names[s2]);
                        assert(j == r@[s2] as int);
                    }
                    assert(r@ =~= self.neighbors_of(id as int));
                }
                r
            },
        }
    }

    /// What it means for `t` to be the breadth-first spanning tree of
    /// this graph rooted at id `rid`:
    /// - every id reachable from the root appears exactly once, and
    ///   nothing else appears;
    /// - the node at index 0 is the root; every other node hangs below a
    ///   parent it is adjacent to in the graph;
    /// - discovery order is non-decreasing in depth, and each node's
    ///   depth is exactly its graph distance from the root: a path of
    ///   that length exists and no path is shorter;
    /// - ties are pinned: a node's parent is the earliest-discovered
    ///   tree node adjacent to it (no earlier node is adjacent),
    ///   children of earlier parents come before children of later ones,
    ///   and siblings appear in the order their ids first occur in the
    ///   parent's neighbor enumeration — never by id magnitude.
    pub open spec fn spanning_tree_of(&self, t: SpanningTree, rid: int) -> bool {
        &&& t.wf()
        &&& t.distinct_data()
        &&& t.nodes()[0].data as int == rid
        &&& forall|k: int|
            0 <= k < t.nodes().len() ==> self.valid_id(#[trigger] t.nodes()[k].data as int)
        &&& forall|k: int|
            0 <= k < t.nodes().len() ==> self.reachable(rid, #[trigger] t.nodes()[k].data as int)
        &&& forall|id: int| self.valid_id(id) && self.reachable(rid, id) ==> t.contains_data(id as u32)
        &&& forall|k: int|
            1 <= k < t.nodes().len() ==> self.adjacent(
                t.nodes()[#[trigger] t.parent_index(k)].data as int,
                t.nodes()[k].data as int,
            )
        &&& forall|k: int|
            0 <= k < t.nodes().len() ==> (#[trigger] t.nodes()[k].name)@ == self.item_at(
                t.nodes()[k].data as int,
            ).spec_name()
        &&& forall|k1: int, k2: int|
            #![trigger t.depth(k1), t.depth(k2)]
            0 <= k1 <= k2 < t.nodes().len() ==> t.depth(k1) <= t.depth(k2)
        &&& forall|k: int|
            0 <= k < t.nodes().len() ==> self.connected_n(
                rid,
                t.nodes()[k].data as int,
                #[trigger] t.depth(k),
            )
        &&& forall|k: int, m: nat|
            0 <= k < t.nodes().len() && #[trigger] self.connected_n(
                rid,
                t.nodes()[k].data as int,
                m,
            ) ==> m >= t.depth(k)
        &&& forall|c: int, k: int|
            1 <= c < t.nodes().len() && 0 <= k < t.parent_index(c) ==> !(#[trigger] self.adjacent(
                t.nodes()[k].data as int,
                t.nodes()[c].data as int,
            ))
        &&& forall|c1: int, c2: int|
            #![trigger t.parent_index(c1), t.parent_index(c2)]
            1 <= c1 <= c2 < t.nodes().len() ==> t.parent_index(c1) <= t.parent_index(c2)
        &&& forall|c1: int, c2: int|
            #![trigger t.parent_index(c1), t.parent_index(c2)]
            1 <= c1 < c2 < t.nodes().len() && t.parent_index(c1) == t.parent_index(c2)
                ==> first_index_of(
                self.neighbors_of(t.nodes()[t.parent_index(c1)].data as int),
                t.nodes()[c1].data,
            ) < first_index_of(
                self.neighbors_of(t.nodes()[t.parent_index(c1)].data as int),
                t.nodes()[c2].data,
            )
    }

    /// The state a breadth-first traversal maintains: the tree built so
    /// far, the visited set, and the queue with its next unprocessed
    /// position.
    spec fn bfs_inv(
        &self,
        rid: int,
        t: SpanningTree,
        visited: Seq<bool>,
        queue: Seq<u32>,
        head: int,
    ) -> bool {
        &&& t.wf()
        &&& t.distinct_data()
        &&& t.nodes()[0].data as int == rid
        &&& visited.len() == self.n()
        &&& self.valid_id(rid)
        &&& 0 <= head <= queue.len()
        &&& forall|k: int|
            0 <= k < t.nodes().len() ==> self.valid_id(#[trigger] t.nodes()[k].data as int)
        &&& forall|id: int|
            0 <= id < self.n() ==> ((#[trigger] visited[id]) <==> t.contains_data(id as u32))
        &&& forall|s: int|
            head <= s < queue.len() ==> self.valid_id(#[trigger] queue[s] as int)
                && visited[queue[s] as int]
        &&& forall|k: int|
            0 <= k < t.nodes().len() ==> self.reachable(rid, #[trigger] t.nodes()[k].data as int)
        &&& forall|v: int, w: int|
            0 <= v < self.n() && visited[v] && !in_pending(queue, head, v as u32)
                && #[trigger] self.adjacent(v, w) ==> visited[w] && t.data_depth(w as u32)
                <= t.data_depth(v as u32) + 1
        &&& forall|k: int|
            1 <= k < t.nodes().len() ==> self.adjacent(
                t.nodes()[#[trigger] t.parent_index(k)].data as int,
                t.nodes()[k].data as int,
            )
        &&& forall|k: int|
            0 <= k < t.nodes().len() ==> (#[trigger] t.nodes()[k].name)@ == self.item_at(
                t.nodes()[k].data as int,
            ).spec_name()
        &&& forall|k1: int, k2: int|
            #![trigger t.depth(k1), t.depth(k2)]
            0 <= k1 <= k2 < t.nodes().len() ==> t.depth(k1) <= t.depth(k2)
        &&& forall|k: int|
            0 <= k < t.nodes().len() ==> self.connected_n(
                rid,
                t.nodes()[k].data as int,
                #[trigger] t.depth(k),
            )
        &&& forall|s1: int, s2: int|
            #![trigger queue[s1], queue[s2]]
            head <= s1 <= s2 < queue.len() ==> t.data_depth(queue[s1]) <= t.data_depth(queue[s2])
                && t.data_depth(queue[s2]) <= t.data_depth(queue[s1]) + 1
        &&& forall|v: int, s: int|
            #![trigger visited[v], queue[s]]
            0 <= v < self.n() && visited[v] && !in_pending(queue, head, v as u32) && head <= s
                < queue.len() ==> t.data_depth(v as u32) <= t.data_depth(queue[s])
        &&& forall|k: int|
            0 <= k < t.nodes().len() && head < queue.len() ==> #[trigger] t.depth(k)
                <= t.data_depth(queue[head]) + 1
        &&& queue.len() == t.nodes().len()
        &&& forall|i: int| 0 <= i < queue.len() ==> (#[trigger] queue[i]) == t.nodes()[i].data
        &&& forall|c: int, k: int|
            1 <= c < t.nodes().len() && 0 <= k < t.parent_index(c) ==> !(#[trigger] self.adjacent(
                t.nodes()[k].data as int,
                t.nodes()[c].data as int,
            ))
        &&& forall|c1: int, c2: int|
            #![trigger t.parent_index(c1), t.parent_index(c2)]
            1 <= c1 <= c2 < t.nodes().len() ==> t.parent_index(c1) <= t.parent_index(c2)
        &&& forall|c: int| 1 <= c < t.nodes().len() ==> #[trigger] t.parent_index(c) <= head
        &&& forall|c1: int, c2: int|
            #![trigger t.parent_index(c1), t.parent_index(c2)]
            1 <= c1 < c2 < t.nodes().len() && t.parent_index(c1) == t.parent_index(c2)
                ==> first_index_of(
                self.neighbors_of(t.nodes()[t.parent_index(c1)].data as int),
                t.nodes()[c1].data,
            ) < first_index_of(
                self.neighbors_of(t.nodes()[t.parent_index(c1)].data as int),
                t.nodes()[c2].data,
            )
    }

    /// Whether `name` occurs among `names`, by a linear scan.
    fn contains_name(names: &Vec<String>, name: &String) -> (r: bool)
        ensures
            r == names.deep_view().contains(name@),
    {
        let mut k: usize = 0;
        while k < names.len()
            invariant
                k <= names@.len(),
                forall|t: int| 0 <= t < k ==> names.deep_view()[t] != name@,
            decreases names@.len() - k,
        {
            if names[k] == *name {
                proof {
                    assert(names.deep_view()[k as int] == name@);
                }
                return true;
            }
            k = k + 1;
        }
        proof {
            if names.deep_view().contains(name@) {
                let t = choose|t: int|
                    0 <= t < names.deep_view().len() && names.deep_view()[t] == name@;
                assert(names.deep_view()[t] != name@);
            }
        }
        false
    }

    /// Add a new factor with the specified variables to the factor graph.
    ///
    /// Every name in the scope is validated against the registry before
    /// any state is touched. Only then is an id allocated, the factor
    /// stored, and its id appended once to each scope variable's incident
    /// list. If any name is unknown the graph is left entirely unchanged
    /// and no id is consumed.
    pub fn add_factor(&mut self, variables: Vec<String>, potential: P) -> (r: Result<
        u32,
        GraphError,
    >)
        requires
            old(self).wf(),
            old(self).n() < u32::MAX,
            variables@.len() >= 1,
        ensures
            final(self).wf(),
            match r {
                Ok(id) => {
                    &&& forall|t: int|
                        0 <= t < variables.deep_view().len() ==> old(self).has_var_named(
                            #[trigger] variables.deep_view()[t],
                        )
                    &&& id as int == old(self).n()
                    &&& final(self).n() == old(self).n() + 1
                    &&& final(self).is_factor_id(old(self).n())
                    &&& final(self).factor_at(old(self).n()).variables == variables
                    &&& final(self).factor_at(old(self).n()).potential == potential
                    &&& forall|i: int|
                        0 <= i < old(self).n() ==> Self::committed_item(
                            *old(self),
                            *final(self),
                            i,
                            variables.deep_view(),
                            id,
                        )
                },
                Err(e) => {
                    &&& e matches GraphError::UnknownVariable(w) && exists|t: int|
                        {
                            &&& 0 <= t < variables.deep_view().len()
                            &&& !old(self).has_var_named(variables.deep_view()[t])
                            &&& forall|t2: int|
                                0 <= t2 < t ==> old(self).has_var_named(
                                    #[trigger] variables.deep_view()[t2],
                                )
                            &&& w@ == variables.deep_view()[t]
                        }
                    &&& *final(self) == *old(self)
                },
            },
    {
        let ghost names = variables.deep_view();
        // Validate the whole scope before mutating anything.
        let mut k: usize = 0;
        while k < variables.len()
            invariant
                old(self).wf(),
                *self == *old(self),
                k <= variables@.len(),
                names == variables.deep_view(),
                forall|t: int| 0 <= t < k ==> old(self).has_var_named(#[trigger] names[t]),
            decreases variables@.len() - k,
        {
            let name_k = &variables[k];
            if self.find_variable(name_k).is_none() {
                proof {
                    assert(names[k as int] == name_k@);
                }
                return Err(GraphError::UnknownVariable(name_k.clone()));
            }
            proof {
                assert(names[k as int] == name_k@);
            }
            k = k + 1;
        }
        // Commit: append the fresh id to every scope variable's incident
        // list, then store the factor itself.
        let ghost o = *self;
        let id = self.items.len() as u32;
        let n_items = self.items.len();
        let mut j: usize = 0;
        while j < n_items
            invariant
                o == *old(self),
                o.wf(),
                o.n() < u32::MAX,
                n_items == o.n(),
                id == o.n() as u32,
                names == variables.deep_view(),
                j <= n_items,
                self.items@.len() == o.n(),
                forall|i: int| j <= i < o.n() ==> self.item_at(i) == o.item_at(i),
                forall|i: int| 0 <= i < j ==> Self::committed_item(o, *self, i, names, id),
            decreases n_items - j,
        {
            proof {
                if o.item_at(j as int) is Variable {
                    assert(o.is_variable_id(j as int));
                    assert(o.variable_ok(j as int));
                    if o.incident(j as int).contains(id) {
                        let k2 = choose|k2: int|
                            0 <= k2 < o.incident(j as int).len() && o.incident(j as int)[k2] == id;
                        assert(o.is_factor_id(o.incident(j as int)[k2] as int));
                    }
                }
            }
            let ghost prev = *self;
            let item = &mut self.items[j];
            match item {
                FactorGraphItem::Variable(v) => {
                    if Self::contains_name(&variables, &v.name) {
                        v.factor_ids.push(id);
                    }
                },
                FactorGraphItem::Factor(_) => {},
            }
            proof {
                assert(self.items@ == prev.items@.update(j as int, self.items@[j as int]));
                assert(Self::committed_item(o, *self, j as int, names, id));
                assert forall|i: int| 0 <= i < j implies Self::committed_item(
                    o,
                    *self,
                    i,
                    names,
                    id,
                ) by {
                    assert(self.item_at(i) == prev.item_at(i));
                    assert(Self::committed_item(o, prev, i, names, id));
                }
            }
            j = j + 1;
        }
        let f = Factor::new(id, variables, potential);
        let ghost fg = f;
        let ghost pre = *self;
        self.items.push(FactorGraphItem::Factor(f));
        proof {
            assert(self.items@ == pre.items@.push(FactorGraphItem::<T, P>::Factor(fg)));
            assert forall|i: int| 0 <= i < o.n() implies Self::committed_item(
                o,
                *self,
                i,
                names,
                id,
            ) by {
                assert(self.item_at(i) == pre.item_at(i));
                assert(Self::committed_item(o, pre, i, names, id));
            }
            Self::lemma_commit_factor_wf(o, *self, fg);
        }
        Ok(id)
    }

    /// Discovering a fresh neighbor `b` of the queue-front node `u`
    /// preserves the traversal invariant: the new node hangs one level
    /// below `u`, every existing node keeps its depth, and the queue
    /// stays sorted by depth within a span of one.
    #[verifier::rlimit(100)]
    #[verifier::spinoff_prover]
    proof fn lemma_bfs_discover(
        &self,
        rid: int,
        t0: SpanningTree,
        tree: SpanningTree,
        v0: Seq<bool>,
        visited: Seq<bool>,
        q0: Seq<u32>,
        queue: Seq<u32>,
        head: int,
        u: u32,
        b: u32,
        ud: nat,
        nbrs: Seq<u32>,
        ni: int,
    )
        requires
            self.wf(),
            self.bfs_inv(rid, t0, v0, q0, head),
            0 <= head < q0.len(),
            q0[head] == u,
            self.adjacent(u as int, b as int),
            !v0[b as int],
            ud == t0.data_depth(u),
            forall|k: int| 0 <= k < t0.nodes().len() ==> #[trigger] t0.depth(k) <= ud + 1,
            tree.wf(),
            SpanningTree::child_extended(t0, tree, u, b, self.item_at(b as int).spec_name()),
            forall|x: u32| tree.contains_data(x) <==> (t0.contains_data(x) || x == b),
            visited == v0.update(b as int, true),
            queue == q0.push(b),
            nbrs == self.neighbors_of(u as int),
            0 <= ni < nbrs.len(),
            nbrs[ni] == b,
            forall|s: int| 0 <= s < ni ==> v0[#[trigger] nbrs[s] as int],
            forall|c: int|
                1 <= c < t0.nodes().len() && #[trigger] t0.parent_index(c) == head
                    ==> first_index_of(nbrs, t0.nodes()[c].data) < ni,
        ensures
            self.bfs_inv(rid, tree, visited, queue, head),
            tree.distinct_data(),
            tree.data_depth(b) == ud + 1,
            tree.data_depth(u) == ud,
            forall|x: u32|
                t0.contains_data(x) ==> tree.contains_data(x) && tree.data_depth(x)
                    == t0.data_depth(x),
            forall|k: int| 0 <= k < tree.nodes().len() ==> #[trigger] tree.depth(k) <= ud + 1,
            forall|c: int|
                1 <= c < tree.nodes().len() && #[trigger] tree.parent_index(c) == head
                    ==> first_index_of(nbrs, tree.nodes()[c].data) < ni + 1,
    {
        let new_k = t0.nodes().len() as int;
        let p = tree.parent_index(new_k);
        t0.lemma_index_of_data_unique(p);
        assert(t0.index_of_data(u) == p);
        assert(t0.depth(p) == ud) by {
            reveal(SpanningTree::data_depth);
        }
        assert(tree.depth(new_k) == ud + 1);
        // The parent of the fresh node is the node being processed: the
        // queue lists the tree's data in discovery order, so the front
        // of the queue is the node at index `head`.
        assert(q0[head] == t0.nodes()[head].data);
        assert(p == head) by {
            if p != head {
                assert(t0.nodes()[p].data == t0.nodes()[head].data);
            }
        }
        // The fresh id is discovered at its first occurrence among the
        // neighbors: every earlier entry was already visited.
        assert forall|i: int| 0 <= i < ni implies nbrs[i] != b by {
            assert(v0[nbrs[i] as int]);
        }
        lemma_first_index_of(nbrs, b, ni);
        assert forall|k: int| 0 <= k < new_k implies (#[trigger] tree.nodes()[k].data)
            == t0.nodes()[k].data by {
            if k != p {
                assert(tree.nodes()[k] == t0.nodes()[k]);
            }
        }
        // The fresh id keeps the data distinct.
        assert(!t0.contains_data(b));
        assert forall|k1: int, k2: int|
            #![trigger tree.nodes()[k1].data, tree.nodes()[k2].data]
            0 <= k1 < k2 < tree.nodes().len() implies tree.nodes()[k1].data
            != tree.nodes()[k2].data by {
            if k2 < new_k {
                assert(tree.nodes()[k1].data == t0.nodes()[k1].data);
                assert(tree.nodes()[k2].data == t0.nodes()[k2].data);
            } else {
                assert(tree.nodes()[k2].data == b);
                assert(tree.nodes()[k1].data == t0.nodes()[k1].data);
                if t0.nodes()[k1].data == b {
                    assert(t0.contains_data(b));
                }
            }
        }
        assert(tree.distinct_data());
        // Depth bookkeeping for ids already in the tree.
        assert forall|x: u32| t0.contains_data(x) implies tree.contains_data(x) && tree.data_depth(
            x,
        ) == t0.data_depth(x) by {
            SpanningTree::lemma_data_depth_preserved(t0, tree, x);
        }
        tree.lemma_index_of_data_unique(new_k);
        assert(tree.data_depth(b) == ud + 1) by {
            reveal(SpanningTree::data_depth);
        }
        assert(tree.data_depth(u) == ud);
        // Every depth stays at most one level below the popped node.
        assert forall|k: int| 0 <= k < tree.nodes().len() implies #[trigger] tree.depth(k) <= ud
            + 1 by {
            if k < new_k {
                assert(tree.depth(k) == t0.depth(k));
            }
        }
        // The new node is one edge beyond its parent.
        assert(t0.nodes()[p].data == u);
        assert(self.connected_n(rid, u as int, t0.depth(p)));
        assert(t0.depth(p) == ud);
        self.lemma_connected_step(rid, u as int, b as int, ud);
        assert(self.connected_n(rid, b as int, ud + 1));
        assert(self.reachable(rid, b as int)) by {
            reveal(FactorGraph::reachable);
        }
        // Queue membership before and after the push.
        assert forall|x: u32| in_pending(q0, head, x) implies in_pending(queue, head, x) by {
            let s = choose|s: int| head <= s < q0.len() && q0[s] == x;
            assert(queue[s] == x);
        }
        assert forall|x: u32| in_pending(queue, head, x) && x != b implies in_pending(
            q0,
            head,
            x,
        ) by {
            let s = choose|s: int| head <= s < queue.len() && queue[s] == x;
            assert(s < q0.len());
            assert(q0[s] == x);
        }
        assert(in_pending(queue, head, b)) by {
            assert(queue[queue.len() - 1] == b);
        }
        // Now each clause of the traversal invariant in turn.
        assert(tree.nodes()[0].data as int == rid);
        assert(visited.len() == self.n());
        assert forall|k: int| 0 <= k < tree.nodes().len() implies self.valid_id(
            #[trigger] tree.nodes()[k].data as int,
        ) by {
            if k < new_k {
                assert(tree.nodes()[k].data == t0.nodes()[k].data);
            } else {
                assert(tree.nodes()[k].data == b);
            }
        }
        assert forall|id: int| 0 <= id < self.n() implies ((#[trigger] visited[id])
            <==> tree.contains_data(id as u32)) by {
            if id == b as int {
                assert(tree.nodes()[new_k].data == b);
            } else {
                assert(visited[id] == v0[id]);
                assert((id as u32) != b);
                assert(v0[id] <==> t0.contains_data(id as u32));
            }
        }
        assert forall|s: int| head <= s < queue.len() implies self.valid_id(
            #[trigger] queue[s] as int,
        ) && visited[queue[s] as int] by {
            if s < q0.len() {
                assert(queue[s] == q0[s]);
                assert(v0[q0[s] as int]);
            } else {
                assert(queue[s] == b);
            }
        }
        assert forall|k: int| 0 <= k < tree.nodes().len() implies self.reachable(
            rid,
            #[trigger] tree.nodes()[k].data as int,
        ) by {
            if k < new_k {
                assert(tree.nodes()[k].data == t0.nodes()[k].data);
                assert(self.reachable(rid, t0.nodes()[k].data as int));
            } else {
                assert(tree.nodes()[k].data == b);
            }
        }
        // Closure with the depth bound, for ids that are done.
        assert forall|v: int, w: int|
            0 <= v < self.n() && visited[v] && !in_pending(queue, head, v as u32)
                && #[trigger] self.adjacent(v, w) implies visited[w] && tree.data_depth(w as u32)
            <= tree.data_depth(v as u32) + 1 by {
            assert(v != b as int);
            assert(v0[v]);
            assert(!in_pending(q0, head, v as u32));
            assert(v0[w] && t0.data_depth(w as u32) <= t0.data_depth(v as u32) + 1);
            assert(t0.contains_data(w as u32));
            assert(t0.contains_data(v as u32));
        }
        // Tree edges are graph edges.
        assert forall|k: int| 1 <= k < tree.nodes().len() implies self.adjacent(
            tree.nodes()[#[trigger] tree.parent_index(k)].data as int,
            tree.nodes()[k].data as int,
        ) by {
            if k < new_k {
                assert(tree.nodes()[k].parent == t0.nodes()[k].parent);
                assert(tree.parent_index(k) == t0.parent_index(k));
                assert(tree.nodes()[t0.parent_index(k)].data == t0.nodes()[t0.parent_index(
                    k,
                )].data);
                assert(tree.nodes()[k].data == t0.nodes()[k].data);
            } else {
                assert(tree.parent_index(k) == p);
                assert(tree.nodes()[p].data == u);
                assert(tree.nodes()[k].data == b);
            }
        }
        // Node names follow the graph items they represent.
        assert forall|k: int| 0 <= k < tree.nodes().len() implies (#[trigger] tree.nodes()[k].name)@
            == self.item_at(tree.nodes()[k].data as int).spec_name() by {
            if k < new_k && k != p {
                assert(tree.nodes()[k] == t0.nodes()[k]);
            } else if k == p {
                assert(tree.nodes()[p].name == t0.nodes()[p].name);
                assert(tree.nodes()[p].data == t0.nodes()[p].data);
            }
        }
        // Discovery order never decreases in depth.
        assert forall|k1: int, k2: int|
            #![trigger tree.depth(k1), tree.depth(k2)]
            0 <= k1 <= k2 < tree.nodes().len() implies tree.depth(k1) <= tree.depth(k2) by {
            if k2 < new_k {
                assert(tree.depth(k1) == t0.depth(k1));
                assert(tree.depth(k2) == t0.depth(k2));
            } else if k1 < new_k {
                assert(tree.depth(k1) == t0.depth(k1));
                assert(t0.depth(k1) <= ud + 1);
            }
        }
        // Each node's depth is witnessed by a path of that length.
        assert forall|k: int| 0 <= k < tree.nodes().len() implies self.connected_n(
            rid,
            tree.nodes()[k].data as int,
            #[trigger] tree.depth(k),
        ) by {
            if k < new_k {
                assert(tree.nodes()[k].data == t0.nodes()[k].data);
                assert(tree.depth(k) == t0.depth(k));
                assert(self.connected_n(rid, t0.nodes()[k].data as int, t0.depth(k)));
            } else {
                assert(tree.nodes()[k].data == b);
                assert(tree.depth(k) == ud + 1);
            }
        }
        // Queue depths stay sorted within a span of one.
        assert forall|s1: int, s2: int|
            #![trigger queue[s1], queue[s2]]
            head <= s1 <= s2 < queue.len() implies tree.data_depth(queue[s1]) <= tree.data_depth(
            queue[s2],
        ) && tree.data_depth(queue[s2]) <= tree.data_depth(queue[s1]) + 1 by {
            if s2 < q0.len() {
                assert(queue[s1] == q0[s1] && queue[s2] == q0[s2]);
                assert(t0.contains_data(q0[s1]) && t0.contains_data(q0[s2]));
            } else {
                assert(queue[s2] == b);
                assert(tree.data_depth(queue[s2]) == ud + 1);
                if s1 < q0.len() {
                    assert(queue[s1] == q0[s1]);
                    assert(t0.contains_data(q0[s1]));
                    assert(t0.data_depth(q0[head]) == ud);
                    assert(t0.data_depth(q0[s1]) <= ud + 1);
                    assert(ud <= t0.data_depth(q0[s1]));
                } else {
                    assert(queue[s1] == b);
                }
            }
        }
        // Ids that are done sit no deeper than anything still queued.
        assert forall|v: int, s: int|
            #![trigger visited[v], queue[s]]
            0 <= v < self.n() && visited[v] && !in_pending(queue, head, v as u32) && head <= s
                < queue.len() implies tree.data_depth(v as u32) <= tree.data_depth(queue[s]) by {
            assert(v != b as int);
            assert(v0[v]);
            assert(!in_pending(q0, head, v as u32));
            assert(t0.contains_data(v as u32));
            assert(t0.data_depth(v as u32) <= t0.data_depth(q0[head]));
            assert(t0.data_depth(q0[head]) == ud);
            if s < q0.len() {
                assert(queue[s] == q0[s]);
                assert(t0.contains_data(q0[s]));
            } else {
                assert(queue[s] == b);
            }
        }
        // Nothing in the tree sits more than one level below the front of
        // the queue.
        assert forall|k: int|
            0 <= k < tree.nodes().len() && head < queue.len() implies #[trigger] tree.depth(k)
            <= tree.data_depth(queue[head]) + 1 by {
            assert(queue[head] == q0[head]);
            assert(q0[head] == u);
            assert(tree.data_depth(u) == ud);
            assert(tree.depth(k) <= ud + 1);
        }
        // The queue lists the tree's data in discovery order.
        assert forall|i: int| 0 <= i < queue.len() implies (#[trigger] queue[i])
            == tree.nodes()[i].data by {
            if i < q0.len() {
                assert(queue[i] == q0[i]);
                assert(q0[i] == t0.nodes()[i].data);
                assert(tree.nodes()[i].data == t0.nodes()[i].data);
            } else {
                assert(queue[i] == b);
                assert(tree.nodes()[new_k].data == b);
            }
        }
        // No node discovered before the parent is adjacent to a child:
        // its neighbors were all visited when it was processed.
        assert forall|k: int| 0 <= k < head implies !self.adjacent(
            t0.nodes()[k].data as int,
            b as int,
        ) by {
            if self.adjacent(t0.nodes()[k].data as int, b as int) {
                let vk = t0.nodes()[k].data as int;
                assert(t0.contains_data(t0.nodes()[k].data));
                assert(v0[vk]);
                assert(!in_pending(q0, head, vk as u32)) by {
                    if in_pending(q0, head, vk as u32) {
                        let t = choose|t: int| head <= t < q0.len() && q0[t] == (vk as u32);
                        assert(t0.nodes()[t].data == t0.nodes()[k].data);
                    }
                }
                assert(v0[b as int]);
            }
        }
        assert forall|c: int, k: int|
            1 <= c < tree.nodes().len() && 0 <= k < tree.parent_index(c) implies !(
        #[trigger] self.adjacent(
            tree.nodes()[k].data as int,
            tree.nodes()[c].data as int,
        )) by {
            if c < new_k {
                assert(tree.nodes()[c].parent == t0.nodes()[c].parent);
                assert(tree.parent_index(c) == t0.parent_index(c));
                assert(tree.nodes()[k].data == t0.nodes()[k].data);
                assert(tree.nodes()[c].data == t0.nodes()[c].data);
                assert(!self.adjacent(t0.nodes()[k].data as int, t0.nodes()[c].data as int));
            } else {
                assert(tree.parent_index(c) == head);
                assert(tree.nodes()[k].data == t0.nodes()[k].data);
                assert(tree.nodes()[c].data == b);
            }
        }
        // Children of earlier parents stay ahead of children of later
        // parents, and no parent lies past the processing front.
        assert forall|c: int| 1 <= c < tree.nodes().len() implies #[trigger] tree.parent_index(c)
            <= head by {
            if c < new_k {
                assert(tree.nodes()[c].parent == t0.nodes()[c].parent);
                assert(t0.parent_index(c) <= head);
            }
        }
        assert forall|c1: int, c2: int|
            #![trigger tree.parent_index(c1), tree.parent_index(c2)]
            1 <= c1 <= c2 < tree.nodes().len() implies tree.parent_index(c1) <= tree.parent_index(
            c2,
        ) by {
            if c2 < new_k {
                assert(tree.nodes()[c1].parent == t0.nodes()[c1].parent);
                assert(tree.nodes()[c2].parent == t0.nodes()[c2].parent);
                assert(t0.parent_index(c1) <= t0.parent_index(c2));
            } else if c1 < new_k {
                assert(tree.nodes()[c1].parent == t0.nodes()[c1].parent);
                assert(t0.parent_index(c1) <= head);
                assert(tree.parent_index(c2) == head);
            }
        }
        // Siblings keep the order in which their ids first occur among
        // the parent's neighbors.
        assert(self.neighbors_of(tree.nodes()[head].data as int) == nbrs) by {
            assert(tree.nodes()[head].data == t0.nodes()[head].data);
            assert(t0.nodes()[head].data == u);
        }
        assert forall|c: int|
            1 <= c < tree.nodes().len() && #[trigger] tree.parent_index(c) == head implies
        first_index_of(nbrs, tree.nodes()[c].data) < ni + 1 by {
            if c < new_k {
                assert(tree.nodes()[c].parent == t0.nodes()[c].parent);
                assert(t0.parent_index(c) == head);
                assert(tree.nodes()[c].data == t0.nodes()[c].data);
                assert(first_index_of(nbrs, t0.nodes()[c].data) < ni);
            } else {
                assert(tree.nodes()[c].data == b);
            }
        }
        assert forall|c1: int, c2: int|
            #![trigger tree.parent_index(c1), tree.parent_index(c2)]
            1 <= c1 < c2 < tree.nodes().len() && tree.parent_index(c1) == tree.parent_index(c2)
                implies first_index_of(
            self.neighbors_of(tree.nodes()[tree.parent_index(c1)].data as int),
            tree.nodes()[c1].data,
        ) < first_index_of(
            self.neighbors_of(tree.nodes()[tree.parent_index(c1)].data as int),
            tree.nodes()[c2].data,
        ) by {
            if c2 < new_k {
                assert(tree.nodes()[c1].parent == t0.nodes()[c1].parent);
                assert(tree.nodes()[c2].parent == t0.nodes()[c2].parent);
                assert(tree.nodes()[c1].data == t0.nodes()[c1].data);
                assert(tree.nodes()[c2].data == t0.nodes()[c2].data);
                let pc = t0.parent_index(c1);
                assert(tree.nodes()[pc].data == t0.nodes()[pc].data);
                assert(first_index_of(
                    self.neighbors_of(t0.nodes()[pc].data as int),
                    t0.nodes()[c1].data,
                ) < first_index_of(
                    self.neighbors_of(t0.nodes()[pc].data as int),
                    t0.nodes()[c2].data,
                ));
            } else {
                assert(tree.parent_index(c2) == head);
                assert(tree.parent_index(c1) == head);
                assert(tree.nodes()[c1].parent == t0.nodes()[c1].parent);
                assert(t0.parent_index(c1) == head);
                assert(tree.nodes()[c1].data == t0.nodes()[c1].data);
                assert(first_index_of(nbrs, t0.nodes()[c1].data) < ni);
                assert(tree.nodes()[c2].data == b);
                assert(first_index_of(nbrs, b) == ni);
            }
        }
        assert(self.bfs_inv(rid, tree, visited, queue, head));
    }

    /// Once every neighbor of the queue-front node `u` has been visited
    /// at most one level deeper, `u` itself counts as done and the
    /// traversal invariant survives advancing past it.
    proof fn lemma_bfs_pop(
        &self,
        rid: int,
        tree: SpanningTree,
        visited: Seq<bool>,
        queue: Seq<u32>,
        head: int,
        u: u32,
        ud: nat,
        nbrs: Seq<u32>,
    )
        requires
            self.wf(),
            self.bfs_inv(rid, tree, visited, queue, head),
            0 <= head < queue.len(),
            queue[head] == u,
            ud == tree.data_depth(u),
            forall|b: u32| nbrs.contains(b) <==> self.adjacent(u as int, b as int),
            forall|s: int|
                0 <= s < nbrs.len() ==> visited[#[trigger] nbrs[s] as int] && tree.data_depth(
                    nbrs[s],
                ) <= ud + 1,
            forall|k: int| 0 <= k < tree.nodes().len() ==> #[trigger] tree.depth(k) <= ud + 1,
        ensures
            self.bfs_inv(rid, tree, visited, queue, head + 1),
    {
        let h1 = head + 1;
        assert forall|v: int, w: int|
            0 <= v < self.n() && visited[v] && !in_pending(queue, h1, v as u32)
                && #[trigger] self.adjacent(v, w) implies visited[w] && tree.data_depth(w as u32)
            <= tree.data_depth(v as u32) + 1 by {
            if v == u as int {
                assert(self.adjacent(u as int, (w as u32) as int));
                assert(nbrs.contains(w as u32));
                let s = choose|s: int| 0 <= s < nbrs.len() && nbrs[s] == (w as u32);
                assert(visited[nbrs[s] as int]);
                assert(tree.data_depth(nbrs[s]) <= ud + 1);
                assert(tree.data_depth(v as u32) == ud);
            } else {
                assert(!in_pending(queue, head, v as u32)) by {
                    if in_pending(queue, head, v as u32) {
                        let s = choose|s: int| head <= s < queue.len() && queue[s] == (v as u32);
                        if s == head {
                            assert((v as u32) == u);
                        } else {
                            assert(in_pending(queue, h1, v as u32)) by {
                                assert(queue[s] == (v as u32));
                            }
                        }
                    }
                }
            }
        }
        assert forall|v: int, s: int|
            #![trigger visited[v], queue[s]]
            0 <= v < self.n() && visited[v] && !in_pending(queue, h1, v as u32) && h1 <= s
                < queue.len() implies tree.data_depth(v as u32) <= tree.data_depth(queue[s]) by {
            if v == u as int {
                assert(queue[head] == u);
                assert(tree.data_depth(queue[head]) <= tree.data_depth(queue[s]));
            } else {
                assert(!in_pending(queue, head, v as u32)) by {
                    if in_pending(queue, head, v as u32) {
                        let s2 = choose|s2: int|
                            head <= s2 < queue.len() && queue[s2] == (v as u32);
                        if s2 == head {
                            assert((v as u32) == u);
                        } else {
                            assert(in_pending(queue, h1, v as u32)) by {
                                assert(queue[s2] == (v as u32));
                            }
                        }
                    }
                }
            }
        }
        assert forall|k: int|
            0 <= k < tree.nodes().len() && h1 < queue.len() implies #[trigger] tree.depth(k)
            <= tree.data_depth(queue[h1]) + 1 by {
            assert(tree.depth(k) <= ud + 1);
            assert(tree.data_depth(queue[head]) <= tree.data_depth(queue[h1]));
        }
        assert(self.bfs_inv(rid, tree, visited, queue, h1));
    }

    /// With the queue drained, the visited set is closed under adjacency:
    /// the tree holds exactly the ids reachable from the root and every
    /// recorded depth is the true graph distance.
    proof fn lemma_bfs_finish(
        &self,
        rid: int,
        tree: SpanningTree,
        visited: Seq<bool>,
        queue: Seq<u32>,
        head: int,
    )
        requires
            self.wf(),
            self.bfs_inv(rid, tree, visited, queue, head),
            head == queue.len(),
        ensures
            self.spanning_tree_of(tree, rid),
    {
        assert forall|v: int, w: int|
            0 <= v < self.n() && visited[v] && #[trigger] self.adjacent(v, w) implies
            visited[w] by {
            assert(!in_pending(queue, head, v as u32));
        }
        assert forall|id: int| self.valid_id(id) && self.reachable(rid, id) implies
            tree.contains_data(id as u32) by {
            reveal(FactorGraph::reachable);
            let n0 = choose|n0: nat| self.connected_n(rid, id, n0);
            self.lemma_closed_visits_reachable(visited, rid, id, n0);
        }
        assert forall|v: int, w: int|
            0 <= v < self.n() && tree.contains_data(v as u32) && #[trigger] self.adjacent(v, w)
            implies tree.contains_data(w as u32) && tree.data_depth(w as u32) <= tree.data_depth(
            v as u32,
        ) + 1 by {
            assert(visited[v]);
            assert(!in_pending(queue, head, v as u32));
        }
        assert forall|k: int, m: nat|
            0 <= k < tree.nodes().len() && #[trigger] self.connected_n(
                rid,
                tree.nodes()[k].data as int,
                m,
            ) implies m >= tree.depth(k) by {
            self.lemma_depth_lower_bound(tree, rid, tree.nodes()[k].data as int, m);
            tree.lemma_index_of_data_unique(k);
            assert(tree.data_depth(tree.nodes()[k].data) == tree.depth(k)) by {
                reveal(SpanningTree::data_depth);
            }
        }
        assert(self.spanning_tree_of(tree, rid));
    }

    /// Breadth-first layering: in a spanning tree of this graph, the
    /// discovery order never decreases in true graph distance from the
    /// root. An earlier node's distance (its depth) is a lower bound on
    /// the length of every path from the root to any later node, and a
    /// path of exactly that depth reaches the earlier node.
    pub proof fn lemma_bfs_layering(&self, t: SpanningTree, rid: int, k1: int, k2: int, m: nat)
        requires
            self.spanning_tree_of(t, rid),
            0 <= k1 <= k2 < t.nodes().len(),
            self.connected_n(rid, t.nodes()[k2].data as int, m),
        ensures
            t.depth(k1) <= m,
            self.connected_n(rid, t.nodes()[k1].data as int, t.depth(k1)),
    {
        assert(m >= t.depth(k2));
        assert(t.depth(k1) <= t.depth(k2));
    }

    /// On a connected graph — one where every id is reachable from the
    /// root — a spanning tree visits every id exactly once: it holds one
    /// node per graph node.
    pub proof fn lemma_connected_tree_spans_all(&self, t: SpanningTree, rid: int)
        requires
            self.wf(),
            self.spanning_tree_of(t, rid),
            forall|id: int| self.valid_id(id) ==> self.reachable(rid, id),
        ensures
            t.nodes().len() == self.n(),
    {
        let ids = Seq::new(t.nodes().len(), |k: int| t.nodes()[k].data as int);
        assert(ids.no_duplicates()) by {
            assert forall|i: int, j: int|
                0 <= i < ids.len() && 0 <= j < ids.len() && i != j implies ids[i] != ids[j] by {
                assert(t.nodes()[i].data != t.nodes()[j].data);
            }
        }
        ids.unique_seq_to_set();
        let range = vstd::set_lib::set_int_range(0, self.n());
        vstd::set_lib::lemma_int_range(0, self.n());
        assert(ids.to_set() =~= range) by {
            assert forall|x: int| ids.to_set().contains(x) implies range.contains(x) by {
                let k = choose|k: int| 0 <= k < ids.len() && ids[k] == x;
                assert(self.valid_id(t.nodes()[k].data as int));
            }
            assert forall|x: int| range.contains(x) implies ids.to_set().contains(x) by {
                assert(self.valid_id(x));
                assert(self.reachable(rid, x));
                assert(t.contains_data(x as u32));
                let k = choose|k: int|
                    0 <= k < t.nodes().len() && t.nodes()[k].data == (x as u32);
                assert(ids[k] == x);
                assert(ids.contains(x));
            }
        }
        assert(ids.to_set().len() == range.len());
        assert(range.len() == self.n());
        assert(ids.len() == ids.to_set().len());
        assert(ids.len() == t.nodes().len());
    }

    /// Two spanning trees of the same graph and root enumerate the same
    /// id set, so they have the same number of nodes.
    proof fn lemma_tree_lens_equal(&self, t1: SpanningTree, t2: SpanningTree, rid: int)
        requires
            self.wf(),
            self.spanning_tree_of(t1, rid),
            self.spanning_tree_of(t2, rid),
        ensures
            t1.nodes().len() == t2.nodes().len(),
    {
        let ids1 = Seq::new(t1.nodes().len(), |k: int| t1.nodes()[k].data as int);
        let ids2 = Seq::new(t2.nodes().len(), |k: int| t2.nodes()[k].data as int);
        assert(ids1.no_duplicates()) by {
            assert forall|i: int, j: int|
                0 <= i < ids1.len() && 0 <= j < ids1.len() && i != j implies ids1[i]
                != ids1[j] by {
                assert(t1.nodes()[i].data != t1.nodes()[j].data);
            }
        }
        assert(ids2.no_duplicates()) by {
            assert forall|i: int, j: int|
                0 <= i < ids2.len() && 0 <= j < ids2.len() && i != j implies ids2[i]
                != ids2[j] by {
                assert(t2.nodes()[i].data != t2.nodes()[j].data);
            }
        }
        ids1.unique_seq_to_set();
        ids2.unique_seq_to_set();
        assert(ids1.to_set() =~= ids2.to_set()) by {
            assert forall|x: int| ids1.to_set().contains(x) implies ids2.to_set().contains(x) by {
                let k = choose|k: int| 0 <= k < ids1.len() && ids1[k] == x;
                assert(self.valid_id(t1.nodes()[k].data as int));
                assert(self.reachable(rid, t1.nodes()[k].data as int));
                assert(t2.contains_data(x as u32));
                let k2 = choose|k2: int|
                    0 <= k2 < t2.nodes().len() && t2.nodes()[k2].data == (x as u32);
                assert(ids2[k2] == x);
                assert(ids2.contains(x));
            }
            assert forall|x: int| ids2.to_set().contains(x) implies ids1.to_set().contains(x) by {
                let k = choose|k: int| 0 <= k < ids2.len() && ids2[k] == x;
                assert(self.valid_id(t2.nodes()[k].data as int));
                assert(self.reachable(rid, t2.nodes()[k].data as int));
                assert(t1.contains_data(x as u32));
                let k2 = choose|k2: int|
                    0 <= k2 < t1.nodes().len() && t1.nodes()[k2].data == (x as u32);
                assert(ids1[k2] == x);
                assert(ids1.contains(x));
            }
        }
        assert(ids1.to_set().len() == ids2.to_set().len());
    }

    /// Positions below `k` agree between two spanning trees of the same
    /// graph and root: same graph ids and same parent links, position by
    /// position.
    proof fn lemma_tree_prefix_equal(&self, t1: SpanningTree, t2: SpanningTree, rid: int, k: int)
        requires
            self.wf(),
            self.spanning_tree_of(t1, rid),
            self.spanning_tree_of(t2, rid),
            t1.nodes().len() == t2.nodes().len(),
            0 <= k <= t1.nodes().len(),
        ensures
            forall|i: int|
                0 <= i < k ==> (#[trigger] t1.nodes()[i].data) == t2.nodes()[i].data
                    && t1.nodes()[i].parent == t2.nodes()[i].parent,
        decreases k,
    {
        if k > 0 {
            self.lemma_tree_prefix_equal(t1, t2, rid, k - 1);
            let m = k - 1;
            if m == 0 {
                assert(t1.nodes()[0].data as int == rid && t2.nodes()[0].data as int == rid);
                assert(t1.nodes()[0].data == t2.nodes()[0].data);
                assert(t1.nodes()[0].parent is None && t2.nodes()[0].parent is None);
            } else {
                let x = t1.nodes()[m].data;
                let y = t2.nodes()[m].data;
                let p1 = t1.parent_index(m);
                let p2 = t2.parent_index(m);
                assert(0 <= p1 < m && 0 <= p2 < m);
                assert(t1.nodes()[p1].data == t2.nodes()[p1].data);
                assert(t1.nodes()[p2].data == t2.nodes()[p2].data);
                // Where x sits in the other tree, and its parent there.
                assert(self.valid_id(x as int) && self.reachable(rid, x as int));
                assert(t2.contains_data(x));
                let m2 = choose|c: int| 0 <= c < t2.nodes().len() && t2.nodes()[c].data == x;
                assert(m2 >= m) by {
                    if m2 < m {
                        assert(t1.nodes()[m2].data == t2.nodes()[m2].data);
                        assert(t1.nodes()[m2].data == t1.nodes()[m].data);
                    }
                }
                let q2 = t2.parent_index(m2);
                assert(self.adjacent(t1.nodes()[p1].data as int, t1.nodes()[m].data as int));
                assert(q2 <= p1) by {
                    if q2 > p1 {
                        assert(!self.adjacent(t2.nodes()[p1].data as int, t2.nodes()[m2].data as int));
                    }
                }
                assert(q2 >= p1) by {
                    if q2 < p1 {
                        assert(self.adjacent(t2.nodes()[q2].data as int, t2.nodes()[m2].data as int));
                        assert(t1.nodes()[q2].data == t2.nodes()[q2].data);
                        assert(!self.adjacent(t1.nodes()[q2].data as int, t1.nodes()[m].data as int));
                    }
                }
                assert(q2 == p1);
                // Symmetrically for y in the first tree.
                assert(self.valid_id(y as int) && self.reachable(rid, y as int));
                assert(t1.contains_data(y));
                let m1 = choose|c: int| 0 <= c < t1.nodes().len() && t1.nodes()[c].data == y;
                assert(m1 >= m) by {
                    if m1 < m {
                        assert(t1.nodes()[m1].data == t2.nodes()[m1].data);
                        assert(t2.nodes()[m1].data == t2.nodes()[m].data);
                    }
                }
                let q1 = t1.parent_index(m1);
                assert(self.adjacent(t2.nodes()[p2].data as int, t2.nodes()[m].data as int));
                assert(q1 <= p2) by {
                    if q1 > p2 {
                        assert(!self.adjacent(t1.nodes()[p2].data as int, t1.nodes()[m1].data as int));
                    }
                }
                assert(q1 >= p2) by {
                    if q1 < p2 {
                        assert(self.adjacent(t1.nodes()[q1].data as int, t1.nodes()[m1].data as int));
                        assert(t1.nodes()[q1].data == t2.nodes()[q1].data);
                        assert(!self.adjacent(t2.nodes()[q1].data as int, t2.nodes()[m].data as int));
                    }
                }
                assert(q1 == p2);
                // If the two trees disagreed at this position, each id
                // would sit strictly later in the other tree, and the
                // (parent, neighbor-position) keys would have to grow in
                // both directions at once.
                if x != y {
                    assert(m2 > m) by {
                        if m2 == m {
                            assert(t2.nodes()[m].data == x);
                        }
                    }
                    assert(m1 > m) by {
                        if m1 == m {
                            assert(t1.nodes()[m].data == y);
                        }
                    }
                    assert(t1.parent_index(m) <= t1.parent_index(m1));
                    assert(t2.parent_index(m) <= t2.parent_index(m2));
                    assert(p1 <= p2 && p2 <= p1);
                    assert(p1 == p2);
                    let nb = self.neighbors_of(t1.nodes()[p1].data as int);
                    assert(t1.parent_index(m) == t1.parent_index(m1));
                    assert(first_index_of(nb, x) < first_index_of(nb, y));
                    assert(self.neighbors_of(t2.nodes()[p2].data as int) == nb);
                    assert(t2.parent_index(m) == t2.parent_index(m2));
                    assert(first_index_of(nb, y) < first_index_of(nb, x));
                    assert(false);
                }
                assert(x == y);
                assert(m2 == m) by {
                    t2.lemma_index_of_data_unique(m);
                    t2.lemma_index_of_data_unique(m2);
                }
                assert(t2.parent_index(m) == p1);
                assert(t1.nodes()[m].parent is Some && t2.nodes()[m].parent is Some);
                assert(t1.nodes()[m].parent->0 == t2.nodes()[m].parent->0);
                assert(t1.nodes()[m].parent == t2.nodes()[m].parent);
            }
            assert forall|i: int| 0 <= i < k implies (#[trigger] t1.nodes()[i].data)
                == t2.nodes()[i].data && t1.nodes()[i].parent == t2.nodes()[i].parent by {}
        }
    }

    /// The contract pins the traversal completely: any two spanning
    /// trees of the same graph and root are structurally identical —
    /// the same graph ids in the same discovery order, the same parent
    /// links, the same labels. Two runs on equal graphs therefore give
    /// identical trees; ties are broken by neighbor-enumeration order
    /// alone, never by id magnitude or by chance.
    pub proof fn lemma_spanning_tree_deterministic(
        &self,
        t1: SpanningTree,
        t2: SpanningTree,
        rid: int,
    )
        requires
            self.wf(),
            self.spanning_tree_of(t1, rid),
            self.spanning_tree_of(t2, rid),
        ensures
            t1.nodes().len() == t2.nodes().len(),
            forall|k: int|
                0 <= k < t1.nodes().len() ==> (#[trigger] t1.nodes()[k].data)
                    == t2.nodes()[k].data && t1.nodes()[k].parent == t2.nodes()[k].parent
                    && t1.nodes()[k].name@ == t2.nodes()[k].name@,
    {
        self.lemma_tree_lens_equal(t1, t2, rid);
        self.lemma_tree_prefix_equal(t1, t2, rid, t1.nodes().len() as int);
        assert forall|k: int| 0 <= k < t1.nodes().len() implies (#[trigger] t1.nodes()[k].name)@
            == t2.nodes()[k].name@ by {
            assert(t1.nodes()[k].data == t2.nodes()[k].data);
            assert(t1.nodes()[k].name@ == self.item_at(t1.nodes()[k].data as int).spec_name());
            assert(t2.nodes()[k].name@ == self.item_at(t2.nodes()[k].data as int).spec_name());
        }
    }

    /// Make a spanning tree from the current factor graph with the
    /// specified root variable.
    ///
    /// The traversal is breadth-first over the bipartite incidence
    /// structure: the resulting tree holds exactly the ids reachable from
    /// the root, each exactly once, in an order that never decreases in
    /// graph distance from the root, and each node's depth is exactly
    /// that distance. Ties are deterministic: a node's parent is the
    /// earliest-discovered neighbor, and siblings follow the parent's
    /// neighbor-enumeration order, never id magnitude.
    #[verifier::rlimit(100)]
    pub fn make_spanning_tree(&self, var: &str) -> (r: Result<SpanningTree, GraphError>)
        requires
            self.wf(),
        ensures
            match r {
                Ok(t) => {
                    &&& self.has_var_named(var@)
                    &&& self.is_variable_id(self.var_id_named(var@))
                    &&& self.var_name(self.var_id_named(var@)) == var@
                    &&& self.spanning_tree_of(t, self.var_id_named(var@))
                },
                Err(e) => {
                    &&& !self.has_var_named(var@)
                    &&& e matches GraphError::UnknownRoot(w) && w@ == var@
                },
            },
    {
        let owned = var.to_owned();
        let root_idx = match self.find_variable(&owned) {
            Some(j) => j,
            None => {
                return Err(GraphError::UnknownRoot(owned));
            },
        };
        let ghost rid = root_idx as int;
        proof {
            assert(self.has_var_named(var@));
            let j2 = self.var_id_named(var@);
            assert(self.is_variable_id(j2) && self.var_name(j2) == var@);
            assert(j2 == rid);
        }
        let root_id = root_idx as u32;
        let root_name = match &self.items[root_idx] {
            FactorGraphItem::Variable(v) => v.name.clone(),
            FactorGraphItem::Factor(_) => vstd::pervasive::unreached(),
        };
        let mut tree = SpanningTree::new(root_id, root_name.as_str(), self.items.len());
        let mut visited: Vec<bool> = Vec::new();
        let n_items = self.items.len();
        while visited.len() < n_items
            invariant
                visited@.len() <= n_items,
                forall|id: int| 0 <= id < visited@.len() ==> !(#[trigger] visited@[id]),
            decreases n_items - visited@.len(),
        {
            visited.push(false);
        }
        visited[root_idx] = true;
        let mut queue: Vec<u32> = Vec::new();
        queue.push(root_id);
        let mut head: usize = 0;
        proof {
            self.lemma_connected_self(rid);
            assert(tree.depth(0) == 0);
            tree.lemma_index_of_data_unique(0);
            assert(tree.data_depth(root_id) == 0) by {
                reveal(SpanningTree::data_depth);
            }
            assert forall|id: int| 0 <= id < self.n() implies ((#[trigger] visited@[id])
                <==> tree.contains_data(id as u32)) by {
                if id == rid {
                    assert(tree.nodes()[0].data == id as u32);
                } else {
                    if tree.contains_data(id as u32) {
                        let k = choose|k: int|
                            0 <= k < tree.nodes().len() && tree.nodes()[k].data == (id as u32);
                        assert(k == 0);
                    }
                }
            }
            assert(in_pending(queue@, 0, root_id)) by {
                assert(queue@[0] == root_id);
            }
            assert(self.bfs_inv(rid, tree, visited@, queue@, 0));
        }
        while head < queue.len()
            invariant
                self.wf(),
                self.valid_id(rid),
                head <= queue@.len(),
                self.bfs_inv(rid, tree, visited@, queue@, head as int),
                forall|c: int|
                    1 <= c < tree.nodes().len() ==> #[trigger] tree.parent_index(c) < head,
            decreases count_false(visited@), queue@.len() - head,
        {
            let ghost cf0 = count_false(visited@);
            let ghost qlen0 = queue@.len();
            let u = queue[head];
            let ghost u_int = u as int;
            let ghost ud = tree.data_depth(u);
            proof {
                assert(in_pending(queue@, head as int, u)) by {
                    assert(queue@[head as int] == u);
                }
            }
            let nbrs = self.neighbor_ids(u);
            let mut ni: usize = 0;
            while ni < nbrs.len()
                invariant
                    self.wf(),
                    self.valid_id(rid),
                    self.valid_id(u_int),
                    u_int == u as int,
                    head < queue@.len(),
                    queue@[head as int] == u,
                    self.bfs_inv(rid, tree, visited@, queue@, head as int),
                    ud == tree.data_depth(u),
                    ni <= nbrs@.len(),
                    forall|b: u32| nbrs@.contains(b) <==> self.adjacent(u_int, b as int),
                    forall|s: int|
                        0 <= s < nbrs@.len() ==> self.adjacent(u_int, #[trigger] nbrs@[s] as int),
                    forall|s: int|
                        0 <= s < ni ==> visited@[#[trigger] nbrs@[s] as int] && tree.data_depth(
                            nbrs@[s],
                        ) <= ud + 1,
                    forall|k: int|
                        0 <= k < tree.nodes().len() ==> #[trigger] tree.depth(k) <= ud + 1,
                    nbrs@ == self.neighbors_of(u_int),
                    forall|c: int|
                        1 <= c < tree.nodes().len() && #[trigger] tree.parent_index(c)
                            == head ==> first_index_of(nbrs@, tree.nodes()[c].data) < ni,
                    count_false(visited@) < cf0 || (count_false(visited@) == cf0 && queue@.len()
                        == qlen0),
                decreases nbrs@.len() - ni,
            {
                let b = nbrs[ni];
                proof {
                    assert(nbrs@.contains(nbrs@[ni as int]));
                    assert(self.adjacent(u_int, b as int));
                }
                if !visited[b as usize] {
                    let bitem = &self.items[b as usize];
                    let bname = bitem.get_name();
                    let ghost t0 = tree;
                    let ghost v0 = visited@;
                    let ghost q0 = queue@;
                    proof {
                        assert(tree.contains_data(u));
                    }
                    tree.add_child(u, b, bname.as_str());
                    visited[b as usize] = true;
                    queue.push(b);
                    proof {
                        assert(SpanningTree::child_extended(
                            t0,
                            tree,
                            u,
                            b,
                            self.item_at(b as int).spec_name(),
                        ));
                        self.lemma_bfs_discover(
                            rid,
                            t0,
                            tree,
                            v0,
                            visited@,
                            q0,
                            queue@,
                            head as int,
                            u,
                            b,
                            ud,
                            nbrs@,
                            ni as int,
                        );
                        lemma_count_false_update(v0, b as int);
                        assert(queue@[head as int] == q0[head as int]);
                        assert forall|s: int| 0 <= s < ni + 1 implies visited@[
                            #[trigger] nbrs@[s] as int] && tree.data_depth(nbrs@[s]) <= ud + 1 by {
                            if s < ni {
                                assert(v0[nbrs@[s] as int]);
                                assert(t0.contains_data(nbrs@[s]));
                                assert(visited@[nbrs@[s] as int]);
                            } else {
                                assert(nbrs@[s] == b);
                            }
                        }
                    }
                } else {
                    proof {
                        // An already-visited neighbor sits at most one
                        // level below the popped node.
                        if in_pending(queue@, head as int, b) {
                            let s = choose|s: int|
                                head <= s < queue@.len() && queue@[s] == b;
                            assert(tree.data_depth(queue@[head as int]) <= tree.data_depth(
                                queue@[s],
                            ) && tree.data_depth(queue@[s]) <= tree.data_depth(
                                queue@[head as int],
                            ) + 1);
                        } else {
                            assert(tree.data_depth(b) <= tree.data_depth(queue@[head as int]));
                        }
                        assert(tree.data_depth(b) <= ud + 1);
                    }
                }
                ni = ni + 1;
            }
            proof {
                self.lemma_bfs_pop(rid, tree, visited@, queue@, head as int, u, ud, nbrs@);
            }
            head = head + 1;
            proof {
                assert forall|c: int|
                    1 <= c < tree.nodes().len() implies #[trigger] tree.parent_index(c)
                    < head by {
                    assert(tree.parent_index(c) <= head - 1);
                }
            }
        }
        proof {
            self.lemma_bfs_finish(rid, tree, visited@, queue@, head as int);
        }
        Ok(tree)
    }

    /// All assigned ids, in order: exactly `0 .. next_id`, with no gaps.
    pub fn all_ids(&self) -> (r: Vec<u32>)
        requires
            self.wf(),
        ensures
            r@.len() == self.n(),
            forall|k: int| 0 <= k < r@.len() ==> r@[k] == k as u32,
    {
        let mut ids: Vec<u32> = Vec::new();
        let mut i: usize = 0;
        while i < self.items.len()
            invariant
                i <= self.items@.len(),
                self.items@.len() <= u32::MAX,
                ids@.len() == i,
                forall|k: int| 0 <= k < i ==> ids@[k] == k as u32,
            decreases self.items@.len() - i,
        {
            ids.push(i as u32);
            i = i + 1;
        }
        ids
    }
}

} // verus!
