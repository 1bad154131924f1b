//! Variable nodes: named entities with a finite domain of admissible values.

use vstd::prelude::*;

verus! {

/// A single discrete variable of the factor graph.
///
/// The `name` is the external handle callers use (for lookups and as a
/// spanning-tree root); the `id` is the internal handle shared with the
/// graph's registry. `factor_ids` records, in insertion order, the id of
/// every factor whose scope includes this variable.
#[derive(Debug)]
pub struct DiscreteVariable<T> {
    /// Registry id of this variable.
    pub id: u32,
    /// Unique, immutable name.
    pub name: String,
    /// Labels of the admissible values, in domain order.
    pub val_names: Vec<T>,
    /// Indices `0..val_names.len()` of the admissible values.
    pub domain: Vec<u32>,
    /// Ids of the factors incident to this variable, in insertion order.
    pub factor_ids: Vec<u32>,
}

impl<T> DiscreteVariable<T> {
    /// Create a new variable with the given id, name and value labels.
    /// It starts with no incident factors.
    pub fn new(id: u32, name: &str, val_names: Vec<T>) -> (v: DiscreteVariable<T>)
        requires
            val_names@.len() <= u32::MAX,
        ensures
            v.id == id,
            v.name@ == name@,
            v.val_names == val_names,
            v.domain@ == Seq::new(val_names@.len(), |k: int| k as u32),
            v.factor_ids@ == Seq::<u32>::empty(),
    {
        let num_names = val_names.len();
        let mut domain: Vec<u32> = Vec::new();
        let mut k: usize = 0;
        while k < num_names
            invariant
                k <= num_names,
                num_names == val_names@.len(),
                num_names <= u32::MAX,
                domain@ == Seq::new(k as nat, |j: int| j as u32),
            decreases num_names - k,
        {
            domain.push(k as u32);
            k = k + 1;
            proof {
                assert(domain@ =~= Seq::new(k as nat, |j: int| j as u32));
            }
        }
        DiscreteVariable {
            id,
            name: name.to_owned(),
            val_names,
            domain,
            factor_ids: Vec::new(),
        }
    }

    /// Get this variable's id.
    pub fn get_var_id(&self) -> (r: u32)
        ensures
            r == self.id,
    {
        self.id
    }

    /// Get this variable's name.
    pub fn get_name(&self) -> (r: String)
        ensures
            r@ == self.name@,
    {
        self.name.clone()
    }

    /// Get the ids of the factors associated to this variable.
    pub fn get_factors(&self) -> (r: &Vec<u32>)
        ensures
            *r == self.factor_ids,
    {
        &self.factor_ids
    }
}

} // verus!
