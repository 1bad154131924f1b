//! Factor nodes: constraints defined over a scope of named variables,
//! carrying an opaque potential value that the graph stores but never
//! interprets.

use vstd::prelude::*;

verus! {

/// A factor over several variables.
///
/// `variables` is the factor's scope: the names of the variables it is
/// defined over, in the order the caller gave them. `potential` is an
/// opaque scoring capability injected by the caller; the graph only
/// stores it and hands it back.
pub struct Factor<P> {
    /// Registry id of this factor.
    pub id: u32,
    /// Names of the variables in this factor's scope, in order.
    pub variables: Vec<String>,
    /// Opaque potential value attached to this factor.
    pub potential: P,
}

/// The label a factor renders as: the debug form of the given scope
/// names between `factor<` and `>` (for a scope of `a` and `b`:
/// `factor<["a", "b"]>`). It depends on the names alone.
pub uninterp spec fn scope_label_of(names: Seq<Seq<char>>) -> Seq<char>;

impl<P> Factor<P> {
    /// Create a new factor with the given id, scope and potential.
    pub fn new(id: u32, variables: Vec<String>, potential: P) -> (f: Factor<P>)
        ensures
            f.id == id,
            f.variables == variables,
            f.potential == potential,
    {
        Factor { id, variables, potential }
    }

    /// The names of the variables in this factor's scope.
    pub fn get_variables(&self) -> (r: &Vec<String>)
        ensures
            *r == self.variables,
    {
        &self.variables
    }

    /// Relies on std's formatter: the scope vector's `Debug` form is a
    /// pure function of the names it holds, the same in every process
    /// and on every machine.
    #[verifier::external_body]
    fn debug_label(variables: &Vec<String>) -> (r: String)
        ensures
            r@ == scope_label_of(variables.deep_view()),
    {
        format!("factor<{:?}>", variables)
    }

    /// Synthesize this factor's display label from its scope.
    pub fn label(&self) -> (r: String)
        ensures
            r@ == scope_label_of(self.variables.deep_view()),
    {
        Self::debug_label(&self.variables)
    }
}

} // verus!
