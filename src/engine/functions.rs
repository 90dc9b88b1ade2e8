//! Evaluation contexts and the errors of function evaluation.
use vstd::prelude::*;

use crate::assoc::{assoc_get, assoc_map};
use crate::engine::executor::Bindings;
use crate::graph::Graph;

pub mod aggregate;

pub use aggregate::AggregateEvaluator;

verus! {

/// Errors of function evaluation.
#[derive(Debug)]
pub enum FunctionError {
    NotImplemented(String),
    InvalidArguments(String, String),
    TypeError(String, String),
    PropertyNotFound(String),
    VariableNotBound(String),
}

pub type FunctionResult<T> = Result<T, FunctionError>;

/// Variables bound to node indices, for aggregate evaluation.
#[derive(Debug)]
pub struct EvalContext {
    bindings: Vec<(String, usize)>,
}

impl View for EvalContext {
    type V = Map<Seq<char>, usize>;

    closed spec fn view(&self) -> Map<Seq<char>, usize> {
        assoc_map(self.bindings@)
    }
}

impl EvalContext {
    pub fn new() -> (r: EvalContext)
        ensures
            r@ == Map::<Seq<char>, usize>::empty(),
    {
        EvalContext { bindings: Vec::new() }
    }

    /// Binds `variable` to a node index, replacing an earlier binding.
    pub fn bind(&mut self, variable: String, node_idx: usize)
        ensures
            final(self)@ == old(self)@.insert(variable@, node_idx),
    {
        self.bindings.push((variable, node_idx));
        proof {
            assert(self.bindings@.drop_last() == old(self).bindings@);
        }
    }

    pub fn get_binding(&self, variable: &str) -> (r: Option<usize>)
        ensures
            r matches Some(i) ==> self@.contains_key(variable@) && self@[variable@] == i,
            r is None ==> !self@.contains_key(variable@),
    {
        match assoc_get(&self.bindings, variable) {
            Some(i) => Some(*i),
            None => None,
        }
    }

    pub fn has_binding(&self, variable: &str) -> (r: bool)
        ensures
            r == self@.contains_key(variable@),
    {
        assoc_get(&self.bindings, variable).is_some()
    }

    /// The entries, in the order they were bound; a later entry of a
    /// variable shadows an earlier one.
    pub fn bindings(&self) -> (r: &Vec<(String, usize)>)
        ensures
            assoc_map(r@) == self@,
    {
        &self.bindings
    }

    pub fn from_bindings(bindings: Vec<(String, usize)>) -> (r: EvalContext)
        ensures
            r@ == assoc_map(bindings@),
    {
        EvalContext { bindings }
    }

    /// A copy with one more binding.
    pub fn with_binding(&self, variable: String, node_idx: usize) -> (r: EvalContext)
        ensures
            r@ == self@.insert(variable@, node_idx),
    {
        let mut entries: Vec<(String, usize)> = Vec::new();
        let mut i: usize = 0;
        while i < self.bindings.len()
            invariant
                i <= self.bindings@.len(),
                entries@ == self.bindings@.subrange(0, i as int),
            decreases self.bindings.len() - i,
        {
            let key = self.bindings[i].0.clone();
            entries.push((key, self.bindings[i].1));
            i = i + 1;
            proof {
                assert(entries@ == self.bindings@.subrange(0, i as int));
            }
        }
        proof {
            assert(entries@ == self.bindings@);
        }
        let mut ctx = EvalContext { bindings: entries };
        ctx.bind(variable, node_idx);
        ctx
    }
}

/// The graph and the bindings that an expression is evaluated against.
#[derive(Debug)]
pub struct ExpressionContext<'a> {
    pub graph: &'a Graph,
    pub bindings: &'a Bindings,
}

} // verus!
