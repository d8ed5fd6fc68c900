//! Evaluation of an expression tree and collection of its variables.

use vstd::prelude::*;
use vstd::hash_map::StringHashMap;
use crate::ast::AstNode;
use crate::names::{insert_name, strictly_sorted};

verus! {

/// Truth values for variable names. A name without a value counts as false.
pub struct Assignment {
    values: StringHashMap<bool>,
}

impl View for Assignment {
    type V = Map<Seq<char>, bool>;

    closed spec fn view(&self) -> Map<Seq<char>, bool> {
        self.values@
    }
}

impl Assignment {
    /// The assignment that gives no name a value.
    pub fn new() -> (r: Assignment)
        ensures
            r@ == Map::<Seq<char>, bool>::empty(),
    {
        Assignment { values: StringHashMap::new() }
    }

    /// Gives `name` the value `value`, in place of any earlier one.
    pub fn insert(&mut self, name: &str, value: bool)
        ensures
            final(self)@ == old(self)@.insert(name@, value),
    {
        self.values.insert(name.to_owned(), value);
    }

    /// The value given to `name`, if any.
    pub fn get(&self, name: &str) -> (r: Option<bool>)
        ensures
            r == (if self@.contains_key(name@) {
                Some(self@[name@])
            } else {
                None
            }),
    {
        match self.values.get(name) {
            Some(value) => Some(*value),
            None => None,
        }
    }

    /// The number of names that have a value.
    pub fn len(&self) -> (r: usize)
        ensures
            r == self@.len(),
    {
        self.values.len()
    }
}

/// The distinct variable names of `expr`, each once, in the order of names.
pub fn find_variables(expr: &AstNode) -> (vars: Vec<String>)
    ensures
        strictly_sorted(vars.deep_view()),
        vars.deep_view().to_set() == expr@.vars(),
{
    let mut vars: Vec<String> = Vec::new();
    assert(vars.deep_view().to_set() =~= Set::<Seq<char>>::empty());
    traverse_expression_tree(expr, &mut vars);
    assert(Set::<Seq<char>>::empty().union(expr@.vars()) =~= expr@.vars());
    vars
}

/// Adds every variable name below `expr` to the sorted set `vars`.
fn traverse_expression_tree(expr: &AstNode, vars: &mut Vec<String>)
    requires
        strictly_sorted(old(vars).deep_view()),
    ensures
        strictly_sorted(final(vars).deep_view()),
        final(vars).deep_view().to_set() == old(vars).deep_view().to_set().union(expr@.vars()),
    decreases expr,
{
    let ghost before = vars.deep_view().to_set();
    match expr {
        AstNode::Var(name) => {
            insert_name(vars, name.as_str());
            assert(before.insert(name@) =~= before.union(expr@.vars()));
        },
        AstNode::Not(operand) => traverse_expression_tree(operand, vars),
        AstNode::Or(left, right) => {
            traverse_expression_tree(left, vars);
            traverse_expression_tree(right, vars);
            assert(before.union(left@.vars()).union(right@.vars()) =~= before.union(
                expr@.vars(),
            ));
        },
        AstNode::And(left, right) => {
            traverse_expression_tree(left, vars);
            traverse_expression_tree(right, vars);
            assert(before.union(left@.vars()).union(right@.vars()) =~= before.union(
                expr@.vars(),
            ));
        },
    }
}

/// Evaluates `expr` under `vars`. Both operands of a binary node are always
/// evaluated, and a variable without a value is false.
pub fn evaluate(expr: &AstNode, vars: &Assignment) -> (r: bool)
    ensures
        r == expr@.eval(vars@),
    decreases expr,
{
    match expr {
        AstNode::Var(name) => match vars.get(name.as_str()) {
            Some(value) => value,
            None => false,
        },
        AstNode::Not(operand) => !evaluate(operand, vars),
        AstNode::Or(left, right) => {
            let l = evaluate(left, vars);
            let r = evaluate(right, vars);
            l || r
        },
        AstNode::And(left, right) => {
            let l = evaluate(left, vars);
            let r = evaluate(right, vars);
            l && r
        },
    }
}

} // verus!
