//! The expression tree and its mathematical model.

use vstd::prelude::*;

verus! {

/// A Boolean expression as the parser builds it. Composite nodes own their
/// operands; a variable is known by its name alone, wherever it occurs.
#[derive(Debug, PartialEq)]
pub enum AstNode {
    Var(String),
    Not(Box<AstNode>),
    Or(Box<AstNode>, Box<AstNode>),
    And(Box<AstNode>, Box<AstNode>),
}

/// The model of an [`AstNode`]: the same tree with each name as a sequence of
/// characters.
pub enum Expr {
    Var(Seq<char>),
    Not(Box<Expr>),
    Or(Box<Expr>, Box<Expr>),
    And(Box<Expr>, Box<Expr>),
}

/// The model of `node`, built node by node.
pub open spec fn model_of(node: AstNode) -> Expr
    decreases node,
{
    match node {
        AstNode::Var(name) => Expr::Var(name@),
        AstNode::Not(operand) => Expr::Not(Box::new(model_of(*operand))),
        AstNode::Or(left, right) => Expr::Or(
            Box::new(model_of(*left)),
            Box::new(model_of(*right)),
        ),
        AstNode::And(left, right) => Expr::And(
            Box::new(model_of(*left)),
            Box::new(model_of(*right)),
        ),
    }
}

impl View for AstNode {
    type V = Expr;

    open spec fn view(&self) -> Expr {
        model_of(*self)
    }
}

impl Expr {
    /// The names that occur in the expression.
    pub open spec fn vars(self) -> Set<Seq<char>>
        decreases self,
    {
        match self {
            Expr::Var(name) => set![name],
            Expr::Not(operand) => operand.vars(),
            Expr::Or(left, right) => left.vars().union(right.vars()),
            Expr::And(left, right) => left.vars().union(right.vars()),
        }
    }

    /// The truth value under `assignment`; a name that it omits is false.
    pub open spec fn eval(self, assignment: Map<Seq<char>, bool>) -> bool
        decreases self,
    {
        match self {
            Expr::Var(name) => assignment.contains_key(name) && assignment[name],
            Expr::Not(operand) => !operand.eval(assignment),
            Expr::Or(left, right) => left.eval(assignment) || right.eval(assignment),
            Expr::And(left, right) => left.eval(assignment) && right.eval(assignment),
        }
    }

    /// Every expression names finitely many variables, and at least one.
    pub proof fn lemma_vars_finite(self)
        ensures
            self.vars().finite(),
            self.vars().len() >= 1,
        decreases self,
    {
        match self {
            Expr::Var(name) => {
                assert(set![name].len() == 1);
            },
            Expr::Not(operand) => {
                operand.lemma_vars_finite();
            },
            Expr::Or(left, right) => {
                left.lemma_vars_finite();
                right.lemma_vars_finite();
                vstd::set_lib::lemma_len_union_ind(left.vars(), right.vars());
                vstd::set_lib::lemma_len_subset(left.vars(), left.vars().union(right.vars()));
            },
            Expr::And(left, right) => {
                left.lemma_vars_finite();
                right.lemma_vars_finite();
                vstd::set_lib::lemma_len_union_ind(left.vars(), right.vars());
                vstd::set_lib::lemma_len_subset(left.vars(), left.vars().union(right.vars()));
            },
        }
    }

    /// The value of an expression depends only on the variables it names.
    pub proof fn lemma_eval_agrees(self, a: Map<Seq<char>, bool>, b: Map<Seq<char>, bool>)
        requires
            forall|name: Seq<char>| #[trigger]
                self.vars().contains(name) ==> (a.contains_key(name) && a[name]) == (
                b.contains_key(name) && b[name]),
        ensures
            self.eval(a) == self.eval(b),
        decreases self,
    {
        match self {
            Expr::Var(name) => {
                assert(self.vars().contains(name));
            },
            Expr::Not(operand) => {
                assert(operand.vars() == self.vars());
                operand.lemma_eval_agrees(a, b);
            },
            Expr::Or(left, right) => {
                assert forall|name: Seq<char>| #[trigger] left.vars().contains(name) implies (
                a.contains_key(name) && a[name]) == (b.contains_key(name) && b[name]) by {
                    assert(self.vars().contains(name));
                }
                assert forall|name: Seq<char>| #[trigger] right.vars().contains(name) implies (
                a.contains_key(name) && a[name]) == (b.contains_key(name) && b[name]) by {
                    assert(self.vars().contains(name));
                }
                left.lemma_eval_agrees(a, b);
                right.lemma_eval_agrees(a, b);
            },
            Expr::And(left, right) => {
                assert forall|name: Seq<char>| #[trigger] left.vars().contains(name) implies (
                a.contains_key(name) && a[name]) == (b.contains_key(name) && b[name]) by {
                    assert(self.vars().contains(name));
                }
                assert forall|name: Seq<char>| #[trigger] right.vars().contains(name) implies (
                a.contains_key(name) && a[name]) == (b.contains_key(name) && b[name]) by {
                    assert(self.vars().contains(name));
                }
                left.lemma_eval_agrees(a, b);
                right.lemma_eval_agrees(a, b);
            },
        }
    }

    /// A name that an assignment omits counts as false: binding it to false
    /// changes the value of no expression.
    pub proof fn lemma_absent_is_false(self, assignment: Map<Seq<char>, bool>, x: Seq<char>)
        requires
            !assignment.contains_key(x),
        ensures
            self.eval(assignment) == self.eval(assignment.insert(x, false)),
    {
        self.lemma_eval_agrees(assignment, assignment.insert(x, false));
    }
}

} // verus!
