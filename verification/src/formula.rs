//! The formulas that the minimiser of `quine_mc_cluskey` takes and returns.

use vstd::prelude::*;
use quine_mc_cluskey::Bool;
use crate::logic::bit;

verus! {

/// Makes `quine_mc_cluskey::Bool` known to the verifier with its six
/// variants, so that verified code builds and reads such values itself.
#[verifier::external_type_specification]
pub struct ExBool(Bool);

/// The model of a [`Bool`]: a formula over numbered terms.
pub enum Formula {
    True,
    False,
    Term(u8),
    And(Seq<Formula>),
    Or(Seq<Formula>),
    Not(Box<Formula>),
}

/// The formula that `b` stands for.
pub open spec fn shape_of(b: Bool) -> Formula
    decreases b,
{
    match b {
        Bool::True => Formula::True,
        Bool::False => Formula::False,
        Bool::Term(t) => Formula::Term(t),
        Bool::And(items) => Formula::And(
            Seq::new(
                items@.len(),
                |k: int|
                    if 0 <= k < items@.len() {
                        shape_of(items@[k])
                    } else {
                        Formula::True
                    },
            ),
        ),
        Bool::Or(items) => Formula::Or(
            Seq::new(
                items@.len(),
                |k: int|
                    if 0 <= k < items@.len() {
                        shape_of(items@[k])
                    } else {
                        Formula::True
                    },
            ),
        ),
        Bool::Not(inner) => Formula::Not(Box::new(shape_of(*inner))),
    }
}

/// The formulas that a list of [`Bool`] stands for.
pub open spec fn shapes_of(items: Seq<Bool>) -> Seq<Formula> {
    Seq::new(items.len(), |k: int| shape_of(items[k]))
}

impl Formula {
    /// Whether term `t` occurs in the formula.
    pub open spec fn mentions(self, t: u8) -> bool
        decreases self,
    {
        match self {
            Formula::True => false,
            Formula::False => false,
            Formula::Term(u) => u == t,
            Formula::And(items) => exists|k: int|
                0 <= k < items.len() && (#[trigger] items[k]).mentions(t),
            Formula::Or(items) => exists|k: int|
                0 <= k < items.len() && (#[trigger] items[k]).mentions(t),
            Formula::Not(inner) => inner.mentions(t),
        }
    }

    /// The truth value where term `t` has bit `t` of `row`.
    pub open spec fn holds(self, row: nat) -> bool
        decreases self,
    {
        match self {
            Formula::True => true,
            Formula::False => false,
            Formula::Term(t) => bit(row, t as nat),
            Formula::And(items) => forall|k: int|
                0 <= k < items.len() ==> (#[trigger] items[k]).holds(row),
            Formula::Or(items) => exists|k: int|
                0 <= k < items.len() && (#[trigger] items[k]).holds(row),
            Formula::Not(inner) => !inner.holds(row),
        }
    }

    /// The text of the formula with `labels[t]` for term `t`: the items of a
    /// conjunction joined by `" & "`, those of a disjunction by `" | "`, a
    /// negation marked by `!`, and nothing put in brackets.
    pub open spec fn render(self, labels: Seq<Seq<char>>) -> Seq<char>
        decreases self,
    {
        match self {
            Formula::True => "true"@,
            Formula::False => "false"@,
            Formula::Term(t) => if (t as int) < labels.len() {
                labels[t as int]
            } else {
                Seq::empty()
            },
            Formula::And(items) => join(render_each(items, labels), " & "@),
            Formula::Or(items) => join(render_each(items, labels), " | "@),
            Formula::Not(inner) => "!"@ + inner.render(labels),
        }
    }
}

/// The text of each of `items`, as [`Formula::render`] gives it.
pub open spec fn render_each(items: Seq<Formula>, labels: Seq<Seq<char>>) -> Seq<Seq<char>>
    decreases items,
{
    Seq::new(
        items.len(),
        |k: int|
            if 0 <= k < items.len() {
                items[k].render(labels)
            } else {
                Seq::empty()
            },
    )
}

/// The parts in their order with `separator` between each two.
pub open spec fn join(parts: Seq<Seq<char>>, separator: Seq<char>) -> Seq<char>
    decreases parts.len(),
{
    if parts.len() == 0 {
        Seq::empty()
    } else if parts.len() == 1 {
        parts[0]
    } else {
        join(parts.drop_last(), separator) + separator + parts.last()
    }
}

/// Term `t` as it is or negated.
pub open spec fn literal(t: u8, positive: bool) -> Formula {
    if positive {
        Formula::Term(t)
    } else {
        Formula::Not(Box::new(Formula::Term(t)))
    }
}

/// The conjunction that holds on row `one` alone of a table of `n` terms.
pub open spec fn minterm(one: usize, n: nat) -> Formula {
    Formula::And(Seq::new(n, |b: int| literal(b as u8, bit(one as nat, b as nat))))
}

/// The disjunction of the minterms of the rows `ones`.
pub open spec fn sum_of_minterms(ones: Seq<usize>, n: nat) -> Formula {
    Formula::Or(Seq::new(ones.len(), |k: int| minterm(ones[k], n)))
}

/// The minimal sums of products that `Bool::simplify` finds for a formula.
pub uninterp spec fn minimal_forms(f: Formula) -> Seq<Formula>;

/// `Bool::simplify` of `quine_mc_cluskey`: Quine-McCluskey followed by
/// Petrick's method. It numbers the rows of its table in 32 bits and has the
/// terms of the formula named 0, 1, 2 and so on without a gap, so the formula
/// may use the terms 0 to 30 at most. Its result is a function of the formula.
/// Three facts are read off its source: it returns a form at least (`False`
/// alone, `True` alone, or every cover that has the least length there is);
/// a formula that holds on no row gives `False` alone; and a result has no
/// term that the formula lacks.
pub assume_specification[ Bool::simplify ](b: &Bool) -> (r: Vec<Bool>)
    requires
        forall|t: u8| shape_of(*b).mentions(t) ==> t < 31,
        forall|t: u8, u: u8| shape_of(*b).mentions(t) && u < t ==> shape_of(*b).mentions(u),
    ensures
        shapes_of(r@) == minimal_forms(shape_of(*b)),
        r@.len() >= 1,
        (forall|row: u32| !shape_of(*b).holds(row as nat)) ==> shapes_of(r@) == seq![Formula::False],
        forall|k: int, t: u8|
            0 <= k < r@.len() && #[trigger] shape_of(r@[k]).mentions(t) ==> shape_of(*b).mentions(t),
;

} // verus!
