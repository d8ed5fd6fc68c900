//! The truth table of an expression and its minimal sums of products.

use vstd::prelude::*;
use vstd::arithmetic::div_mod::lemma_div_denominator;
use vstd::arithmetic::power2::{
    lemma2_to64,
    lemma_pow2_pos,
    lemma_pow2_strictly_increases,
    lemma_pow2_unfold,
    pow2,
};
use quine_mc_cluskey::Bool;
use crate::ast::{AstNode, Expr};
use crate::eval::{evaluate, find_variables, Assignment};
use crate::formula::{
    join,
    literal,
    minimal_forms,
    minterm,
    render_each,
    shape_of,
    shapes_of,
    sum_of_minterms,
    Formula,
};
use crate::implicants::{simplify_rows, wide_solutions};
use crate::names::{lemma_sorted_no_duplicates, lemma_sorted_unique, strictly_sorted};

verus! {

/// The most variables for which a truth table is drawn up.
pub const MAX_VARIABLES: usize = 32;

/// Bit `b` of the number `i`, the least significant being bit 0.
pub open spec fn bit(i: nat, b: nat) -> bool {
    (i / pow2(b)) % 2 == 1
}

/// The assignment that row `i` of the table over `names` stands for: the name
/// at position `b` has bit `b` of `i`.
pub open spec fn row(names: Seq<Seq<char>>, i: nat) -> Map<Seq<char>, bool> {
    Map::new(
        |name: Seq<char>| names.contains(name),
        |name: Seq<char>| bit(i, names.index_of(name) as nat),
    )
}

/// No position after `b` and before `upto` holds the name at `b`.
pub open spec fn last_among(names: Seq<Seq<char>>, b: int, upto: int) -> bool {
    forall|c: int| b < c < upto ==> names[c] != names[b]
}

/// `ones` lists, in rising order, the rows of the table over `names` on which
/// `expr` is true.
pub open spec fn lists_ones(ones: Seq<usize>, expr: Expr, names: Seq<Seq<char>>) -> bool {
    &&& forall|p: int, q: int| 0 <= p < q < ones.len() ==> ones[p] < ones[q]
    &&& forall|i: usize|
        ones.contains(i) <==> (i < pow2(names.len()) && expr.eval(row(names, i as nat)))
}

/// Over distinct names, row `i` gives the name at position `b` bit `b` of `i`.
pub proof fn lemma_row_value(names: Seq<Seq<char>>, i: nat, b: int)
    requires
        names.no_duplicates(),
        0 <= b < names.len(),
    ensures
        row(names, i).dom() == names.to_set(),
        row(names, i).contains_key(names[b]),
        row(names, i)[names[b]] == bit(i, b as nat),
{
    assert(row(names, i).dom() =~= names.to_set());
    assert(names.contains(names[b]));
    let k = names.index_of(names[b]);
    assert(0 <= k < names.len() && names[k] == names[b]);
}

/// The variable names of `expr` in their order: the columns of its table.
pub open spec fn table_names(expr: Expr) -> Seq<Seq<char>> {
    choose|names: Seq<Seq<char>>| strictly_sorted(names) && names.to_set() == expr.vars()
}

/// The rows of the table of `expr` on which it is true, in rising order.
pub open spec fn table_ones(expr: Expr) -> Seq<usize> {
    choose|ones: Seq<usize>| lists_ones(ones, expr, table_names(expr))
}

/// Two rising lists with the same members agree on their first `n` entries.
proof fn lemma_rising_agree(a: Seq<usize>, b: Seq<usize>, n: int)
    requires
        forall|p: int, q: int| 0 <= p < q < a.len() ==> a[p] < a[q],
        forall|p: int, q: int| 0 <= p < q < b.len() ==> b[p] < b[q],
        forall|i: usize| a.contains(i) <==> b.contains(i),
        0 <= n <= a.len(),
        0 <= n <= b.len(),
    ensures
        forall|j: int| 0 <= j < n ==> a[j] == b[j],
    decreases n,
{
    if n > 0 {
        lemma_rising_agree(a, b, n - 1);
        let i = n - 1;
        assert(a.contains(a[i]));
        assert(b.contains(b[i]));
        let k = choose|k: int| 0 <= k < b.len() && b[k] == a[i];
        let m = choose|m: int| 0 <= m < a.len() && a[m] == b[i];
        if k < i {
            assert(a[k] < a[i]);
        } else if k > i {
            assert(b[i] < b[k]);
            if m < i {
                assert(b[m] < b[i]);
            } else if m > i {
                assert(a[i] < a[m]);
            }
        }
    }
}

/// An expression has one table: its names and its list of ones are determined.
pub proof fn lemma_table_unique(expr: Expr, names: Seq<Seq<char>>, ones: Seq<usize>)
    requires
        strictly_sorted(names),
        names.to_set() == expr.vars(),
        lists_ones(ones, expr, names),
    ensures
        names == table_names(expr),
        ones == table_ones(expr),
{
    lemma_sorted_unique(names, table_names(expr));
    let other = table_ones(expr);
    assert(lists_ones(other, expr, names));
    if ones.len() <= other.len() {
        lemma_rising_agree(ones, other, ones.len() as int);
        if ones.len() < other.len() {
            let extra = other[ones.len() as int];
            assert(other.contains(extra));
            assert(ones.contains(extra));
            let k = choose|k: int| 0 <= k < ones.len() && ones[k] == extra;
            assert(other[k] < other[ones.len() as int]);
        }
    } else {
        lemma_rising_agree(ones, other, other.len() as int);
        let extra = ones[other.len() as int];
        assert(ones.contains(extra));
        assert(other.contains(extra));
        let k = choose|k: int| 0 <= k < other.len() && other[k] == extra;
        assert(ones[k] < ones[other.len() as int]);
    }
    assert(ones =~= other);
}

/// Sets each name of `stable_order` to its bit of `num_variant`: the name at
/// position `b` gets bit `b`. Other names keep their value; of a name that
/// stands at several positions the last one counts.
pub fn fill_vars(stable_order: &[String], vars: &mut Assignment, num_variant: usize)
    ensures
        final(vars)@.dom() == old(vars)@.dom().union(stable_order.deep_view().to_set()),
        forall|name: Seq<char>|
            old(vars)@.contains_key(name) && !stable_order.deep_view().contains(name)
                ==> final(vars)@[name] == old(vars)@[name],
        forall|b: int|
            0 <= b < stable_order.len() && last_among(
                stable_order.deep_view(),
                b,
                stable_order.len() as int,
            ) ==> final(vars)@[#[trigger] stable_order.deep_view()[b]] == bit(
                num_variant as nat,
                b as nat,
            ),
{
    let ghost names = stable_order.deep_view();
    let mut num_v = num_variant;
    let mut position: usize = 0;
    proof {
        lemma2_to64();
        assert(names.take(0).to_set() =~= Set::<Seq<char>>::empty());
        assert(vars@.dom() =~= old(vars)@.dom().union(names.take(0).to_set()));
    }
    while position < stable_order.len()
        invariant
            names == stable_order.deep_view(),
            position <= stable_order.len(),
            num_v == num_variant as nat / pow2(position as nat),
            vars@.dom() == old(vars)@.dom().union(names.take(position as int).to_set()),
            forall|name: Seq<char>|
                old(vars)@.contains_key(name) && !names.take(position as int).contains(name)
                    ==> vars@[name] == old(vars)@[name],
            forall|b: int|
                0 <= b < position && last_among(names, b, position as int) ==> vars@[#[trigger] names[b]]
                    == bit(num_variant as nat, b as nat),
        decreases stable_order.len() - position,
    {
        let value: bool = num_v % 2 == 1;
        vars.insert(stable_order[position].as_str(), value);
        proof {
            let p = position as int;
            let prefix = names.take(p);
            let longer = names.take(p + 1);
            assert(longer =~= prefix.push(names[p]));
            assert(longer.to_set() =~= prefix.to_set().insert(names[p])) by {
                assert forall|x: Seq<char>| longer.to_set().contains(x) <==> prefix.to_set().insert(
                    names[p],
                ).contains(x) by {
                    if longer.contains(x) {
                        let k = choose|k: int| 0 <= k < longer.len() && longer[k] == x;
                        if k < p {
                            assert(prefix[k] == x);
                        }
                    }
                    if prefix.contains(x) {
                        let k = choose|k: int| 0 <= k < prefix.len() && prefix[k] == x;
                        assert(longer[k] == x);
                    }
                    if x == names[p] {
                        assert(longer[p] == x);
                    }
                }
            }
            assert(vars@.dom() =~= old(vars)@.dom().union(longer.to_set()));
            assert forall|name: Seq<char>|
                old(vars)@.contains_key(name) && !longer.contains(name) implies vars@[name] == old(
                vars,
            )@[name] by {
                assert(longer[p] == names[p]);
                if prefix.contains(name) {
                    let k = choose|k: int| 0 <= k < prefix.len() && prefix[k] == name;
                    assert(longer[k] == name);
                }
            }
            assert forall|b: int| 0 <= b < p + 1 && last_among(names, b, p + 1) implies vars@[#[trigger] names[b]]
                == bit(num_variant as nat, b as nat) by {
                if b < p {
                    assert(names[p] != names[b]);
                    assert(last_among(names, b, p));
                }
            }
            lemma_pow2_unfold((position + 1) as nat);
            lemma_pow2_pos(position as nat);
            lemma_div_denominator(num_variant as int, pow2(position as nat) as int, 2);
        }
        num_v = num_v / 2;
        position += 1;
    }
    proof {
        assert(names.take(position as int) =~= names);
    }
}

/// Evaluates `expr` on every assignment of its variables. Returns the names
/// in their order, which fixes the bit of each, and the rows on which `expr`
/// is true; `None` where `expr` has more than 32 distinct variables.
pub fn truth_table_ones(expr: &AstNode) -> (r: Option<(Vec<String>, Vec<usize>)>)
    ensures
        r is None <==> expr@.vars().len() > MAX_VARIABLES,
        r matches Some((names, ones)) ==> {
            &&& strictly_sorted(names.deep_view())
            &&& names.deep_view().to_set() == expr@.vars()
            &&& lists_ones(ones@, expr@, names.deep_view())
            &&& names.deep_view() == table_names(expr@)
            &&& ones@ == table_ones(expr@)
        },
{
    let vars_stable = find_variables(expr);
    let ghost names = vars_stable.deep_view();
    proof {
        lemma_sorted_no_duplicates(names);
        names.unique_seq_to_set();
    }
    if vars_stable.len() > MAX_VARIABLES {
        return None;
    }
    let mut iterations: u64 = 1;
    let mut doubled: usize = 0;
    proof {
        lemma2_to64();
    }
    while doubled < vars_stable.len()
        invariant
            doubled <= vars_stable.len() <= 32,
            iterations == pow2(doubled as nat),
            pow2(32) == 0x100000000,
        decreases vars_stable.len() - doubled,
    {
        proof {
            lemma_pow2_unfold((doubled + 1) as nat);
            if doubled + 1 < 32 {
                lemma_pow2_strictly_increases((doubled + 1) as nat, 32);
            }
        }
        iterations = iterations * 2;
        doubled += 1;
    }
    let mut vars = Assignment::new();
    let mut ones: Vec<usize> = Vec::new();
    let mut i: u64 = 0;
    while i < iterations
        invariant
            names == vars_stable.deep_view(),
            names.no_duplicates(),
            iterations == pow2(names.len()),
            iterations <= 0x100000000,
            i <= iterations,
            vars@.dom().subset_of(names.to_set()),
            forall|p: int, q: int| 0 <= p < q < ones.len() ==> ones[p] < ones[q],
            forall|p: int| 0 <= p < ones.len() ==> ones[p] < i,
            forall|j: usize| ones@.contains(j) <==> (j < i && expr@.eval(row(names, j as nat))),
        decreases iterations - i,
    {
        fill_vars(vars_stable.as_slice(), &mut vars, i as usize);
        proof {
            assert(vars@ =~= row(names, i as nat)) by {
                assert(vars@.dom() =~= names.to_set());
                assert forall|name: Seq<char>| vars@.contains_key(name) implies vars@[name] == row(
                    names,
                    i as nat,
                )[name] by {
                    let b = choose|b: int| 0 <= b < names.len() && names[b] == name;
                    lemma_row_value(names, i as nat, b);
                    assert(last_among(names, b, names.len() as int));
                }
                assert(row(names, i as nat).dom() =~= names.to_set());
            }
        }
        if evaluate(expr, &vars) {
            let ghost earlier = ones@;
            ones.push(i as usize);
            proof {
                assert forall|j: usize| ones@.contains(j) <==> (j < i + 1 && expr@.eval(
                    row(names, j as nat),
                )) by {
                    if ones@.contains(j) {
                        let k = choose|k: int| 0 <= k < ones.len() && ones[k] == j;
                        if k < earlier.len() {
                            assert(earlier[k] == j);
                            assert(earlier.contains(j));
                        }
                    }
                    if j < i && expr@.eval(row(names, j as nat)) {
                        assert(earlier.contains(j));
                        let k = choose|k: int| 0 <= k < earlier.len() && earlier[k] == j;
                        assert(ones[k] == j);
                    }
                    if j == i {
                        assert(ones[earlier.len() as int] == j);
                    }
                }
            }
        } else {
            proof {
                assert forall|j: usize| ones@.contains(j) <==> (j < i + 1 && expr@.eval(
                    row(names, j as nat),
                )) by {}
            }
        }
        i += 1;
    }
    proof {
        lemma_table_unique(expr@, names, ones@);
    }
    Some((vars_stable, ones))
}

/// The texts of the minimal forms that the minimiser finds for the sum of the
/// minterms of the rows `ones` over the columns `names`.
pub open spec fn formula_solutions(names: Seq<Seq<char>>, ones: Seq<usize>) -> Seq<Seq<char>> {
    let forms = minimal_forms(sum_of_minterms(ones, names.len()));
    Seq::new(forms.len(), |k: int| forms[k].render(names))
}

/// The texts of the minimal sums of products for the table with the columns
/// `names` and the ones `ones`. The minimiser takes a formula of 31 terms at
/// most, so for a table of all 32 columns that has a one they come from its
/// parts, which work on rows of 32 bits.
pub open spec fn solutions(names: Seq<Seq<char>>, ones: Seq<usize>) -> Seq<Seq<char>> {
    if names.len() == MAX_VARIABLES && ones.len() > 0 {
        wide_solutions(names, ones)
    } else {
        formula_solutions(names, ones)
    }
}

/// A sum of minterms over `n` terms names exactly the terms below `n`, unless
/// it is empty.
pub proof fn lemma_sum_mentions(ones: Seq<usize>, n: nat, t: u8)
    requires
        n <= 256,
    ensures
        sum_of_minterms(ones, n).mentions(t) <==> (ones.len() > 0 && (t as nat) < n),
{
    let sum = sum_of_minterms(ones, n);
    let products = sum->Or_0;
    if sum.mentions(t) {
        let k = choose|k: int| 0 <= k < products.len() && (#[trigger] products[k]).mentions(t);
        let literals = minterm(ones[k], n)->And_0;
        assert(products[k] == minterm(ones[k], n));
        let b = choose|b: int| 0 <= b < literals.len() && (#[trigger] literals[b]).mentions(t);
        assert(literals[b] == literal(b as u8, bit(ones[k] as nat, b as nat)));
        assert(Formula::Term(b as u8).mentions(t) ==> b as u8 == t);
    }
    if ones.len() > 0 && (t as nat) < n {
        let literals = minterm(ones[0], n)->And_0;
        assert(literals[t as int] == literal(t, bit(ones[0] as nat, t as nat)));
        assert(Formula::Term(t).mentions(t));
        assert(literals[t as int].mentions(t));
        assert(products[0] == minterm(ones[0], n));
        assert(products[0].mentions(t));
    }
}

/// Two numbers below `2^n` with the same `n` low bits are equal.
pub proof fn lemma_bits_determine(x: nat, y: nat, n: nat)
    requires
        x < pow2(n),
        y < pow2(n),
        forall|b: nat| b < n ==> bit(x, b) == bit(y, b),
    ensures
        x == y,
    decreases n,
{
    lemma2_to64();
    if n == 0 {
    } else {
        lemma_pow2_unfold(n);
        let hx = x / 2;
        let hy = y / 2;
        assert forall|b: nat| b < n - 1 implies #[trigger] bit(hx, b) == bit(hy, b) by {
            lemma_pow2_unfold(b + 1);
            lemma_pow2_pos(b);
            lemma_div_denominator(x as int, 2, pow2(b) as int);
            lemma_div_denominator(y as int, 2, pow2(b) as int);
            assert(2 * pow2(b) == pow2(b + 1));
            assert(bit(x, b + 1) == bit(y, b + 1));
        }
        lemma_bits_determine(hx, hy, (n - 1) as nat);
        assert(bit(x, 0) == bit(y, 0));
    }
}

/// The minterm of a row holds on that row alone.
pub proof fn lemma_minterm_holds(one: usize, n: nat, i: nat)
    requires
        n <= 256,
        one < pow2(n),
        i < pow2(n),
    ensures
        minterm(one, n).holds(i) <==> i == one,
{
    let literals = minterm(one, n)->And_0;
    assert forall|b: int| 0 <= b < n implies (#[trigger] literals[b]).holds(i) == (bit(i, b as nat)
        == bit(one as nat, b as nat)) by {
        assert(literals[b] == literal(b as u8, bit(one as nat, b as nat)));
        assert(Formula::Term(b as u8).holds(i) == bit(i, b as nat));
    }
    if minterm(one, n).holds(i) {
        assert forall|b: nat| b < n implies bit(i, b) == bit(one as nat, b) by {
            assert(literals[b as int].holds(i));
        }
        lemma_bits_determine(i, one as nat, n);
    }
}

/// The sum of the minterms of a list of ones holds on exactly those rows of
/// the table.
pub proof fn lemma_sum_holds(ones: Seq<usize>, n: nat, i: usize)
    requires
        n <= 256,
        forall|k: int| 0 <= k < ones.len() ==> ones[k] < pow2(n),
        i < pow2(n),
    ensures
        sum_of_minterms(ones, n).holds(i as nat) <==> ones.contains(i),
{
    let products = sum_of_minterms(ones, n)->Or_0;
    if sum_of_minterms(ones, n).holds(i as nat) {
        let k = choose|k: int| 0 <= k < products.len() && (#[trigger] products[k]).holds(i as nat);
        assert(products[k] == minterm(ones[k], n));
        lemma_minterm_holds(ones[k], n, i as nat);
        assert(ones[k] == i);
    }
    if ones.contains(i) {
        let k = choose|k: int| 0 <= k < ones.len() && ones[k] == i;
        assert(products[k] == minterm(ones[k], n));
        lemma_minterm_holds(ones[k], n, i as nat);
        assert(products[k].holds(i as nat));
    }
}

/// The sum of the minterms of the rows `ones` of a table of `num_terms` terms.
pub fn encode(ones: &[usize], num_terms: u8) -> (r: Bool)
    ensures
        shape_of(r) == sum_of_minterms(ones@, num_terms as nat),
{
    let mut terms: Vec<Bool> = Vec::new();
    let mut k: usize = 0;
    while k < ones.len()
        invariant
            k <= ones.len(),
            terms@.len() == k,
            forall|j: int| 0 <= j < k ==> shape_of(#[trigger] terms@[j]) == minterm(ones@[j], num_terms as nat),
        decreases ones.len() - k,
    {
        let one = ones[k];
        let mut mt: Vec<Bool> = Vec::new();
        let mut rest = one;
        let mut i: u8 = 0;
        proof {
            lemma2_to64();
        }
        while i < num_terms
            invariant
                i <= num_terms,
                mt@.len() == i,
                rest == one as nat / pow2(i as nat),
                forall|b: int| 0 <= b < i ==> shape_of(#[trigger] mt@[b]) == literal(b as u8, bit(one as nat, b as nat)),
            decreases num_terms - i,
        {
            let ghost earlier = mt@;
            if rest % 2 == 1 {
                mt.push(Bool::Term(i));
            } else {
                let term = Bool::Term(i);
                assert(shape_of(term) == Formula::Term(i));
                mt.push(Bool::Not(Box::new(term)));
            }
            proof {
                assert(shape_of(mt@[i as int]) == literal(i, bit(one as nat, i as nat)));
                assert forall|b: int| 0 <= b < i implies shape_of(#[trigger] mt@[b]) == literal(
                    b as u8,
                    bit(one as nat, b as nat),
                ) by {
                    assert(mt@[b] == earlier[b]);
                }
                lemma_pow2_unfold((i + 1) as nat);
                lemma_pow2_pos(i as nat);
                lemma_div_denominator(one as int, pow2(i as nat) as int, 2);
            }
            rest = rest / 2;
            i += 1;
        }
        let product = Bool::And(mt);
        proof {
            assert(shape_of(product)->And_0 =~= minterm(one, num_terms as nat)->And_0);
        }
        terms.push(product);
        k += 1;
    }
    let sum = Bool::Or(terms);
    proof {
        assert(shape_of(sum)->Or_0 =~= sum_of_minterms(ones@, num_terms as nat)->Or_0);
    }
    sum
}

/// The texts of `items` in their order, as `decode` gives them, with
/// `separator` between each two.
fn decode_items(items: &Vec<Bool>, labels: &[String], separator: &str) -> (r: String)
    requires
        forall|k: int, t: u8|
            0 <= k < items@.len() && #[trigger] shape_of(items@[k]).mentions(t) ==> (t as int)
                < labels.len(),
    ensures
        r@ == join(
            Seq::new(items@.len(), |k: int| shape_of(items@[k]).render(labels.deep_view())),
            separator@,
        ),
    decreases items,
{
    let ghost parts = Seq::new(
        items@.len(),
        |k: int| shape_of(items@[k]).render(labels.deep_view()),
    );
    let mut out = String::new();
    let mut k: usize = 0;
    while k < items.len()
        invariant
            k <= items.len(),
            parts == Seq::new(items@.len(), |k: int| shape_of(items@[k]).render(labels.deep_view())),
            out@ == join(parts.take(k as int), separator@),
            forall|k: int, t: u8|
                0 <= k < items@.len() && #[trigger] shape_of(items@[k]).mentions(t) ==> (t as int)
                    < labels.len(),
        decreases items.len() - k,
    {
        if k > 0 {
            out.append(separator);
        }
        let part = decode(&items[k], labels);
        out.append(part.as_str());
        proof {
            let longer = parts.take(k + 1);
            assert(longer.drop_last() =~= parts.take(k as int));
            assert(longer.last() == parts[k as int]);
        }
        k += 1;
    }
    proof {
        assert(parts.take(k as int) =~= parts);
    }
    out
}

/// The text of `e` with the name `labels[t]` for term `t`.
pub fn decode(e: &Bool, labels: &[String]) -> (r: String)
    requires
        forall|t: u8| shape_of(*e).mentions(t) ==> (t as int) < labels.len(),
    ensures
        r@ == shape_of(*e).render(labels.deep_view()),
    decreases e,
{
    match e {
        Bool::False => "false".to_owned(),
        Bool::True => "true".to_owned(),
        Bool::Term(t) => {
            assert(shape_of(*e).mentions(*t));
            labels[*t as usize].clone()
        },
        Bool::Not(inner) => {
            let mut out = "!".to_owned();
            assert forall|t: u8| shape_of(**inner).mentions(t) implies (t as int) < labels.len() by {
                assert(shape_of(*e).mentions(t));
            }
            let operand = decode(inner, labels);
            out.append(operand.as_str());
            out
        },
        Bool::And(inner) => {
            proof {
                lemma_items(*e, inner@, labels.deep_view());
            }
            decode_items(inner, labels, " & ")
        },
        Bool::Or(inner) => {
            proof {
                lemma_items(*e, inner@, labels.deep_view());
            }
            decode_items(inner, labels, " | ")
        },
    }
}

/// What the model of a conjunction or disjunction says of its items.
proof fn lemma_items(e: Bool, items: Seq<Bool>, labels: Seq<Seq<char>>)
    requires
        (e matches Bool::And(v) && v@ == items) || (e matches Bool::Or(v) && v@ == items),
    ensures
        forall|k: int, t: u8|
            0 <= k < items.len() && #[trigger] shape_of(items[k]).mentions(t) ==> shape_of(e).mentions(t),
        shape_of(e) is And ==> shape_of(e).render(labels) == join(
            Seq::new(items.len(), |k: int| shape_of(items[k]).render(labels)),
            " & "@,
        ),
        shape_of(e) is Or ==> shape_of(e).render(labels) == join(
            Seq::new(items.len(), |k: int| shape_of(items[k]).render(labels)),
            " | "@,
        ),
{
    let shapes = match shape_of(e) {
        Formula::And(s) => s,
        Formula::Or(s) => s,
        _ => Seq::empty(),
    };
    assert(shapes.len() == items.len());
    assert forall|k: int| 0 <= k < items.len() implies #[trigger] shapes[k] == shape_of(items[k]) by {}
    assert forall|k: int, t: u8|
        0 <= k < items.len() && #[trigger] shape_of(items[k]).mentions(t) implies shape_of(e).mentions(t) by {
        assert(shapes[k] == shape_of(items[k]));
        assert(shapes[k].mentions(t));
    }
    let target = Seq::new(items.len(), |k: int| shape_of(items[k]).render(labels));
    assert(render_each(shapes, labels) =~= target);
}

/// The minimal sums of products equivalent to `expr`, each as text over the
/// names of its variables; `None` where `expr` has more than 32 distinct
/// variables. An expression that is true on no row gives `"false"` alone.
pub fn simplify(expr: &AstNode) -> (r: Option<Vec<String>>)
    ensures
        r is None <==> expr@.vars().len() > MAX_VARIABLES,
        r matches Some(found) ==> found.deep_view() == solutions(
            table_names(expr@),
            table_ones(expr@),
        ),
        r matches Some(found) ==> found.len() >= 1,
        r matches Some(found) ==> (table_ones(expr@).len() == 0 ==> found.deep_view() == seq![
            "false"@,
        ]),
{
    let (labels, ones) = match truth_table_ones(expr) {
        Some(table) => table,
        None => {
            return None;
        },
    };
    proof {
        lemma_sorted_no_duplicates(labels.deep_view());
        labels.deep_view().unique_seq_to_set();
    }
    if labels.len() == MAX_VARIABLES && ones.len() > 0 {
        proof {
            lemma2_to64();
            assert forall|k: int| 0 <= k < ones.len() implies (#[trigger] ones[k]) <= u32::MAX by {
                assert(ones@.contains(ones[k]));
            }
        }
        return Some(simplify_rows(labels.as_slice(), ones.as_slice()));
    }
    let qmc_exp = encode(ones.as_slice(), labels.len() as u8);
    let ghost sum = sum_of_minterms(ones@, labels.len() as nat);
    proof {
        assert forall|t: u8| sum.mentions(t) implies t < 31 by {
            lemma_sum_mentions(ones@, labels.len() as nat, t);
        }
        assert forall|t: u8, u: u8| sum.mentions(t) && u < t implies sum.mentions(u) by {
            lemma_sum_mentions(ones@, labels.len() as nat, t);
            lemma_sum_mentions(ones@, labels.len() as nat, u);
        }
    }
    let forms = qmc_exp.simplify();
    proof {
        assert forall|j: int, t: u8|
            0 <= j < forms@.len() && #[trigger] shape_of(forms@[j]).mentions(t) implies (t as int)
            < labels.len() by {
            lemma_sum_mentions(ones@, labels.len() as nat, t);
        }
    }
    let mut found: Vec<String> = Vec::new();
    let mut k: usize = 0;
    while k < forms.len()
        invariant
            k <= forms.len(),
            found@.len() == k,
            forall|j: int, t: u8|
                0 <= j < forms@.len() && #[trigger] shape_of(forms@[j]).mentions(t) ==> (t as int)
                    < labels.len(),
            forall|j: int|
                0 <= j < k ==> (#[trigger] found@[j])@ == shape_of(forms@[j]).render(
                    labels.deep_view(),
                ),
        decreases forms.len() - k,
    {
        let text = decode(&forms[k], labels.as_slice());
        found.push(text);
        k += 1;
    }
    proof {
        let listed = minimal_forms(sum);
        assert(shapes_of(forms@) == listed);
        assert forall|j: int| 0 <= j < forms@.len() implies listed[j] == shape_of(forms@[j]) by {
            assert(shapes_of(forms@)[j] == shape_of(forms@[j]));
        }
        assert(found.deep_view() =~= formula_solutions(labels.deep_view(), ones@));
        if ones@.len() == 0 {
            assert forall|row: u32| !sum.holds(row as nat) by {}
            assert(listed[0] == Formula::False);
            assert(found.deep_view() =~= seq!["false"@]);
        }
    }
    Some(found)
}

} // verus!
