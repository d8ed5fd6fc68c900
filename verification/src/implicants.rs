//! Minimal forms of a table of full width, from the parts of the minimiser of
//! `quine_mc_cluskey` that take rows of 32 bits: the prime implicants of the
//! rows, the clauses of the covering problem, and its covers.

use vstd::prelude::*;
use quine_mc_cluskey::{essential_minterms, simplify_prime_implicant_expr, Term};
use crate::formula::join;

verus! {

/// The prime implicants that `essential_minterms` finds for the rows
/// `minterms`, each as `Term` prints itself: 32 characters, bit 31 first,
/// `1` or `0` for a fixed bit and `-` for a bit that does not matter.
pub uninterp spec fn prime_patterns(minterms: Seq<u32>) -> Seq<Seq<char>>;

/// The covering problem that `Essentials::prime_implicant_expr` draws up for
/// the rows `minterms`: for each row a clause, and in it, each in a list of
/// its own, the number of every prime implicant that contains the row.
pub uninterp spec fn cover_clauses(minterms: Seq<u32>) -> Seq<Seq<Seq<u32>>>;

/// The covers that `simplify_prime_implicant_expr` finds for the clauses,
/// each a list of numbers of prime implicants.
pub uninterp spec fn irredundant_covers(clauses: Seq<Seq<Seq<u32>>>) -> Seq<Seq<u32>>;

/// A pattern has 32 characters, each `0`, `1` or `-`.
pub open spec fn is_pattern(pattern: Seq<char>) -> bool {
    &&& pattern.len() == 32
    &&& forall|k: int|
        0 <= k < 32 ==> (#[trigger] pattern[k]) == '0' || pattern[k] == '1' || pattern[k] == '-'
}

/// Every number in the clauses is below `bound`.
pub open spec fn clauses_below(clauses: Seq<Seq<Seq<u32>>>, bound: nat) -> bool {
    forall|k: int, p: int, q: int|
        0 <= k < clauses.len() && 0 <= p < clauses[k].len() && 0 <= q < clauses[k][p].len()
            ==> (#[trigger] clauses[k][p][q]) < bound
}

/// Every number in the covers is below `bound`.
pub open spec fn covers_below(covers: Seq<Seq<u32>>, bound: nat) -> bool {
    forall|c: int, j: int|
        0 <= c < covers.len() && 0 <= j < covers[c].len() ==> (#[trigger] covers[c][j]) < bound
}

/// `essential_minterms` on the rows `minterms`, each made a `Term` by
/// `Term::new`; of its result the prime implicants, each as `Term` prints
/// itself, and what `Essentials::prime_implicant_expr` returns. Both depend
/// on the rows alone. Read off the source: a `Term` prints 32 characters, each
/// `0`, `1` or `-`; there is one clause for each row; a number in a clause is
/// the position of a prime implicant; and no clause is empty, since a term
/// leaves the rounds of combining only for the list of prime implicants or
/// for a combination that contains it, so that every row is contained in a
/// prime implicant.
#[verifier::external_body]
fn prime_implicants(minterms: &Vec<u32>) -> (r: (Vec<String>, Vec<Vec<Vec<u32>>>))
    ensures
        r.0.deep_view() == prime_patterns(minterms@),
        r.1.deep_view() == cover_clauses(minterms@),
        forall|k: int| 0 <= k < r.0.len() ==> is_pattern(#[trigger] r.0.deep_view()[k]),
        r.1.len() == minterms.len(),
        forall|k: int| 0 <= k < r.1.len() ==> (#[trigger] r.1.deep_view()[k]).len() >= 1,
        clauses_below(r.1.deep_view(), r.0.len() as nat),
{
    let found = essential_minterms(minterms.iter().map(|m| Term::new(*m)).collect());
    let patterns = found.essentials.iter().map(|t| format!("{:?}", t)).collect();
    (patterns, found.prime_implicant_expr())
}

/// `simplify_prime_implicant_expr` of `quine_mc_cluskey`: Petrick's method. It
/// multiplies the clauses out, two at a time from the end, and drops what
/// another product absorbs; it wants a clause at least, and none empty. Its
/// result depends on the clauses alone and holds no number that they lack. It
/// is never empty: what is returned is a clause as given or the product of
/// two, of which only what a shorter product absorbs was dropped.
pub assume_specification[ simplify_prime_implicant_expr ](e: Vec<Vec<Vec<u32>>>) -> (r: Vec<
    Vec<u32>,
>)
    requires
        e.len() >= 1,
        forall|k: int| 0 <= k < e.len() ==> (#[trigger] e.deep_view()[k]).len() >= 1,
    ensures
        r.deep_view() == irredundant_covers(e.deep_view()),
        r.len() >= 1,
        forall|bound: nat| #[trigger]
            clauses_below(e.deep_view(), bound) ==> covers_below(r.deep_view(), bound),
;

/// The text of the literal that the character `c` of a pattern makes of the
/// variable `name`, if it makes one.
pub open spec fn literal_text(c: char, name: Seq<char>) -> Option<Seq<char>> {
    if c == '1' {
        Some(name)
    } else if c == '0' {
        Some("!"@ + name)
    } else {
        None
    }
}

/// The texts of the literals that `pattern` fixes among the first `upto`
/// names: bit `b` stands at character `31 - b`.
pub open spec fn pattern_literals(pattern: Seq<char>, names: Seq<Seq<char>>, upto: nat) -> Seq<
    Seq<char>,
>
    decreases upto,
{
    if upto == 0 {
        Seq::empty()
    } else {
        let before = pattern_literals(pattern, names, (upto - 1) as nat);
        match literal_text(pattern[32 - upto], names[upto - 1]) {
            Some(text) => before.push(text),
            None => before,
        }
    }
}

/// The text of the prime implicant `pattern` over `names`: its literals
/// joined by `" & "`, and `"true"` where it fixes no bit.
pub open spec fn implicant_text(pattern: Seq<char>, names: Seq<Seq<char>>) -> Seq<char> {
    let literals = pattern_literals(pattern, names, names.len());
    if literals.len() == 0 {
        "true"@
    } else {
        join(literals, " & "@)
    }
}

/// The text of a cover: the texts of its prime implicants joined by `" | "`.
pub open spec fn cover_text(
    cover: Seq<u32>,
    patterns: Seq<Seq<char>>,
    names: Seq<Seq<char>>,
) -> Seq<char> {
    join(
        Seq::new(cover.len(), |k: int| implicant_text(patterns[cover[k] as int], names)),
        " | "@,
    )
}

/// The least length among the first `upto` covers, and 0 where there is none.
pub open spec fn least_len(covers: Seq<Seq<u32>>, upto: nat) -> nat
    decreases upto,
{
    if upto == 0 {
        0
    } else if upto == 1 {
        covers[0].len()
    } else {
        let before = least_len(covers, (upto - 1) as nat);
        if covers[upto - 1].len() < before {
            covers[upto - 1].len()
        } else {
            before
        }
    }
}

/// The texts of those of the first `upto` covers that have `len` prime
/// implicants, in their order.
pub open spec fn chosen_texts(
    covers: Seq<Seq<u32>>,
    len: nat,
    patterns: Seq<Seq<char>>,
    names: Seq<Seq<char>>,
    upto: nat,
) -> Seq<Seq<char>>
    decreases upto,
{
    if upto == 0 {
        Seq::empty()
    } else {
        let before = chosen_texts(covers, len, patterns, names, (upto - 1) as nat);
        if covers[upto - 1].len() == len {
            before.push(cover_text(covers[upto - 1], patterns, names))
        } else {
            before
        }
    }
}

/// The rows as numbers of 32 bits.
pub open spec fn rows_of(ones: Seq<usize>) -> Seq<u32> {
    Seq::new(ones.len(), |k: int| ones[k] as u32)
}

/// The texts of the minimal sums of products for the table with the columns
/// `names` and the ones `ones`: of the covers of the rows by prime implicants,
/// those with the fewest.
pub open spec fn wide_solutions(names: Seq<Seq<char>>, ones: Seq<usize>) -> Seq<Seq<char>> {
    let patterns = prime_patterns(rows_of(ones));
    let covers = irredundant_covers(cover_clauses(rows_of(ones)));
    chosen_texts(covers, least_len(covers, covers.len()), patterns, names, covers.len())
}

/// The text of the prime implicant `pattern` over `labels`.
pub fn render_implicant(pattern: &str, labels: &[String]) -> (r: String)
    requires
        pattern@.len() == 32,
        labels.len() <= 32,
    ensures
        r@ == implicant_text(pattern@, labels.deep_view()),
{
    let ghost names = labels.deep_view();
    let ghost sep = " & "@;
    let mut out = String::new();
    let mut any = false;
    let mut b: usize = 0;
    while b < labels.len()
        invariant
            b <= labels.len() <= 32,
            pattern@.len() == 32,
            names == labels.deep_view(),
            sep == " & "@,
            any == (pattern_literals(pattern@, names, b as nat).len() > 0),
            out@ == join(pattern_literals(pattern@, names, b as nat), sep),
        decreases labels.len() - b,
    {
        let ghost before = pattern_literals(pattern@, names, b as nat);
        let c = pattern.get_char(31 - b);
        if c == '1' || c == '0' {
            if any {
                out.append(" & ");
            }
            if c == '0' {
                out.append("!");
            }
            out.append(labels[b].as_str());
            any = true;
            proof {
                let text = literal_text(c, names[b as int])->Some_0;
                let after = pattern_literals(pattern@, names, (b + 1) as nat);
                assert(after == before.push(text));
                assert(after.drop_last() =~= before);
                assert(after.last() == text);
                if c == '0' {
                    assert(out@ =~= join(before, sep) + (if before.len() > 0 {
                        sep
                    } else {
                        Seq::empty()
                    }) + ("!"@ + names[b as int]));
                }
            }
        }
        b += 1;
    }
    if any {
        out
    } else {
        "true".to_owned()
    }
}

/// The text of `cover`, a list of numbers of prime implicants, over `labels`.
pub fn render_cover(cover: &Vec<u32>, patterns: &Vec<String>, labels: &[String]) -> (r: String)
    requires
        forall|j: int| 0 <= j < cover.len() ==> (#[trigger] cover[j]) < patterns.len(),
        forall|k: int| 0 <= k < patterns.len() ==> (#[trigger] patterns.deep_view()[k]).len() == 32,
        labels.len() <= 32,
    ensures
        r@ == cover_text(cover@, patterns.deep_view(), labels.deep_view()),
{
    let ghost parts = Seq::new(
        cover@.len(),
        |k: int| implicant_text(patterns.deep_view()[cover@[k] as int], labels.deep_view()),
    );
    let mut out = String::new();
    let mut k: usize = 0;
    while k < cover.len()
        invariant
            k <= cover.len(),
            labels.len() <= 32,
            forall|j: int| 0 <= j < cover.len() ==> (#[trigger] cover[j]) < patterns.len(),
            forall|k: int|
                0 <= k < patterns.len() ==> (#[trigger] patterns.deep_view()[k]).len() == 32,
            parts == Seq::new(
                cover@.len(),
                |k: int| implicant_text(patterns.deep_view()[cover@[k] as int], labels.deep_view()),
            ),
            out@ == join(parts.take(k as int), " | "@),
        decreases cover.len() - k,
    {
        if k > 0 {
            out.append(" | ");
        }
        let which = cover[k] as usize;
        assert(patterns.deep_view()[which as int] == patterns[which as int]@);
        let part = render_implicant(patterns[which].as_str(), labels);
        out.append(part.as_str());
        proof {
            let longer = parts.take(k + 1);
            assert(longer.drop_last() =~= parts.take(k as int));
            assert(longer.last() == parts[k as int]);
        }
        k += 1;
    }
    proof {
        assert(parts.take(k as int) =~= parts);
    }
    out
}

/// The minimal sums of products for the table with the columns `labels` and
/// the ones `ones`, of which there is one at least, each as text: the covers
/// of the rows by prime implicants that have the fewest of them.
pub fn simplify_rows(labels: &[String], ones: &[usize]) -> (r: Vec<String>)
    requires
        labels.len() <= 32,
        ones.len() >= 1,
        forall|k: int| 0 <= k < ones.len() ==> (#[trigger] ones[k]) <= u32::MAX,
    ensures
        r.deep_view() == wide_solutions(labels.deep_view(), ones@),
        r.len() >= 1,
{
    let mut minterms: Vec<u32> = Vec::new();
    let mut k: usize = 0;
    while k < ones.len()
        invariant
            k <= ones.len(),
            minterms@.len() == k,
            forall|k: int| 0 <= k < ones.len() ==> (#[trigger] ones[k]) <= u32::MAX,
            forall|j: int| 0 <= j < k ==> minterms@[j] == ones@[j] as u32,
        decreases ones.len() - k,
    {
        minterms.push(ones[k] as u32);
        k += 1;
    }
    assert(minterms@ =~= rows_of(ones@));
    let (patterns, clauses) = prime_implicants(&minterms);
    let ghost bound = patterns.len() as nat;
    let ghost named = patterns.deep_view();
    let ghost names = labels.deep_view();
    assert forall|k: int| 0 <= k < clauses.len() implies (#[trigger] clauses.deep_view()[k]).len()
        >= 1 by {}
    let covers = simplify_prime_implicant_expr(clauses);
    let ghost listed = covers.deep_view();
    assert(covers_below(listed, bound));
    let mut least: usize = 0;
    let mut c: usize = 0;
    while c < covers.len()
        invariant
            c <= covers.len(),
            listed == covers.deep_view(),
            least == least_len(listed, c as nat),
            c > 0 ==> exists|j: int| 0 <= j < c && (#[trigger] listed[j]).len() == least,
        decreases covers.len() - c,
    {
        assert(listed[c as int].len() == covers[c as int].len());
        if c == 0 || covers[c].len() < least {
            least = covers[c].len();
        }
        c += 1;
    }
    let mut found: Vec<String> = Vec::new();
    let mut c: usize = 0;
    while c < covers.len()
        invariant
            c <= covers.len(),
            labels.len() <= 32,
            names == labels.deep_view(),
            named == patterns.deep_view(),
            bound == patterns.len(),
            listed == covers.deep_view(),
            covers_below(listed, bound),
            forall|k: int| 0 <= k < patterns.len() ==> is_pattern(#[trigger] named[k]),
            found.deep_view() == chosen_texts(listed, least as nat, named, names, c as nat),
            (exists|j: int| 0 <= j < c && (#[trigger] listed[j]).len() == least) ==> found.len()
                >= 1,
        decreases covers.len() - c,
    {
        assert(listed[c as int] == covers[c as int]@);
        if covers[c].len() == least {
            assert forall|j: int| 0 <= j < covers[c as int].len() implies (#[trigger] covers[c as int][j])
                < patterns.len() by {
                assert(listed[c as int][j] < bound);
            }
            let text = render_cover(&covers[c], &patterns, labels);
            let ghost earlier = found.deep_view();
            found.push(text);
            assert(found.deep_view() =~= earlier.push(text@));
        }
        c += 1;
    }
    found
}

} // verus!
