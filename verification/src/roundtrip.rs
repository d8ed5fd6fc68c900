//! Texts of sums of products, read back by the parser.

use vstd::prelude::*;
use vstd::arithmetic::power2::pow2;
use crate::ast::Expr;
use crate::formula::{join, literal, minterm, render_each, sum_of_minterms, Formula};
use crate::lexer::{
    after,
    all_digits,
    is_digit,
    is_name,
    is_space,
    is_word,
    lex,
    symbol_kind,
    word_len,
    SyntaxError,
    Token,
    TokenKind,
};
use crate::grammar::{derives, is_primary, lemma_parse_complete, operands, sentence};
use crate::logic::{
    bit,
    lemma_row_value,
    lemma_sum_holds,
    lemma_sum_mentions,
    lists_ones,
    row,
};
use crate::names::{lemma_sorted_no_duplicates, strictly_sorted};
use crate::parser::{binary_level, combine, text_parse};

verus! {

/// A term or the negation of one.
pub open spec fn is_literal(f: Formula) -> bool {
    f is Term || (f matches Formula::Not(inner) && *inner is Term)
}

/// The items of `f`, where `f` is the kind of list that stands on `level`: a
/// disjunction on level 1, a conjunction on level 2.
pub open spec fn group(f: Formula, level: nat) -> Option<Seq<Formula>> {
    match f {
        Formula::Or(items) => if level == 1 {
            Some(items)
        } else {
            None
        },
        Formula::And(items) => if level == 2 {
            Some(items)
        } else {
            None
        },
        _ => None,
    }
}

/// The operator that joins the items of a list on `level`.
pub open spec fn operator(level: nat) -> TokenKind {
    if level == 2 {
        TokenKind::And
    } else {
        TokenKind::Or
    }
}

/// The text that stands between the items of a list on `level`.
pub open spec fn separator(level: nat) -> Seq<char> {
    if level == 2 {
        " & "@
    } else {
        " | "@
    }
}

/// `f` is well formed on `level`: on level 3 a literal; on level 2 that, or a
/// conjunction of one or more literals; on level 1 that, or a disjunction of
/// one or more of those. Level 1 is the shape of a sum of products.
pub open spec fn shaped(f: Formula, level: nat) -> bool
    decreases 3 - level,
{
    if level >= 3 {
        is_literal(f)
    } else {
        ||| shaped(f, level + 1)
        ||| {
            &&& group(f, level) matches Some(items)
            &&& items.len() >= 1
            &&& forall|k: int| 0 <= k < items.len() ==> shaped(#[trigger] items[k], level + 1)
        }
    }
}

/// The text of the first `n` of `items`, joined as a list on `level` is.
pub open spec fn chain_text(items: Seq<Formula>, labels: Seq<Seq<char>>, n: nat, level: nat) -> Seq<
    char,
> {
    join(render_each(items, labels).take(n as int), separator(level))
}

/// The tree that the parser builds of the text of `f`.
pub open spec fn tree_of(f: Formula, labels: Seq<Seq<char>>) -> Expr
    decreases f, 0nat,
{
    match f {
        Formula::True => Expr::Var("true"@),
        Formula::False => Expr::Var("false"@),
        Formula::Term(t) => Expr::Var(labels[t as int]),
        Formula::Not(inner) => Expr::Not(Box::new(tree_of(*inner, labels))),
        Formula::And(items) => chain_tree(items, labels, items.len(), 2),
        Formula::Or(items) => chain_tree(items, labels, items.len(), 1),
    }
}

/// The tree of the first `n` of `items` as a list on `level`: grouped to the
/// left.
pub open spec fn chain_tree(items: Seq<Formula>, labels: Seq<Seq<char>>, n: nat, level: nat) -> Expr
    decreases items, n,
{
    if n == 0 || n > items.len() {
        Expr::Var(Seq::empty())
    } else if n == 1 {
        tree_of(items[0], labels)
    } else {
        combine(
            operator(level),
            chain_tree(items, labels, (n - 1) as nat, level),
            tree_of(items[n - 1], labels),
        )
    }
}

/// The tokens of the text of `f`, where that text starts at position `at`.
pub open spec fn tokens_of(f: Formula, labels: Seq<Seq<char>>, at: int) -> Seq<Token>
    decreases f, 0nat,
{
    match f {
        Formula::Term(t) => seq![
            Token {
                kind: TokenKind::Var,
                start: at as usize,
                end: (at + labels[t as int].len()) as usize,
            },
        ],
        Formula::Not(inner) => seq![
            Token { kind: TokenKind::Not, start: at as usize, end: (at + 1) as usize },
        ] + tokens_of(*inner, labels, at + 1),
        Formula::And(items) => chain_tokens(items, labels, items.len(), 2, at),
        Formula::Or(items) => chain_tokens(items, labels, items.len(), 1, at),
        _ => Seq::empty(),
    }
}

/// The tokens of the text of the first `n` of `items` as a list on `level`.
pub open spec fn chain_tokens(
    items: Seq<Formula>,
    labels: Seq<Seq<char>>,
    n: nat,
    level: nat,
    at: int,
) -> Seq<Token>
    decreases items, n,
{
    if n == 0 || n > items.len() {
        Seq::empty()
    } else if n == 1 {
        tokens_of(items[0], labels, at)
    } else {
        let mid = at + chain_text(items, labels, (n - 1) as nat, level).len();
        chain_tokens(items, labels, (n - 1) as nat, level, at) + seq![
            Token { kind: operator(level), start: (mid + 1) as usize, end: (mid + 2) as usize },
        ] + tokens_of(items[n - 1], labels, mid + 3)
    }
}

/// `text` stands in `s` from position `at` on, and no word character follows
/// it.
pub open spec fn stands_at(s: Seq<char>, text: Seq<char>, at: int) -> bool {
    &&& 0 <= at
    &&& at + text.len() <= s.len() <= usize::MAX
    &&& s.subrange(at, at + text.len()) == text
    &&& at + text.len() < s.len() ==> !is_word(s[at + text.len()])
}

/// The labels that `f` uses exist and are names.
pub open spec fn labelled(f: Formula, labels: Seq<Seq<char>>) -> bool {
    forall|t: u8| f.mentions(t) ==> (t as int) < labels.len() && is_name(labels[t as int])
}

/// A run of word characters from `i` to `j` that ends there is one word.
proof fn lemma_word_run(s: Seq<char>, i: int, j: int)
    requires
        0 <= i <= j <= s.len(),
        forall|k: int| i <= k < j ==> is_word(#[trigger] s[k]),
        j < s.len() ==> !is_word(s[j]),
    ensures
        word_len(s, i) == j - i,
    decreases j - i,
{
    if i < j {
        lemma_word_run(s, i + 1, j);
    }
}

/// Tokens put before tokens put before the rest are their sum put before it.
proof fn lemma_after_after(a: Seq<Token>, b: Seq<Token>, rest: Result<Seq<Token>, SyntaxError>)
    ensures
        after(a, after(b, rest)) == after(a + b, rest),
{
    match rest {
        Ok(more) => {
            assert(a + (b + more) =~= (a + b) + more);
        },
        Err(_) => {},
    }
}

/// The text of a list is that of the list without its last item, the
/// separator, and the text of the last item.
proof fn lemma_chain_text_step(items: Seq<Formula>, labels: Seq<Seq<char>>, n: nat, level: nat)
    requires
        2 <= n <= items.len(),
    ensures
        chain_text(items, labels, n, level) == chain_text(items, labels, (n - 1) as nat, level)
            + separator(level) + items[n - 1].render(labels),
        separator(level).len() == 3,
        separator(level)[0] == ' ',
        separator(level)[2] == ' ',
        separator(level)[1] == (if level == 2 {
            '&'
        } else {
            '|'
        }),
{
    reveal_strlit(" & ");
    reveal_strlit(" | ");
    let parts = render_each(items, labels).take(n as int);
    assert(parts.drop_last() =~= render_each(items, labels).take(n - 1));
    assert(parts.last() == items[n - 1].render(labels));
}

/// The text of a list of one item is the text of that item.
proof fn lemma_chain_text_one(items: Seq<Formula>, labels: Seq<Seq<char>>, level: nat)
    requires
        1 <= items.len(),
    ensures
        chain_text(items, labels, 1, level) == items[0].render(labels),
{
    let parts = render_each(items, labels).take(1);
    assert(parts[0] == items[0].render(labels));
}

/// A name that stands in `s` at `at` is read as one variable.
proof fn lemma_name_lex(s: Seq<char>, name: Seq<char>, at: int)
    requires
        is_name(name),
        stands_at(s, name, at),
    ensures
        lex(s, at) == after(
            seq![
                Token { kind: TokenKind::Var, start: at as usize, end: (at + name.len()) as usize },
            ],
            lex(s, at + name.len()),
        ),
{
    let end = at + name.len();
    assert forall|k: int| at <= k < end implies is_word(#[trigger] s[k]) by {
        assert(s.subrange(at, end)[k - at] == s[k]);
        assert(is_word(name[k - at]));
    }
    lemma_word_run(s, at + 1, end);
    let d = choose|d: int| 0 <= d < name.len() && !is_digit(#[trigger] name[d]);
    assert(s.subrange(at, end)[d] == s[at + d]);
    assert(!is_digit(s[at + d]));
    assert(!all_digits(s, at, end));
    assert(is_word(s[at]));
}

/// The items of a list use no labels that the list does not.
proof fn lemma_items_labelled(f: Formula, labels: Seq<Seq<char>>, level: nat)
    requires
        labelled(f, labels),
        group(f, level) is Some,
    ensures
        forall|k: int|
            0 <= k < group(f, level)->Some_0.len() ==> labelled(
                #[trigger] group(f, level)->Some_0[k],
                labels,
            ),
{
    let items = group(f, level)->Some_0;
    assert forall|k: int| 0 <= k < items.len() implies labelled(#[trigger] items[k], labels) by {
        assert forall|t: u8| items[k].mentions(t) implies (t as int) < labels.len() && is_name(
            labels[t as int],
        ) by {
            assert(f.mentions(t));
        }
    }
}

/// Where the text of a list of two or more items stands, there stand the text
/// of the list without its last item, the separator, and the text of the last
/// item.
proof fn lemma_chain_split(
    s: Seq<char>,
    items: Seq<Formula>,
    labels: Seq<Seq<char>>,
    level: nat,
    n: nat,
    at: int,
)
    requires
        2 <= n <= items.len(),
        stands_at(s, chain_text(items, labels, n, level), at),
    ensures
        ({
            let front = chain_text(items, labels, (n - 1) as nat, level);
            let last = items[n - 1].render(labels);
            let mid = at + front.len();
            &&& chain_text(items, labels, n, level).len() == front.len() + 3 + last.len()
            &&& stands_at(s, front, at)
            &&& stands_at(s, last, mid + 3)
            &&& s[mid] == ' '
            &&& s[mid + 2] == ' '
            &&& s[mid + 1] == (if level == 2 {
                '&'
            } else {
                '|'
            })
        }),
{
    lemma_chain_text_step(items, labels, n, level);
    let whole = chain_text(items, labels, n, level);
    let front = chain_text(items, labels, (n - 1) as nat, level);
    let last = items[n - 1].render(labels);
    let mid = at + front.len();
    let end = at + whole.len();
    assert(whole.len() == front.len() + 3 + last.len());
    assert forall|k: int| 0 <= k < whole.len() implies s[at + k] == whole[k] by {
        assert(s.subrange(at, end)[k] == s[at + k]);
    }
    assert(s[mid] == ' ') by {
        assert(whole[mid - at] == separator(level)[0]);
    }
    assert(s[mid + 1] == separator(level)[1]) by {
        assert(whole[mid - at + 1] == separator(level)[1]);
    }
    assert(s[mid + 2] == ' ') by {
        assert(whole[mid - at + 2] == separator(level)[2]);
    }
    assert(s.subrange(at, mid) =~= front) by {
        assert forall|k: int| 0 <= k < front.len() implies s[at + k] == front[k] by {
            assert(whole[k] == front[k]);
        }
    }
    assert(s.subrange(mid + 3, end) =~= last) by {
        assert forall|k: int| 0 <= k < last.len() implies s[mid + 3 + k] == last[k] by {
            assert(whole[mid - at + 3 + k] == last[k]);
        }
    }
}

/// The text of a formula that is well formed on `level`, where it stands in
/// `s`, is read as the tokens of that formula.
proof fn lemma_piece_lex(s: Seq<char>, f: Formula, labels: Seq<Seq<char>>, level: nat, at: int)
    requires
        1 <= level <= 3,
        shaped(f, level),
        labelled(f, labels),
        stands_at(s, f.render(labels), at),
    ensures
        lex(s, at) == after(tokens_of(f, labels, at), lex(s, at + f.render(labels).len())),
    decreases 3 - level, 1nat, 0nat,
{
    let text = f.render(labels);
    if level >= 3 {
        match f {
            Formula::Term(t) => {
                assert(f.mentions(t));
                lemma_name_lex(s, labels[t as int], at);
            },
            Formula::Not(inner) => {
                reveal_strlit("!");
                let t = inner->Term_0;
                assert(inner.mentions(t));
                assert(f.mentions(t));
                let name = labels[t as int];
                assert(inner.render(labels) == name);
                assert(text =~= seq!['!'] + name);
                assert(s.subrange(at, at + text.len())[0] == s[at]);
                assert(s[at] == '!');
                assert(s.subrange(at + 1, at + 1 + name.len()) =~= name) by {
                    assert forall|k: int| 0 <= k < name.len() implies s[at + 1 + k] == name[k] by {
                        assert(s.subrange(at, at + text.len())[k + 1] == s[at + 1 + k]);
                    }
                }
                lemma_name_lex(s, name, at + 1);
                assert(symbol_kind(s[at]) == Some(TokenKind::Not));
                lemma_after_after(
                    seq![Token { kind: TokenKind::Not, start: at as usize, end: (at + 1) as usize }],
                    tokens_of(*inner, labels, at + 1),
                    lex(s, at + text.len()),
                );
            },
            _ => {},
        }
    } else if shaped(f, level + 1) {
        lemma_piece_lex(s, f, labels, level + 1, at);
    } else {
        let items = group(f, level)->Some_0;
        assert(render_each(items, labels).take(items.len() as int) =~= render_each(items, labels));
        assert(text == chain_text(items, labels, items.len(), level));
        lemma_items_labelled(f, labels, level);
        lemma_chain_lex(s, items, labels, level, items.len(), at);
    }
}

/// The text of the first `n` items of a list on `level`, where it stands in
/// `s`, is read as the tokens of those items and the operators between them.
proof fn lemma_chain_lex(
    s: Seq<char>,
    items: Seq<Formula>,
    labels: Seq<Seq<char>>,
    level: nat,
    n: nat,
    at: int,
)
    requires
        1 <= level < 3,
        1 <= n <= items.len(),
        forall|k: int| 0 <= k < items.len() ==> shaped(#[trigger] items[k], level + 1),
        forall|k: int| 0 <= k < items.len() ==> labelled(#[trigger] items[k], labels),
        stands_at(s, chain_text(items, labels, n, level), at),
    ensures
        lex(s, at) == after(
            chain_tokens(items, labels, n, level, at),
            lex(s, at + chain_text(items, labels, n, level).len()),
        ),
    decreases 3 - level, 0nat, n,
{
    if n == 1 {
        lemma_chain_text_one(items, labels, level);
        lemma_piece_lex(s, items[0], labels, level + 1, at);
    } else {
        lemma_chain_split(s, items, labels, level, n, at);
        let front = chain_text(items, labels, (n - 1) as nat, level);
        let mid = at + front.len();
        let end = at + chain_text(items, labels, n, level).len();
        lemma_chain_lex(s, items, labels, level, (n - 1) as nat, at);
        lemma_piece_lex(s, items[n - 1], labels, level + 1, mid + 3);
        let op = Token { kind: operator(level), start: (mid + 1) as usize, end: (mid + 2) as usize };
        assert(is_space(s[mid]) && is_space(s[mid + 2]));
        assert(symbol_kind(s[mid + 1]) == Some(operator(level)));
        assert(lex(s, mid) == lex(s, mid + 1));
        assert(lex(s, mid + 1) == after(seq![op], lex(s, mid + 2)));
        assert(lex(s, mid + 2) == lex(s, mid + 3));
        let a = chain_tokens(items, labels, (n - 1) as nat, level, at);
        let b = tokens_of(items[n - 1], labels, mid + 3);
        lemma_after_after(seq![op], b, lex(s, end));
        lemma_after_after(a, seq![op] + b, lex(s, end));
        assert(a + (seq![op] + b) =~= a + seq![op] + b);
    }
}

/// The tokens of a formula that is well formed on `level`, where they stand
/// among `tokens`, are an expression of `level` with the tree of the formula.
proof fn lemma_piece_derives(
    s: Seq<char>,
    tokens: Seq<Token>,
    f: Formula,
    labels: Seq<Seq<char>>,
    level: nat,
    at: int,
    p: int,
)
    requires
        1 <= level <= 3,
        shaped(f, level),
        labelled(f, labels),
        stands_at(s, f.render(labels), at),
        0 <= p,
        p + tokens_of(f, labels, at).len() <= tokens.len(),
        tokens.subrange(p, p + tokens_of(f, labels, at).len()) == tokens_of(f, labels, at),
    ensures
        tokens_of(f, labels, at).len() >= 1,
        derives(s, tokens, p, p + tokens_of(f, labels, at).len(), tree_of(f, labels), level),
    decreases 3 - level, 1nat, 0nat,
{
    let own = tokens_of(f, labels, at);
    let hi = p + own.len();
    if level >= 3 {
        match f {
            Formula::Term(t) => {
                assert(f.mentions(t));
                assert(tokens.subrange(p, hi)[0] == tokens[p]);
                assert(is_primary(s, tokens, p, p + 1, tree_of(f, labels)));
            },
            Formula::Not(inner) => {
                reveal_strlit("!");
                let t = inner->Term_0;
                assert(inner.mentions(t));
                assert(f.mentions(t));
                let name = labels[t as int];
                assert(inner.render(labels) == name);
                let text = f.render(labels);
                assert(text =~= seq!['!'] + name);
                assert(s.subrange(at + 1, at + 1 + name.len()) =~= name) by {
                    assert forall|k: int| 0 <= k < name.len() implies s[at + 1 + k] == name[k] by {
                        assert(s.subrange(at, at + text.len())[k + 1] == s[at + 1 + k]);
                    }
                }
                let rest = tokens_of(*inner, labels, at + 1);
                assert(*inner == Formula::Term(t));
                assert(rest == seq![
                    Token {
                        kind: TokenKind::Var,
                        start: (at + 1) as usize,
                        end: (at + 1 + name.len()) as usize,
                    },
                ]);
                assert(own == seq![
                    Token { kind: TokenKind::Not, start: at as usize, end: (at + 1) as usize },
                ] + rest);
                assert(own.len() == 2);
                assert(tokens.subrange(p, hi)[0] == tokens[p]);
                assert(tokens.subrange(p, hi)[1] == tokens[p + 1]);
                assert(tokens[p + 1] == rest[0]);
                assert(tree_of(*inner, labels) == Expr::Var(name));
                assert(is_primary(s, tokens, p + 1, p + 2, tree_of(*inner, labels)));
                assert(derives(s, tokens, p, p + 2, tree_of(f, labels), 3));
            },
            _ => {},
        }
    } else if shaped(f, level + 1) {
        lemma_piece_derives(s, tokens, f, labels, level + 1, at, p);
    } else {
        let items = group(f, level)->Some_0;
        assert(render_each(items, labels).take(items.len() as int) =~= render_each(items, labels));
        lemma_items_labelled(f, labels, level);
        lemma_chain_derives(s, tokens, items, labels, level, items.len(), at, p);
    }
}

/// The tokens of the first `n` items of a list on `level`, where they stand
/// among `tokens`, are an expression of `level` with the tree of those items.
proof fn lemma_chain_derives(
    s: Seq<char>,
    tokens: Seq<Token>,
    items: Seq<Formula>,
    labels: Seq<Seq<char>>,
    level: nat,
    n: nat,
    at: int,
    p: int,
)
    requires
        1 <= level < 3,
        1 <= n <= items.len(),
        forall|k: int| 0 <= k < items.len() ==> shaped(#[trigger] items[k], level + 1),
        forall|k: int| 0 <= k < items.len() ==> labelled(#[trigger] items[k], labels),
        stands_at(s, chain_text(items, labels, n, level), at),
        0 <= p,
        p + chain_tokens(items, labels, n, level, at).len() <= tokens.len(),
        tokens.subrange(p, p + chain_tokens(items, labels, n, level, at).len()) == chain_tokens(
            items,
            labels,
            n,
            level,
            at,
        ),
    ensures
        chain_tokens(items, labels, n, level, at).len() >= 1,
        derives(
            s,
            tokens,
            p,
            p + chain_tokens(items, labels, n, level, at).len(),
            chain_tree(items, labels, n, level),
            level,
        ),
    decreases 3 - level, 0nat, n,
{
    if n == 1 {
        lemma_chain_text_one(items, labels, level);
        lemma_piece_derives(s, tokens, items[0], labels, level + 1, at, p);
    } else {
        lemma_chain_split(s, items, labels, level, n, at);
        let front = chain_text(items, labels, (n - 1) as nat, level);
        let mid = at + front.len();
        let all = chain_tokens(items, labels, n, level, at);
        let a = chain_tokens(items, labels, (n - 1) as nat, level, at);
        let b = tokens_of(items[n - 1], labels, mid + 3);
        let op = Token { kind: operator(level), start: (mid + 1) as usize, end: (mid + 2) as usize };
        assert(all == a + seq![op] + b);
        let k = p + a.len();
        assert(tokens.subrange(p, k) =~= a) by {
            assert forall|j: int| 0 <= j < a.len() implies tokens[p + j] == a[j] by {
                assert(tokens.subrange(p, p + all.len())[j] == tokens[p + j]);
            }
        }
        assert(tokens[k] == op) by {
            assert(tokens.subrange(p, p + all.len())[a.len() as int] == tokens[k]);
        }
        assert(tokens.subrange(k + 1, k + 1 + b.len()) =~= b) by {
            assert forall|j: int| 0 <= j < b.len() implies tokens[k + 1 + j] == b[j] by {
                assert(tokens.subrange(p, p + all.len())[a.len() + 1 + j] == tokens[k + 1 + j]);
            }
        }
        lemma_chain_derives(s, tokens, items, labels, level, (n - 1) as nat, at, p);
        lemma_piece_derives(s, tokens, items[n - 1], labels, level + 1, mid + 3, k + 1);
        let left = chain_tree(items, labels, (n - 1) as nat, level);
        let right = tree_of(items[n - 1], labels);
        let joined = chain_tree(items, labels, n, level);
        assert(joined == combine(operator(level), left, right));
        assert(binary_level(tokens[k].kind) == level);
        assert(operands(joined, tokens[k].kind) == Some((left, right)));
        assert(derives(s, tokens, p, p + all.len(), joined, level));
    }
}

/// The tree of a formula that is well formed on `level` is true on row `i`
/// of the table over distinct labels exactly where the formula holds.
proof fn lemma_piece_holds(f: Formula, labels: Seq<Seq<char>>, level: nat, i: nat)
    requires
        1 <= level <= 3,
        shaped(f, level),
        labelled(f, labels),
        labels.no_duplicates(),
    ensures
        tree_of(f, labels).eval(row(labels, i)) == f.holds(i),
    decreases 3 - level, 1nat, 0nat,
{
    if level >= 3 {
        match f {
            Formula::Term(t) => {
                assert(f.mentions(t));
                lemma_row_value(labels, i, t as int);
                assert(tree_of(f, labels).eval(row(labels, i)) == bit(i, t as nat));
            },
            Formula::Not(inner) => {
                let t = inner->Term_0;
                assert(inner.mentions(t));
                assert(f.mentions(t));
                lemma_row_value(labels, i, t as int);
                assert(tree_of(*inner, labels) == Expr::Var(labels[t as int]));
                assert(inner.holds(i) == bit(i, t as nat));
                assert(tree_of(*inner, labels).eval(row(labels, i)) == bit(i, t as nat));
                assert(tree_of(f, labels).eval(row(labels, i)) == !bit(i, t as nat));
                assert(f.holds(i) == !bit(i, t as nat));
            },
            _ => {},
        }
    } else if shaped(f, level + 1) {
        lemma_piece_holds(f, labels, level + 1, i);
    } else {
        let items = group(f, level)->Some_0;
        lemma_items_labelled(f, labels, level);
        lemma_chain_holds(items, labels, level, items.len(), i);
        if level == 2 {
            assert(f == Formula::And(items));
            assert(tree_of(f, labels) == chain_tree(items, labels, items.len(), 2));
            assert(f.holds(i) == forall|k: int| 0 <= k < items.len() ==> (#[trigger] items[k]).holds(i));
        } else {
            assert(f == Formula::Or(items));
            assert(tree_of(f, labels) == chain_tree(items, labels, items.len(), 1));
            assert(f.holds(i) == exists|k: int| 0 <= k < items.len() && (#[trigger] items[k]).holds(i));
        }
    }
}

/// The tree of the first `n` items of a list on `level` is true on row `i`
/// exactly where all of them hold, for a conjunction, or one of them, for a
/// disjunction.
proof fn lemma_chain_holds(
    items: Seq<Formula>,
    labels: Seq<Seq<char>>,
    level: nat,
    n: nat,
    i: nat,
)
    requires
        1 <= level < 3,
        1 <= n <= items.len(),
        forall|k: int| 0 <= k < items.len() ==> shaped(#[trigger] items[k], level + 1),
        forall|k: int| 0 <= k < items.len() ==> labelled(#[trigger] items[k], labels),
        labels.no_duplicates(),
    ensures
        level == 2 ==> (chain_tree(items, labels, n, level).eval(row(labels, i)) <==> forall|k: int|
            0 <= k < n ==> (#[trigger] items[k]).holds(i)),
        level == 1 ==> (chain_tree(items, labels, n, level).eval(row(labels, i)) <==> exists|k: int|
            0 <= k < n && (#[trigger] items[k]).holds(i)),
    decreases 3 - level, 0nat, n,
{
    lemma_piece_holds(items[n - 1], labels, level + 1, i);
    if n > 1 {
        lemma_chain_holds(items, labels, level, (n - 1) as nat, i);
        let left = chain_tree(items, labels, (n - 1) as nat, level);
        let right = tree_of(items[n - 1], labels);
        assert(chain_tree(items, labels, n, level) == combine(operator(level), left, right));
    }
}

/// The text of a sum of products over distinct names is an expression, and
/// the tree that the parser gives it is true on exactly the rows of the table
/// over those names on which the sum holds. So a minimal form that is equal
/// to an expression row by row reads back, from its text, as an expression
/// with the same ones.
pub proof fn lemma_sum_reads_back(f: Formula, labels: Seq<Seq<char>>)
    requires
        shaped(f, 1),
        labelled(f, labels),
        labels.no_duplicates(),
        f.render(labels).len() <= usize::MAX,
    ensures
        text_parse(f.render(labels)) is Ok,
        sentence(f.render(labels), text_parse(f.render(labels))->Ok_0),
        forall|i: nat| text_parse(f.render(labels))->Ok_0.eval(row(labels, i)) == f.holds(i),
{
    let s = f.render(labels);
    let found = tokens_of(f, labels, 0);
    assert(s.subrange(0, s.len() as int) =~= s);
    lemma_piece_lex(s, f, labels, 1, 0);
    assert(lex(s, s.len() as int) == Ok::<Seq<Token>, SyntaxError>(Seq::empty()));
    assert(found + Seq::<Token>::empty() =~= found);
    assert(lex(s, 0) == Ok::<Seq<Token>, SyntaxError>(found));
    assert(found.subrange(0, found.len() as int) =~= found);
    lemma_piece_derives(s, found, f, labels, 1, 0, 0);
    lemma_parse_complete(s, tree_of(f, labels));
    assert forall|i: nat| tree_of(f, labels).eval(row(labels, i)) == f.holds(i) by {
        lemma_piece_holds(f, labels, 1, i);
    }
}

/// Minimising and reading back keeps the table. Let `names` and `ones` be the
/// table of `expr`, the names being such as the parser reads, and let the sum
/// of products `g` hold on exactly the rows on which the sum of the minterms
/// of `ones` holds. Then the text of `g` over `names` is an expression, and
/// its ones over `names` are `ones`.
pub proof fn lemma_solution_round_trip(
    expr: Expr,
    names: Seq<Seq<char>>,
    ones: Seq<usize>,
    g: Formula,
)
    requires
        strictly_sorted(names),
        names.to_set() == expr.vars(),
        lists_ones(ones, expr, names),
        forall|name: Seq<char>| expr.vars().contains(name) ==> is_name(name),
        names.len() <= 256,
        shaped(g, 1),
        forall|t: u8| g.mentions(t) ==> (t as int) < names.len(),
        forall|i: usize|
            i < pow2(names.len()) ==> g.holds(i as nat) == sum_of_minterms(ones, names.len()).holds(
                i as nat,
            ),
        g.render(names).len() <= usize::MAX,
    ensures
        text_parse(g.render(names)) is Ok,
        lists_ones(ones, text_parse(g.render(names))->Ok_0, names),
{
    lemma_sorted_no_duplicates(names);
    assert forall|t: u8| g.mentions(t) implies (t as int) < names.len() && is_name(
        names[t as int],
    ) by {
        assert(names.contains(names[t as int]));
        assert(names.to_set().contains(names[t as int]));
    }
    lemma_sum_reads_back(g, names);
    let back = text_parse(g.render(names))->Ok_0;
    assert forall|k: int| 0 <= k < ones.len() implies ones[k] < pow2(names.len()) by {
        assert(ones.contains(ones[k]));
    }
    assert forall|i: usize|
        ones.contains(i) <==> (i < pow2(names.len()) && back.eval(row(names, i as nat))) by {
        assert(ones.contains(i) ==> i < pow2(names.len()));
        if i < pow2(names.len()) {
            lemma_sum_holds(ones, names.len(), i);
            assert(back.eval(row(names, i as nat)) == g.holds(i as nat));
            assert(g.holds(i as nat) == sum_of_minterms(ones, names.len()).holds(i as nat));
        }
    }
}

/// The table itself reads back: the text of the sum of the minterms of the
/// ones of `expr`, where there are any, is an expression with the same ones.
pub proof fn lemma_minterms_round_trip(expr: Expr, names: Seq<Seq<char>>, ones: Seq<usize>)
    requires
        strictly_sorted(names),
        names.to_set() == expr.vars(),
        lists_ones(ones, expr, names),
        forall|name: Seq<char>| expr.vars().contains(name) ==> is_name(name),
        1 <= names.len() <= 256,
        ones.len() >= 1,
        sum_of_minterms(ones, names.len()).render(names).len() <= usize::MAX,
    ensures
        text_parse(sum_of_minterms(ones, names.len()).render(names)) is Ok,
        lists_ones(
            ones,
            text_parse(sum_of_minterms(ones, names.len()).render(names))->Ok_0,
            names,
        ),
{
    let n = names.len();
    let sum = sum_of_minterms(ones, n);
    let products = sum->Or_0;
    assert forall|k: int| 0 <= k < products.len() implies shaped(#[trigger] products[k], 2) by {
        let literals = minterm(ones[k], n)->And_0;
        assert(products[k] == minterm(ones[k], n));
        assert forall|b: int| 0 <= b < literals.len() implies shaped(#[trigger] literals[b], 3) by {
            assert(literals[b] == literal(b as u8, bit(ones[k] as nat, b as nat)));
        }
        assert(group(products[k], 2) == Some(literals));
    }
    assert(group(sum, 1) == Some(products));
    assert(shaped(sum, 1));
    assert forall|t: u8| sum.mentions(t) implies (t as int) < names.len() by {
        lemma_sum_mentions(ones, n, t);
    }
    lemma_solution_round_trip(expr, names, ones, sum);
}

} // verus!
