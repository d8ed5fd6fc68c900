//! The grammar of expressions, and the proof that the parser decides it.
//!
//! ```text
//! expr    := term ( '|' term )*        level 1, grouping to the left
//! term    := factor ( '&' factor )*    level 2, grouping to the left
//! factor  := '!'? primary              level 3
//! primary := VAR | '(' expr ')' | '[' expr ']'
//! ```

use vstd::prelude::*;
use crate::ast::Expr;
use crate::lexer::{is_name, lemma_lex_names, lex, SyntaxError, Token, TokenKind};
use crate::parser::{
    binary_level,
    chain_parse,
    closing,
    combine,
    expr_parse,
    operand_parse,
    primary_parse,
    rank,
    text_parse,
};

verus! {

/// The two operands of `e`, where `e` is the node that the operator `kind`
/// makes.
pub open spec fn operands(e: Expr, kind: TokenKind) -> Option<(Expr, Expr)> {
    match e {
        Expr::Or(left, right) => if kind == TokenKind::Or {
            Some((*left, *right))
        } else {
            None
        },
        Expr::And(left, right) => if kind == TokenKind::And {
            Some((*left, *right))
        } else {
            None
        },
        _ => None,
    }
}

/// The tokens `lo..hi` are a primary with the tree `e`: one variable, or an
/// expression between a bracket and its match.
pub open spec fn is_primary(s: Seq<char>, tokens: Seq<Token>, lo: int, hi: int, e: Expr) -> bool
    decreases hi - lo, 0nat,
{
    &&& 0 <= lo < hi <= tokens.len()
    &&& {
        ||| {
            &&& hi == lo + 1
            &&& tokens[lo].kind == TokenKind::Var
            &&& e == Expr::Var(s.subrange(tokens[lo].start as int, tokens[lo].end as int))
        }
        ||| {
            &&& hi >= lo + 2
            &&& closing(tokens[lo].kind) == Some(tokens[hi - 1].kind)
            &&& derives(s, tokens, lo + 1, hi - 1, e, 1)
        }
    }
}

/// The tokens `lo..hi` are an expression of `level` with the tree `e`. On
/// level 3 that is a primary, or `!` and a primary. On a lower level it is an
/// expression of the next level, or an expression of this level, an operator
/// of this level, and an expression of the next: so operators of one level
/// group to the left, and those of a higher level bind tighter.
pub open spec fn derives(
    s: Seq<char>,
    tokens: Seq<Token>,
    lo: int,
    hi: int,
    e: Expr,
    level: nat,
) -> bool
    decreases hi - lo, rank(level),
{
    &&& 0 <= lo < hi <= tokens.len()
    &&& level >= 1
    &&& if level >= 3 {
        ||| is_primary(s, tokens, lo, hi, e)
        ||| {
            &&& tokens[lo].kind == TokenKind::Not
            &&& e matches Expr::Not(inner)
            &&& is_primary(s, tokens, lo + 1, hi, *inner)
        }
    } else {
        ||| derives(s, tokens, lo, hi, e, level + 1)
        ||| exists|k: int|
            {
                &&& lo < k < hi
                &&& binary_level((#[trigger] tokens[k]).kind) == level
                &&& operands(e, tokens[k].kind) matches Some((left, right))
                &&& derives(s, tokens, lo, k, left, level)
                &&& derives(s, tokens, k + 1, hi, right, level + 1)
            }
    }
}

/// The text `s` is an expression with the tree `e`: its tokens as a whole are
/// an expression of the lowest level.
pub open spec fn sentence(s: Seq<char>, e: Expr) -> bool {
    lex(s, 0) matches Ok(tokens) && derives(s, tokens, 0, tokens.len() as int, e, 1)
}

/// No operator that binds tighter than `level` stands at token `hi`.
pub open spec fn ends_level(tokens: Seq<Token>, hi: int, level: nat) -> bool {
    hi == tokens.len() || (0 <= hi < tokens.len() && binary_level(tokens[hi].kind) <= level)
}

proof fn lemma_primary_sound(s: Seq<char>, tokens: Seq<Token>, pos: int)
    requires
        primary_parse(s, tokens, pos) is Ok,
    ensures
        ({
            let (e, p) = primary_parse(s, tokens, pos)->Ok_0;
            is_primary(s, tokens, pos, p, e)
        }),
    decreases tokens.len() - pos, 0nat,
{
    let token = tokens[pos];
    if token.kind != TokenKind::Var {
        lemma_expr_sound(s, tokens, pos + 1, 1);
    }
}

proof fn lemma_expr_sound(s: Seq<char>, tokens: Seq<Token>, pos: int, level: nat)
    requires
        level >= 1,
        expr_parse(s, tokens, pos, level) is Ok,
    ensures
        ({
            let (e, p) = expr_parse(s, tokens, pos, level)->Ok_0;
            derives(s, tokens, pos, p, e, level)
        }),
    decreases tokens.len() - pos, rank(level),
{
    if level >= 3 {
        assert(expr_parse(s, tokens, pos, level) == operand_parse(s, tokens, pos));
        if 0 <= pos < tokens.len() && tokens[pos].kind == TokenKind::Not {
            assert(primary_parse(s, tokens, pos + 1) is Ok);
            lemma_primary_sound(s, tokens, pos + 1);
            let (inner, p) = primary_parse(s, tokens, pos + 1)->Ok_0;
            assert(is_primary(s, tokens, pos + 1, p, inner));
            assert(derives(s, tokens, pos, p, Expr::Not(Box::new(inner)), level));
        } else {
            assert(operand_parse(s, tokens, pos) == primary_parse(s, tokens, pos));
            lemma_primary_sound(s, tokens, pos);
            let (e, p) = primary_parse(s, tokens, pos)->Ok_0;
            assert(is_primary(s, tokens, pos, p, e));
            assert(derives(s, tokens, pos, p, e, level));
        }
    } else {
        lemma_expr_sound(s, tokens, pos, level + 1);
        let (left, p) = expr_parse(s, tokens, pos, level + 1)->Ok_0;
        lemma_chain_sound(s, tokens, pos, p, level, left);
    }
}

proof fn lemma_chain_sound(
    s: Seq<char>,
    tokens: Seq<Token>,
    lo: int,
    pos: int,
    level: nat,
    left: Expr,
)
    requires
        derives(s, tokens, lo, pos, left, level),
        chain_parse(s, tokens, pos, level, left) is Ok,
    ensures
        ({
            let (e, p) = chain_parse(s, tokens, pos, level, left)->Ok_0;
            derives(s, tokens, lo, p, e, level)
        }),
    decreases tokens.len() - pos, 0nat,
{
    if 1 <= level < 3 && 0 <= pos < tokens.len() && binary_level(tokens[pos].kind) == level {
        lemma_expr_sound(s, tokens, pos + 1, level + 1);
        let (right, p) = expr_parse(s, tokens, pos + 1, level + 1)->Ok_0;
        let joined = combine(tokens[pos].kind, left, right);
        assert(operands(joined, tokens[pos].kind) == Some((left, right)));
        assert(derives(s, tokens, lo, p, joined, level));
        lemma_chain_sound(s, tokens, lo, p, level, joined);
    }
}

proof fn lemma_primary_complete(s: Seq<char>, tokens: Seq<Token>, lo: int, hi: int, e: Expr)
    requires
        is_primary(s, tokens, lo, hi, e),
    ensures
        primary_parse(s, tokens, lo) == Ok::<(Expr, int), SyntaxError>((e, hi)),
    decreases hi - lo, 0nat,
{
    if tokens[lo].kind != TokenKind::Var {
        lemma_expr_complete(s, tokens, lo + 1, hi - 1, e, 1);
    }
}

proof fn lemma_expr_complete(
    s: Seq<char>,
    tokens: Seq<Token>,
    lo: int,
    hi: int,
    e: Expr,
    level: nat,
)
    requires
        derives(s, tokens, lo, hi, e, level),
        ends_level(tokens, hi, level),
    ensures
        expr_parse(s, tokens, lo, level) == chain_parse(s, tokens, hi, level, e),
    decreases hi - lo, rank(level),
{
    if level >= 3 {
        assert(expr_parse(s, tokens, lo, level) == operand_parse(s, tokens, lo));
        assert(chain_parse(s, tokens, hi, level, e) == Ok::<(Expr, int), SyntaxError>((e, hi)));
        if tokens[lo].kind == TokenKind::Not {
            assert(!is_primary(s, tokens, lo, hi, e));
            let inner = *e->Not_0;
            assert(is_primary(s, tokens, lo + 1, hi, inner));
            lemma_primary_complete(s, tokens, lo + 1, hi, inner);
            assert(e == Expr::Not(Box::new(inner)));
        } else {
            assert(is_primary(s, tokens, lo, hi, e));
            lemma_primary_complete(s, tokens, lo, hi, e);
        }
    } else if derives(s, tokens, lo, hi, e, level + 1) {
        lemma_expr_complete(s, tokens, lo, hi, e, level + 1);
    } else {
        let k = choose|k: int|
            {
                &&& lo < k < hi
                &&& binary_level((#[trigger] tokens[k]).kind) == level
                &&& operands(e, tokens[k].kind) matches Some((left, right))
                &&& derives(s, tokens, lo, k, left, level)
                &&& derives(s, tokens, k + 1, hi, right, level + 1)
            };
        let (left, right) = operands(e, tokens[k].kind)->Some_0;
        lemma_expr_complete(s, tokens, lo, k, left, level);
        lemma_expr_complete(s, tokens, k + 1, hi, right, level + 1);
        assert(combine(tokens[k].kind, left, right) == e);
    }
}

/// What the parser accepts is an expression of the grammar, with the tree
/// that the grammar gives it.
pub proof fn lemma_parse_sound(s: Seq<char>, e: Expr)
    requires
        text_parse(s) == Ok::<Expr, SyntaxError>(e),
    ensures
        sentence(s, e),
{
    let tokens = lex(s, 0)->Ok_0;
    lemma_expr_sound(s, tokens, 0, 1);
}

/// Every expression of the grammar is accepted by the parser, with its tree.
pub proof fn lemma_parse_complete(s: Seq<char>, e: Expr)
    requires
        sentence(s, e),
    ensures
        text_parse(s) == Ok::<Expr, SyntaxError>(e),
{
    let tokens = lex(s, 0)->Ok_0;
    lemma_expr_complete(s, tokens, 0, tokens.len() as int, e, 1);
}

/// The variables of a tree that the grammar gives to tokens are spanned by
/// variable tokens.
proof fn lemma_derives_names(
    s: Seq<char>,
    tokens: Seq<Token>,
    lo: int,
    hi: int,
    e: Expr,
    level: nat,
)
    requires
        derives(s, tokens, lo, hi, e, level),
        forall|k: int|
            0 <= k < tokens.len() && (#[trigger] tokens[k]).kind == TokenKind::Var ==> is_name(
                s.subrange(tokens[k].start as int, tokens[k].end as int),
            ),
    ensures
        forall|name: Seq<char>| e.vars().contains(name) ==> is_name(name),
    decreases hi - lo, rank(level),
{
    if level >= 3 {
        if is_primary(s, tokens, lo, hi, e) {
            lemma_primary_names(s, tokens, lo, hi, e);
        } else {
            let inner = *e->Not_0;
            lemma_primary_names(s, tokens, lo + 1, hi, inner);
        }
    } else if derives(s, tokens, lo, hi, e, level + 1) {
        lemma_derives_names(s, tokens, lo, hi, e, level + 1);
    } else {
        let k = choose|k: int|
            {
                &&& lo < k < hi
                &&& binary_level((#[trigger] tokens[k]).kind) == level
                &&& operands(e, tokens[k].kind) matches Some((left, right))
                &&& derives(s, tokens, lo, k, left, level)
                &&& derives(s, tokens, k + 1, hi, right, level + 1)
            };
        let (left, right) = operands(e, tokens[k].kind)->Some_0;
        lemma_derives_names(s, tokens, lo, k, left, level);
        lemma_derives_names(s, tokens, k + 1, hi, right, level + 1);
        assert(e.vars() == left.vars().union(right.vars()));
    }
}

/// The variables of the tree of a primary are spanned by variable tokens.
proof fn lemma_primary_names(s: Seq<char>, tokens: Seq<Token>, lo: int, hi: int, e: Expr)
    requires
        is_primary(s, tokens, lo, hi, e),
        forall|k: int|
            0 <= k < tokens.len() && (#[trigger] tokens[k]).kind == TokenKind::Var ==> is_name(
                s.subrange(tokens[k].start as int, tokens[k].end as int),
            ),
    ensures
        forall|name: Seq<char>| e.vars().contains(name) ==> is_name(name),
    decreases hi - lo, 0nat,
{
    if tokens[lo].kind != TokenKind::Var {
        lemma_derives_names(s, tokens, lo + 1, hi - 1, e, 1);
    }
}

/// Every variable of a parsed expression is a name.
pub proof fn lemma_parsed_names(s: Seq<char>, e: Expr)
    requires
        sentence(s, e),
        s.len() <= usize::MAX,
    ensures
        forall|name: Seq<char>| e.vars().contains(name) ==> is_name(name),
{
    lemma_lex_names(s, 0);
    let tokens = lex(s, 0)->Ok_0;
    lemma_derives_names(s, tokens, 0, tokens.len() as int, e, 1);
}

/// The grammar is unambiguous: a text has one tree at most.
pub proof fn lemma_sentence_unique(s: Seq<char>, e1: Expr, e2: Expr)
    requires
        sentence(s, e1),
        sentence(s, e2),
    ensures
        e1 == e2,
{
    lemma_parse_complete(s, e1);
    lemma_parse_complete(s, e2);
}

} // verus!
