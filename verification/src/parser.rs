//! The parser: tokens to expression tree, by operator precedence.
//!
//! Binary operators are ranked in levels, the loosest first: `|` on level 1,
//! `&` on level 2. An operand (a variable, a bracketed expression, or either
//! one negated) stands on level 3. Operators of one level group to the left.

use vstd::prelude::*;
use crate::ast::{AstNode, Expr};
use crate::lexer::{is_name, lex, spans_valid, tokenize, Expected, SyntaxError, Token, TokenKind};
use crate::grammar::{lemma_parse_complete, lemma_parse_sound, lemma_parsed_names, sentence};

verus! {

/// The level of the loosest binary operator.
pub const LOWEST_LEVEL: u8 = 1;

/// The level of operands, above every binary operator.
pub const OPERAND_LEVEL: u8 = 3;

/// The table of binary operators: the level of each, and 0 for a token that
/// is none.
pub open spec fn binary_level(kind: TokenKind) -> nat {
    match kind {
        TokenKind::Or => 1,
        TokenKind::And => 2,
        _ => 0,
    }
}

/// The bracket that closes `kind`, if `kind` opens one.
pub open spec fn closing(kind: TokenKind) -> Option<TokenKind> {
    match kind {
        TokenKind::OpenRound => Some(TokenKind::CloseRound),
        TokenKind::OpenSquare => Some(TokenKind::CloseSquare),
        _ => None,
    }
}

/// The node that the binary operator `kind` makes of two operands.
pub open spec fn combine(kind: TokenKind, left: Expr, right: Expr) -> Expr {
    if kind == TokenKind::And {
        Expr::And(Box::new(left), Box::new(right))
    } else {
        Expr::Or(Box::new(left), Box::new(right))
    }
}

/// The position in the text of token `pos`, and the length of the text where
/// the tokens have run out.
pub open spec fn position_of(s: Seq<char>, tokens: Seq<Token>, pos: int) -> usize {
    if 0 <= pos < tokens.len() {
        tokens[pos].start
    } else {
        s.len() as usize
    }
}

/// The error of finding at token `pos` something other than `expected`.
pub open spec fn error_at(s: Seq<char>, tokens: Seq<Token>, pos: int, expected: Expected) -> SyntaxError {
    SyntaxError { position: position_of(s, tokens, pos), expected }
}

/// What parsing yields: a tree and the index of the token behind it.
pub type Parsed = Result<(Expr, int), SyntaxError>;

/// The measure by which parsing on `level` descends.
pub open spec fn rank(level: nat) -> nat {
    if level >= 3 {
        2
    } else {
        (8 - 2 * level) as nat
    }
}

/// A variable or a bracketed expression at token `pos`.
pub open spec fn primary_parse(s: Seq<char>, tokens: Seq<Token>, pos: int) -> Parsed
    decreases tokens.len() - pos, 0nat,
{
    if 0 <= pos < tokens.len() {
        let token = tokens[pos];
        if token.kind == TokenKind::Var {
            Ok((Expr::Var(s.subrange(token.start as int, token.end as int)), pos + 1))
        } else if closing(token.kind) is Some {
            match expr_parse(s, tokens, pos + 1, 1) {
                Ok((inner, p)) => if 0 <= p < tokens.len() && Some(tokens[p].kind) == closing(
                    token.kind,
                ) {
                    Ok((inner, p + 1))
                } else {
                    Err(error_at(s, tokens, p, Expected::Closing))
                },
                Err(error) => Err(error),
            }
        } else {
            Err(error_at(s, tokens, pos, Expected::Operand))
        }
    } else {
        Err(error_at(s, tokens, pos, Expected::Operand))
    }
}

/// An operand at token `pos`: a primary, or `!` and a primary.
pub open spec fn operand_parse(s: Seq<char>, tokens: Seq<Token>, pos: int) -> Parsed
    decreases tokens.len() - pos, 1nat,
{
    if 0 <= pos < tokens.len() && tokens[pos].kind == TokenKind::Not {
        match primary_parse(s, tokens, pos + 1) {
            Ok((inner, p)) => Ok((Expr::Not(Box::new(inner)), p)),
            Err(error) => Err(error),
        }
    } else {
        primary_parse(s, tokens, pos)
    }
}

/// An expression of `level` at token `pos`: an expression of the next level,
/// and as many operators of `level` with a right operand of the next level
/// as follow.
pub open spec fn expr_parse(s: Seq<char>, tokens: Seq<Token>, pos: int, level: nat) -> Parsed
    decreases tokens.len() - pos, rank(level),
{
    if level >= 3 {
        operand_parse(s, tokens, pos)
    } else {
        match expr_parse(s, tokens, pos, level + 1) {
            Ok((left, p)) => if pos < p <= tokens.len() {
                chain_parse(s, tokens, p, level, left)
            } else {
                Err(error_at(s, tokens, p, Expected::Operator))
            },
            Err(error) => Err(error),
        }
    }
}

/// The rest of an expression of `level` of which `left`, ending before token
/// `pos`, has been read.
pub open spec fn chain_parse(
    s: Seq<char>,
    tokens: Seq<Token>,
    pos: int,
    level: nat,
    left: Expr,
) -> Parsed
    decreases tokens.len() - pos, 0nat,
{
    if 1 <= level < 3 && 0 <= pos < tokens.len() && binary_level(tokens[pos].kind) == level {
        match expr_parse(s, tokens, pos + 1, level + 1) {
            Ok((right, p)) => if pos < p <= tokens.len() {
                chain_parse(s, tokens, p, level, combine(tokens[pos].kind, left, right))
            } else {
                Err(error_at(s, tokens, p, Expected::Operator))
            },
            Err(error) => Err(error),
        }
    } else {
        Ok((left, pos))
    }
}

/// The expression that the tokens make as a whole.
pub open spec fn tokens_parse(s: Seq<char>, tokens: Seq<Token>) -> Result<Expr, SyntaxError> {
    match expr_parse(s, tokens, 0, 1) {
        Ok((expr, p)) => if p == tokens.len() {
            Ok(expr)
        } else {
            Err(error_at(s, tokens, p, Expected::Operator))
        },
        Err(error) => Err(error),
    }
}

/// The expression that the text `s` makes, or the first error in it: that of
/// its tokens, or else that of their arrangement.
pub open spec fn text_parse(s: Seq<char>) -> Result<Expr, SyntaxError> {
    match lex(s, 0) {
        Ok(tokens) => tokens_parse(s, tokens),
        Err(error) => Err(error),
    }
}

/// The model of what an executable parsing step returns.
pub open spec fn outcome(r: Result<(AstNode, usize), SyntaxError>) -> Parsed {
    match r {
        Ok((node, p)) => Ok((node@, p as int)),
        Err(error) => Err(error),
    }
}

fn level_of(kind: TokenKind) -> (r: u8)
    ensures
        r == binary_level(kind),
{
    match kind {
        TokenKind::Or => 1,
        TokenKind::And => 2,
        _ => 0,
    }
}

fn closing_of(kind: TokenKind) -> (r: Option<TokenKind>)
    ensures
        r == closing(kind),
{
    match kind {
        TokenKind::OpenRound => Some(TokenKind::CloseRound),
        TokenKind::OpenSquare => Some(TokenKind::CloseSquare),
        _ => None,
    }
}

fn fail_at(text: &str, tokens: &Vec<Token>, pos: usize, expected: Expected) -> (r: SyntaxError)
    ensures
        r == error_at(text@, tokens@, pos as int, expected),
{
    if pos < tokens.len() {
        SyntaxError { position: tokens[pos].start, expected }
    } else {
        SyntaxError { position: text.unicode_len(), expected }
    }
}

fn parse_primary(text: &str, tokens: &Vec<Token>, pos: usize) -> (r: Result<
    (AstNode, usize),
    SyntaxError,
>)
    requires
        spans_valid(text@, tokens@),
        pos <= tokens.len(),
    ensures
        outcome(r) == primary_parse(text@, tokens@, pos as int),
        r matches Ok((_, p)) ==> pos < p <= tokens.len(),
    decreases tokens.len() - pos, 0nat,
{
    if pos >= tokens.len() {
        return Err(fail_at(text, tokens, pos, Expected::Operand));
    }
    let token = tokens[pos];
    if token.kind == TokenKind::Var {
        let name = text.substring_char(token.start, token.end).to_owned();
        return Ok((AstNode::Var(name), pos + 1));
    }
    match closing_of(token.kind) {
        Some(close) => match parse_expr(text, tokens, pos + 1, LOWEST_LEVEL) {
            Ok((inner, p)) => {
                if p < tokens.len() && tokens[p].kind == close {
                    Ok((inner, p + 1))
                } else {
                    Err(fail_at(text, tokens, p, Expected::Closing))
                }
            },
            Err(error) => Err(error),
        },
        None => Err(fail_at(text, tokens, pos, Expected::Operand)),
    }
}

fn parse_operand(text: &str, tokens: &Vec<Token>, pos: usize) -> (r: Result<
    (AstNode, usize),
    SyntaxError,
>)
    requires
        spans_valid(text@, tokens@),
        pos <= tokens.len(),
    ensures
        outcome(r) == operand_parse(text@, tokens@, pos as int),
        r matches Ok((_, p)) ==> pos < p <= tokens.len(),
    decreases tokens.len() - pos, 1nat,
{
    if pos < tokens.len() && tokens[pos].kind == TokenKind::Not {
        match parse_primary(text, tokens, pos + 1) {
            Ok((inner, p)) => Ok((AstNode::Not(Box::new(inner)), p)),
            Err(error) => Err(error),
        }
    } else {
        parse_primary(text, tokens, pos)
    }
}

/// Resolves the operators from token `pos` on by their levels: reads an
/// expression of `level` and returns it with the index of the token behind it.
fn parse_expr(text: &str, tokens: &Vec<Token>, pos: usize, level: u8) -> (r: Result<
    (AstNode, usize),
    SyntaxError,
>)
    requires
        spans_valid(text@, tokens@),
        pos <= tokens.len(),
        level >= 1,
    ensures
        outcome(r) == expr_parse(text@, tokens@, pos as int, level as nat),
        r matches Ok((_, p)) ==> pos < p <= tokens.len(),
    decreases tokens.len() - pos, rank(level as nat),
{
    if level >= OPERAND_LEVEL {
        return parse_operand(text, tokens, pos);
    }
    let (mut left, mut p) = match parse_expr(text, tokens, pos, level + 1) {
        Ok(first) => first,
        Err(error) => {
            return Err(error);
        },
    };
    while p < tokens.len() && level_of(tokens[p].kind) == level
        invariant
            spans_valid(text@, tokens@),
            1 <= level < 3,
            pos < p <= tokens.len(),
            expr_parse(text@, tokens@, pos as int, level as nat) == chain_parse(
                text@,
                tokens@,
                p as int,
                level as nat,
                left@,
            ),
        decreases tokens.len() - p,
    {
        let kind = tokens[p].kind;
        match parse_expr(text, tokens, p + 1, level + 1) {
            Ok((right, q)) => {
                left = if kind == TokenKind::And {
                    AstNode::And(Box::new(left), Box::new(right))
                } else {
                    AstNode::Or(Box::new(left), Box::new(right))
                };
                p = q;
            },
            Err(error) => {
                return Err(error);
            },
        }
    }
    Ok((left, p))
}

/// Parses `expression`. `!` binds tighter than `&` (or `*`), which binds
/// tighter than `|` (or `+`); `&` and `|` group to the left; round and
/// square brackets enclose an expression; white space separates tokens. The
/// result is the one tree that the grammar gives the text, and an error
/// exactly where the grammar gives it none.
pub fn parse(expression: &str) -> (r: Result<AstNode, SyntaxError>)
    ensures
        match r {
            Ok(node) => text_parse(expression@) == Ok::<Expr, SyntaxError>(node@),
            Err(error) => text_parse(expression@) == Err::<Expr, SyntaxError>(error),
        },
        r matches Ok(node) ==> sentence(expression@, node@),
        r is Err ==> forall|e: Expr| !sentence(expression@, e),
        r matches Ok(node) ==> forall|name: Seq<char>| node@.vars().contains(name) ==> is_name(name),
{
    let tokens = match tokenize(expression) {
        Ok(tokens) => tokens,
        Err(error) => {
            proof {
                assert forall|e: Expr| !sentence(expression@, e) by {}
            }
            return Err(error);
        },
    };
    proof {
        if text_parse(expression@) is Ok {
            lemma_parse_sound(expression@, text_parse(expression@)->Ok_0);
        }
        assert forall|e: Expr| sentence(expression@, e) implies text_parse(expression@) == Ok::<
            Expr,
            SyntaxError,
        >(e) by {
            lemma_parse_complete(expression@, e);
        }
        if text_parse(expression@) is Ok {
            lemma_parsed_names(expression@, text_parse(expression@)->Ok_0);
        }
    }
    match parse_expr(expression, &tokens, 0, LOWEST_LEVEL) {
        Ok((node, p)) => {
            if p == tokens.len() {
                Ok(node)
            } else {
                Err(fail_at(expression, &tokens, p, Expected::Operator))
            }
        },
        Err(error) => Err(error),
    }
}

} // verus!
