use boolmin::ast::AstNode;
use boolmin::lexer::{tokenize, Expected, SyntaxError, Token, TokenKind};
use boolmin::parser::parse;

fn var(name: &str) -> AstNode {
    AstNode::Var(name.to_string())
}

fn not(operand: AstNode) -> AstNode {
    AstNode::Not(Box::new(operand))
}

fn or(left: AstNode, right: AstNode) -> AstNode {
    AstNode::Or(Box::new(left), Box::new(right))
}

fn and(left: AstNode, right: AstNode) -> AstNode {
    AstNode::And(Box::new(left), Box::new(right))
}

fn error(position: usize, expected: Expected) -> Result<AstNode, SyntaxError> {
    Err(SyntaxError { position, expected })
}

#[test]
fn and_binds_tighter_than_or() {
    assert_eq!(parse("a | b & c"), Ok(or(var("a"), and(var("b"), var("c")))));
    assert_eq!(parse("a & b | c"), Ok(or(and(var("a"), var("b")), var("c"))));
    assert_eq!(
        parse("a & b | c & d"),
        Ok(or(and(var("a"), var("b")), and(var("c"), var("d"))))
    );
}

#[test]
fn not_binds_tightest() {
    assert_eq!(
        parse("a | b & !c"),
        Ok(or(var("a"), and(var("b"), not(var("c")))))
    );
    assert_eq!(parse("!a & b"), Ok(and(not(var("a")), var("b"))));
    assert_eq!(parse("!a | b"), Ok(or(not(var("a")), var("b"))));
}

#[test]
fn or_groups_to_the_left() {
    assert_eq!(parse("a | b | c"), Ok(or(or(var("a"), var("b")), var("c"))));
    assert_ne!(parse("a | b | c"), Ok(or(var("a"), or(var("b"), var("c")))));
}

#[test]
fn and_groups_to_the_left() {
    assert_eq!(
        parse("a & b & c & d"),
        Ok(and(and(and(var("a"), var("b")), var("c")), var("d")))
    );
}

#[test]
fn brackets_reset_precedence() {
    assert_eq!(parse("(a | b) & c"), Ok(and(or(var("a"), var("b")), var("c"))));
    assert_eq!(parse("a & [b | c]"), Ok(and(var("a"), or(var("b"), var("c")))));
    assert_eq!(parse("a | (b | c)"), Ok(or(var("a"), or(var("b"), var("c")))));
    assert_eq!(parse("((a))"), Ok(var("a")));
    assert_eq!(parse("[(a)]"), Ok(var("a")));
    assert_eq!(parse("!(a | b)"), Ok(not(or(var("a"), var("b")))));
    assert_eq!(parse("![a & b] | c"), Ok(or(not(and(var("a"), var("b"))), var("c"))));
}

#[test]
fn plus_and_star_are_or_and_and() {
    assert_eq!(parse("a + b * c"), parse("a | b & c"));
    assert_eq!(parse("a * b + c"), Ok(or(and(var("a"), var("b")), var("c"))));
}

#[test]
fn white_space_is_insignificant() {
    assert_eq!(parse("a|b&c"), parse("a | b & c"));
    assert_eq!(parse("  a\n|\tb\r\n&  c  "), parse("a | b & c"));
    assert_eq!(parse("! a"), Ok(not(var("a"))));
    assert_eq!(parse("( a )"), Ok(var("a")));
}

#[test]
fn variable_names() {
    assert_eq!(parse("a_1"), Ok(var("a_1")));
    assert_eq!(parse("_"), Ok(var("_")));
    assert_eq!(parse("1a"), Ok(var("1a")));
    assert_eq!(parse("X9_y"), Ok(var("X9_y")));
    assert_eq!(parse("true"), Ok(var("true")));
    assert_eq!(parse("12_"), Ok(var("12_")));
}

#[test]
fn numerals_are_no_variables() {
    assert_eq!(parse("123"), error(0, Expected::Variable));
    assert_eq!(parse("a & 12"), error(4, Expected::Variable));
    assert_eq!(parse("0"), error(0, Expected::Variable));
    assert_eq!(parse("(7)"), error(1, Expected::Variable));
}

#[test]
fn unknown_characters_are_refused() {
    assert_eq!(parse("a $ b"), error(2, Expected::Symbol));
    assert_eq!(parse("a-b"), error(1, Expected::Symbol));
    assert_eq!(parse("a & {b}"), error(4, Expected::Symbol));
    assert_eq!(parse("é"), error(0, Expected::Symbol));
    assert_eq!(parse("a | é"), error(4, Expected::Symbol));
}

#[test]
fn the_end_of_a_text_with_wide_characters_is_counted_in_characters() {
    // the fault is the first wide character; nothing behind it is read
    assert_eq!(tokenize("a | \u{1F600}\u{1F600}"), Err(SyntaxError { position: 4, expected: Expected::Symbol }));
    assert_eq!(parse("\u{00E9}\u{00E9} | a"), error(0, Expected::Symbol));
}

#[test]
fn empty_text_is_refused() {
    assert_eq!(parse(""), error(0, Expected::Operand));
    assert_eq!(parse("   "), error(3, Expected::Operand));
    assert_eq!(parse("\n\t"), error(2, Expected::Operand));
}

#[test]
fn missing_operands_are_refused() {
    assert_eq!(parse("a |"), error(3, Expected::Operand));
    assert_eq!(parse("a & "), error(4, Expected::Operand));
    assert_eq!(parse("| a"), error(0, Expected::Operand));
    assert_eq!(parse("a | & b"), error(4, Expected::Operand));
    assert_eq!(parse("!"), error(1, Expected::Operand));
    assert_eq!(parse("()"), error(1, Expected::Operand));
    assert_eq!(parse("a & ( | b)"), error(6, Expected::Operand));
}

#[test]
fn a_second_negation_is_refused() {
    assert_eq!(parse("!!a"), error(1, Expected::Operand));
    assert_eq!(parse("!(!a)"), Ok(not(not(var("a")))));
}

#[test]
fn unbalanced_brackets_are_refused() {
    assert_eq!(parse("(a | b"), error(6, Expected::Closing));
    assert_eq!(parse("(a | b]"), error(6, Expected::Closing));
    assert_eq!(parse("[a)"), error(2, Expected::Closing));
    assert_eq!(parse("((a)"), error(4, Expected::Closing));
    assert_eq!(parse("a)"), error(1, Expected::Operator));
    assert_eq!(parse("(a))"), error(3, Expected::Operator));
    assert_eq!(parse(")"), error(0, Expected::Operand));
}

#[test]
fn trailing_input_is_refused() {
    assert_eq!(parse("a b"), error(2, Expected::Operator));
    assert_eq!(parse("a !b"), error(2, Expected::Operator));
    assert_eq!(parse("a (b)"), error(2, Expected::Operator));
    assert_eq!(parse("(a) b"), error(4, Expected::Operator));
}

#[test]
fn the_first_bad_token_wins_over_a_bad_arrangement() {
    assert_eq!(parse("a b $"), error(4, Expected::Symbol));
    assert_eq!(parse("| 5"), error(2, Expected::Variable));
}

#[test]
fn tokens_of_a_text() {
    let token = |kind, start, end| Token { kind, start, end };
    assert_eq!(
        tokenize("ab&(!c |[d])"),
        Ok(vec![
            token(TokenKind::Var, 0, 2),
            token(TokenKind::And, 2, 3),
            token(TokenKind::OpenRound, 3, 4),
            token(TokenKind::Not, 4, 5),
            token(TokenKind::Var, 5, 6),
            token(TokenKind::Or, 7, 8),
            token(TokenKind::OpenSquare, 8, 9),
            token(TokenKind::Var, 9, 10),
            token(TokenKind::CloseSquare, 10, 11),
            token(TokenKind::CloseRound, 11, 12),
        ])
    );
    assert_eq!(tokenize(""), Ok(vec![]));
    assert_eq!(tokenize(" \t\r\n"), Ok(vec![]));
    assert_eq!(
        tokenize("+*"),
        Ok(vec![token(TokenKind::Or, 0, 1), token(TokenKind::And, 1, 2)])
    );
    assert_eq!(tokenize("a1 1a"), Ok(vec![token(TokenKind::Var, 0, 2), token(TokenKind::Var, 3, 5)]));
}

#[test]
fn tokens_need_not_make_an_expression() {
    assert_eq!(tokenize(") (").map(|tokens| tokens.len()), Ok(2));
    assert_eq!(tokenize("12 a"), Err(SyntaxError { position: 0, expected: Expected::Variable }));
    assert_eq!(tokenize("a 12"), Err(SyntaxError { position: 2, expected: Expected::Variable }));
    assert_eq!(tokenize("a#"), Err(SyntaxError { position: 1, expected: Expected::Symbol }));
}

#[test]
fn a_long_chain_parses() {
    let names: Vec<String> = (0..500).map(|i| format!("x{}", i)).collect();
    let text = names.join(" & ");
    let mut expected = var("x0");
    for name in &names[1..] {
        expected = and(expected, var(name));
    }
    assert_eq!(parse(&text), Ok(expected));
}
