use std::collections::{HashMap, HashSet};

use boolmin::ast::AstNode;
use boolmin::eval::{evaluate, find_variables, Assignment};
use boolmin::names::{insert_name, precedes};
use boolmin::parser::parse;

fn assignment(pairs: &[(&str, bool)]) -> Assignment {
    let mut vars = Assignment::new();
    for (name, value) in pairs {
        vars.insert(name, *value);
    }
    vars
}

fn name_set(vars: &[String]) -> HashSet<&str> {
    vars.iter().map(|name| name.as_str()).collect()
}

#[test]
fn get_unique_vars() {
    let expr = parse("a | aa & a_1 | (! aaa_123)").unwrap();
    let vars = find_variables(&expr);
    assert_eq!(name_set(&vars), HashSet::from(["a", "aa", "a_1", "aaa_123"]))
}

#[test]
fn get_repetitive_vars() {
    let expr = parse("b | a & a | (! b) & b | (a | b)").unwrap();
    let vars = find_variables(&expr);
    assert_eq!(name_set(&vars), HashSet::from(["a", "b"]))
}

#[test]
fn eval() {
    struct TestCase<'a> {
        vars: HashMap<&'a str, bool>,
        expected: bool,
    }

    let expr = parse("(a | b) & !c | [!d & a | c & !b]").unwrap();

    let test_cases: Vec<TestCase> = Vec::from([
        TestCase {
            vars: HashMap::from([("a", true), ("b", true), ("c", true), ("d", true)]),
            expected: false,
        },
        TestCase {
            vars: HashMap::from([("a", true), ("b", false), ("c", true), ("d", false)]),
            expected: true,
        },
        TestCase {
            vars: HashMap::from([("a", false), ("b", true), ("c", false), ("d", false)]),
            expected: true,
        },
        TestCase {
            vars: HashMap::new(),
            expected: false,
        },
    ]);

    for (i, tt) in test_cases.iter().enumerate() {
        let pairs: Vec<(&str, bool)> = tt.vars.iter().map(|(k, v)| (*k, *v)).collect();
        let result = evaluate(&expr, &assignment(&pairs));
        assert_eq!(
            result,
            tt.expected,
            "case {} -> expected: {:?}, got: {:?}",
            i + 1,
            tt.expected,
            result
        )
    }
}

#[test]
fn variables_come_sorted_and_once() {
    let expr = parse("b | a & a | (! b) & b | (a | b)").unwrap();
    assert_eq!(find_variables(&expr), vec!["a", "b"]);
    let expr = parse("a | aa & a_1 | (! aaa_123)").unwrap();
    assert_eq!(find_variables(&expr), vec!["a", "a_1", "aa", "aaa_123"]);
    let expr = parse("zeta & Alpha | _x & 9k | alpha").unwrap();
    assert_eq!(find_variables(&expr), vec!["9k", "Alpha", "_x", "alpha", "zeta"]);
}

#[test]
fn variables_of_a_single_name() {
    let expr = AstNode::Var("x".to_string());
    assert_eq!(find_variables(&expr), vec!["x"]);
}

#[test]
fn a_prefix_sorts_before_the_longer_name() {
    let expr = parse("abc | ab | a | abcd").unwrap();
    assert_eq!(find_variables(&expr), vec!["a", "ab", "abc", "abcd"]);
}

#[test]
fn missing_variables_are_false() {
    let expr = parse("a|b").unwrap();
    assert!(!evaluate(&expr, &Assignment::new()));
    assert!(evaluate(&parse("!a").unwrap(), &Assignment::new()));
    let only_b = assignment(&[("b", true)]);
    assert!(evaluate(&expr, &only_b));
    assert!(!evaluate(&parse("a & b").unwrap(), &only_b));
}

#[test]
fn binding_a_missing_variable_to_false_changes_nothing() {
    let expr = parse("(a | !x) & (b | x) & !c").unwrap();
    for bits in 0..8u32 {
        let without = assignment(&[
            ("a", bits & 1 != 0),
            ("b", bits & 2 != 0),
            ("c", bits & 4 != 0),
        ]);
        let with = assignment(&[
            ("a", bits & 1 != 0),
            ("b", bits & 2 != 0),
            ("c", bits & 4 != 0),
            ("x", false),
        ]);
        assert_eq!(evaluate(&expr, &without), evaluate(&expr, &with));
    }
}

#[test]
fn evaluates_each_connective() {
    let t = assignment(&[("p", true), ("q", false)]);
    assert!(evaluate(&parse("p").unwrap(), &t));
    assert!(!evaluate(&parse("q").unwrap(), &t));
    assert!(!evaluate(&parse("!p").unwrap(), &t));
    assert!(evaluate(&parse("!q").unwrap(), &t));
    assert!(evaluate(&parse("p | q").unwrap(), &t));
    assert!(!evaluate(&parse("p & q").unwrap(), &t));
    assert!(!evaluate(&parse("q | q").unwrap(), &t));
    assert!(evaluate(&parse("p & p").unwrap(), &t));
}

#[test]
fn assignment_keeps_the_last_value() {
    let mut vars = Assignment::new();
    assert_eq!(vars.len(), 0);
    assert_eq!(vars.get("a"), None);
    vars.insert("a", true);
    vars.insert("b", false);
    vars.insert("a", false);
    assert_eq!(vars.len(), 2);
    assert_eq!(vars.get("a"), Some(false));
    assert_eq!(vars.get("b"), Some(false));
    assert_eq!(vars.get("c"), None);
}

#[test]
fn names_are_ordered_by_character() {
    assert!(precedes("a", "b"));
    assert!(!precedes("b", "a"));
    assert!(!precedes("a", "a"));
    assert!(precedes("", "a"));
    assert!(!precedes("a", ""));
    assert!(!precedes("", ""));
    assert!(precedes("a", "aa"));
    assert!(precedes("ab", "b"));
    assert!(precedes("Z", "a"));
    assert!(precedes("9", "A"));
    assert!(precedes("A", "_"));
    assert!(precedes("_", "a"));
    assert!(precedes("a_", "aa"));
    assert!(!precedes("abd", "abc"));
}

#[test]
fn a_sorted_set_takes_each_name_once() {
    let mut names: Vec<String> = Vec::new();
    for name in ["m", "c", "x", "c", "a", "m", "z", "b"] {
        insert_name(&mut names, name);
    }
    assert_eq!(names, vec!["a", "b", "c", "m", "x", "z"]);
    insert_name(&mut names, "a");
    insert_name(&mut names, "zz");
    assert_eq!(names, vec!["a", "b", "c", "m", "x", "z", "zz"]);
}
