use std::collections::HashMap;

use boolmin::eval::Assignment;
use boolmin::logic::{fill_vars, truth_table_ones};
use boolmin::parser::parse;

fn snapshot<'a>(vars: &Assignment, order: &'a [String]) -> HashMap<&'a str, bool> {
    let found: HashMap<&str, bool> = order
        .iter()
        .filter_map(|name| vars.get(name).map(|value| (name.as_str(), value)))
        .collect();
    assert_eq!(found.len(), vars.len());
    found
}

fn check_var_filling() {
    let order: Vec<String> = vec!["a", "b", "c", "d"]
        .into_iter()
        .map(|s| s.to_string())
        .collect();
    let mut vars = Assignment::new();

    fill_vars(&order, &mut vars, 0);
    assert_eq!(
        snapshot(&vars, &order),
        HashMap::from_iter([("a", false), ("b", false), ("c", false), ("d", false)])
    );

    fill_vars(&order, &mut vars, 1);
    assert_eq!(
        snapshot(&vars, &order),
        HashMap::from_iter([("a", true), ("b", false), ("c", false), ("d", false)])
    );

    fill_vars(&order, &mut vars, 2);
    assert_eq!(
        snapshot(&vars, &order),
        HashMap::from_iter([("a", false), ("b", true), ("c", false), ("d", false)])
    );

    fill_vars(&order, &mut vars, 7);
    assert_eq!(
        snapshot(&vars, &order),
        HashMap::from_iter([("a", true), ("b", true), ("c", true), ("d", false)])
    );
}

fn check_ones_simple() {
    let expr = parse("a & (b | !c)").unwrap();
    let (vars, ones) = truth_table_ones(&expr).unwrap();

    assert_eq!(vars, vec!["a", "b", "c"]);
    assert_eq!(ones, vec![1, 3, 7]);
}

fn check_ones_complex() {
    let expr = parse("(!a & (b & !d)) | (a & (e & d) & !c)").unwrap();
    let (vars, ones) = truth_table_ones(&expr).unwrap();

    assert_eq!(vars, vec!["a", "b", "c", "d", "e"]);
    assert_eq!(ones, vec![2, 6, 18, 22, 25, 27]);
}

#[test]
fn logic_var_filling() {
    check_var_filling();
}

#[test]
fn logic_ones_simple() {
    check_ones_simple();
}

#[test]
fn logic_ones_complex() {
    check_ones_complex();
}

#[test]
fn simp_var_filling() {
    check_var_filling();
}

#[test]
fn simp_ones_simple() {
    check_ones_simple();
}

#[test]
fn simp_ones_complex() {
    check_ones_complex();
}

#[test]
fn filling_leaves_other_names_alone() {
    let order: Vec<String> = vec!["a".to_string(), "b".to_string()];
    let mut vars = Assignment::new();
    vars.insert("z", true);
    vars.insert("a", true);
    fill_vars(&order, &mut vars, 2);
    assert_eq!(vars.len(), 3);
    assert_eq!(vars.get("z"), Some(true));
    assert_eq!(vars.get("a"), Some(false));
    assert_eq!(vars.get("b"), Some(true));
}

#[test]
fn filling_a_repeated_name_keeps_its_last_bit() {
    let order: Vec<String> = vec!["a".to_string(), "b".to_string(), "a".to_string()];
    let mut vars = Assignment::new();
    fill_vars(&order, &mut vars, 0b011);
    assert_eq!(vars.len(), 2);
    assert_eq!(vars.get("a"), Some(false));
    assert_eq!(vars.get("b"), Some(true));
    fill_vars(&order, &mut vars, 0b100);
    assert_eq!(vars.get("a"), Some(true));
    assert_eq!(vars.get("b"), Some(false));
}

#[test]
fn filling_reads_high_bits_as_they_are() {
    let order: Vec<String> = (0..40).map(|i| format!("v{:02}", i)).collect();
    let mut vars = Assignment::new();
    fill_vars(&order, &mut vars, 1usize << 31);
    for (bit, name) in order.iter().enumerate() {
        assert_eq!(vars.get(name), Some(bit == 31));
    }
}

#[test]
fn filling_no_names_changes_nothing() {
    let order: Vec<String> = Vec::new();
    let mut vars = Assignment::new();
    vars.insert("a", true);
    fill_vars(&order, &mut vars, 5);
    assert_eq!(vars.len(), 1);
    assert_eq!(vars.get("a"), Some(true));
}

#[test]
fn table_of_one_variable() {
    let (vars, ones) = truth_table_ones(&parse("x").unwrap()).unwrap();
    assert_eq!(vars, vec!["x"]);
    assert_eq!(ones, vec![1]);
    let (_, ones) = truth_table_ones(&parse("!x").unwrap()).unwrap();
    assert_eq!(ones, vec![0]);
}

#[test]
fn table_of_a_contradiction_is_empty() {
    let (vars, ones) = truth_table_ones(&parse("a & !a").unwrap()).unwrap();
    assert_eq!(vars, vec!["a"]);
    assert_eq!(ones, Vec::<usize>::new());
}

#[test]
fn table_of_a_tautology_is_full() {
    let (vars, ones) = truth_table_ones(&parse("a | !a | b").unwrap()).unwrap();
    assert_eq!(vars, vec!["a", "b"]);
    assert_eq!(ones, vec![0, 1, 2, 3]);
}

#[test]
fn table_orders_bits_by_sorted_names() {
    // written with `b` first, yet `a` is bit 0
    let (vars, ones) = truth_table_ones(&parse("b & !a").unwrap()).unwrap();
    assert_eq!(vars, vec!["a", "b"]);
    assert_eq!(ones, vec![2]);
}

fn disjunction_of(count: usize) -> String {
    let names: Vec<String> = (0..count).map(|i| format!("v{:02}", i)).collect();
    names.join(" | ")
}

#[test]
fn table_of_33_variables_is_refused() {
    let expr = parse(&disjunction_of(33)).unwrap();
    assert_eq!(truth_table_ones(&expr), None);
}

#[test]
fn table_of_12_variables() {
    let expr = parse(&disjunction_of(12)).unwrap();
    let (vars, ones) = truth_table_ones(&expr).unwrap();
    assert_eq!(vars.len(), 12);
    assert_eq!(ones, (1..4096).collect::<Vec<usize>>());
}
