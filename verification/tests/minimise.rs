use boolmin::eval::{evaluate, Assignment};
use boolmin::logic::{decode, encode, fill_vars, simplify, truth_table_ones};
use boolmin::parser::parse;
use quine_mc_cluskey::Bool;

fn labels(names: &[&str]) -> Vec<String> {
    names.iter().map(|name| name.to_string()).collect()
}

fn neg(term: u8) -> Bool {
    Bool::Not(Box::new(Bool::Term(term)))
}

/// The rows of the table over `names` on which the text `solution` is true.
fn ones_over(solution: &str, names: &[String]) -> Vec<usize> {
    let expr = parse(solution).unwrap();
    let mut vars = Assignment::new();
    let mut ones = Vec::new();
    for row in 0..(1usize << names.len()) {
        fill_vars(names, &mut vars, row);
        if evaluate(&expr, &vars) {
            ones.push(row);
        }
    }
    ones
}

fn check_round_trip(text: &str) -> Vec<String> {
    let expr = parse(text).unwrap();
    let (names, ones) = truth_table_ones(&expr).unwrap();
    let solutions = simplify(&expr).unwrap();
    assert!(!solutions.is_empty());
    for solution in &solutions {
        assert_eq!(ones_over(solution, &names), ones, "{} for {}", solution, text);
    }
    solutions
}

#[test]
fn a_contradiction_minimises_to_false() {
    assert_eq!(simplify(&parse("a & !a").unwrap()), Some(vec!["false".to_string()]));
    assert_eq!(
        simplify(&parse("(a | b) & !a & !b").unwrap()),
        Some(vec!["false".to_string()])
    );
}

#[test]
fn a_tautology_minimises_to_true() {
    assert_eq!(simplify(&parse("a | !a").unwrap()), Some(vec!["true".to_string()]));
    assert_eq!(
        simplify(&parse("a & b | !a | !b").unwrap()),
        Some(vec!["true".to_string()])
    );
}

#[test]
fn absorbs_and_merges() {
    assert_eq!(simplify(&parse("a & (b | a)").unwrap()), Some(vec!["a".to_string()]));
    assert_eq!(simplify(&parse("a & b | a & !b").unwrap()), Some(vec!["a".to_string()]));
    assert_eq!(simplify(&parse("!(!b)").unwrap()), Some(vec!["b".to_string()]));
}

#[test]
fn keeps_what_is_minimal() {
    assert_eq!(simplify(&parse("x").unwrap()), Some(vec!["x".to_string()]));
    assert_eq!(simplify(&parse("!x").unwrap()), Some(vec!["!x".to_string()]));
    assert_eq!(simplify(&parse("b & a").unwrap()), Some(vec!["a & b".to_string()]));
    assert_eq!(simplify(&parse("b & !a").unwrap()), Some(vec!["!a & b".to_string()]));
}

#[test]
fn solutions_have_the_table_of_the_expression() {
    check_round_trip("a & (b | !c)");
    check_round_trip("(!a & (b & !d)) | (a & (e & d) & !c)");
    check_round_trip("(a | b) & !c | [!d & a | c & !b]");
    check_round_trip("a | b");
    check_round_trip("a & !b | !a & b");
    check_round_trip("(a | b | c) & (!a | !b | !c)");
    check_round_trip("x1 & x2 | x3 & x4 | x5 & x6");
}

#[test]
fn returns_every_minimal_solution() {
    // true on all rows but 0 and 7: six prime implicants, two covers of three
    let solutions = check_round_trip("(a | b | c) & (!a | !b | !c)");
    assert_eq!(solutions.len(), 2);
    assert_ne!(solutions[0], solutions[1]);
    for solution in &solutions {
        assert_eq!(solution.matches(" | ").count(), 2);
        assert_eq!(solution.matches(" & ").count(), 3);
    }
}

#[test]
fn de_morgan_is_seen_through() {
    let solutions = check_round_trip("!(a & b)");
    assert_eq!(solutions.len(), 1);
    let mut parts: Vec<&str> = solutions[0].split(" | ").collect();
    parts.sort();
    assert_eq!(parts, vec!["!a", "!b"]);
}

fn disjunction_of(count: usize) -> String {
    let names: Vec<String> = (0..count).map(|i| format!("v{:02}", i)).collect();
    names.join(" | ")
}

#[test]
fn minimising_33_variables_is_refused() {
    let expr = parse(&disjunction_of(33)).unwrap();
    assert_eq!(simplify(&expr), None);
    let expr = parse(&disjunction_of(40)).unwrap();
    assert_eq!(simplify(&expr), None);
}

#[test]
fn minimises_8_variables() {
    let solutions = check_round_trip(&disjunction_of(8));
    assert_eq!(solutions.len(), 1);
    let mut parts: Vec<&str> = solutions[0].split(" | ").collect();
    parts.sort();
    assert_eq!(parts, vec!["v00", "v01", "v02", "v03", "v04", "v05", "v06", "v07"]);
}

#[test]
fn encodes_rows_as_minterms() {
    assert_eq!(encode(&[], 3), Bool::Or(vec![]));
    assert_eq!(
        encode(&[1, 2], 2),
        Bool::Or(vec![
            Bool::And(vec![Bool::Term(0), neg(1)]),
            Bool::And(vec![neg(0), Bool::Term(1)]),
        ])
    );
    match encode(&[5], 3) {
        Bool::Or(products) => {
            assert_eq!(products.len(), 1);
            match &products[0] {
                Bool::And(literals) => {
                    assert_eq!(literals.len(), 3);
                    assert!(matches!(literals[0], Bool::Term(0)));
                    assert!(matches!(&literals[1], Bool::Not(inner) if matches!(**inner, Bool::Term(1))));
                    assert!(matches!(literals[2], Bool::Term(2)));
                },
                _ => panic!("a product was expected"),
            }
        },
        _ => panic!("a sum was expected"),
    }
}

#[test]
fn encodes_rows_beyond_the_terms_by_their_low_bits() {
    assert_eq!(
        encode(&[6], 2),
        Bool::Or(vec![Bool::And(vec![neg(0), Bool::Term(1)])])
    );
    assert_eq!(encode(&[3], 0), Bool::Or(vec![Bool::And(vec![])]));
}

#[test]
fn decodes_each_kind_of_formula() {
    let names = labels(&["a", "b", "c"]);
    assert_eq!(decode(&Bool::True, &names), "true");
    assert_eq!(decode(&Bool::False, &names), "false");
    assert_eq!(decode(&Bool::Term(1), &names), "b");
    assert_eq!(decode(&neg(2), &names), "!c");
    assert_eq!(
        decode(&Bool::And(vec![Bool::Term(0), neg(1), Bool::Term(2)]), &names),
        "a & !b & c"
    );
    assert_eq!(
        decode(
            &Bool::Or(vec![
                Bool::And(vec![Bool::Term(0), neg(1)]),
                Bool::Term(2),
                neg(0),
            ]),
            &names
        ),
        "a & !b | c | !a"
    );
}

#[test]
fn decodes_without_brackets() {
    let names = labels(&["a", "b"]);
    assert_eq!(
        decode(&Bool::And(vec![Bool::Or(vec![Bool::Term(0), Bool::Term(1)]), Bool::Term(0)]), &names),
        "a | b & a"
    );
    assert_eq!(
        decode(&Bool::Not(Box::new(Bool::And(vec![Bool::Term(0), Bool::Term(1)]))), &names),
        "!a & b"
    );
    assert_eq!(decode(&Bool::Not(Box::new(neg(0))), &names), "!!a");
}

#[test]
fn decodes_short_lists() {
    let names = labels(&["a"]);
    assert_eq!(decode(&Bool::And(vec![]), &names), "");
    assert_eq!(decode(&Bool::Or(vec![]), &names), "");
    assert_eq!(decode(&Bool::And(vec![Bool::Term(0)]), &names), "a");
    assert_eq!(decode(&Bool::Or(vec![Bool::True, Bool::False]), &names), "true | false");
}

#[test]
fn the_sum_of_minterms_reads_back() {
    for text in ["a & (b | !c)", "(!a & (b & !d)) | (a & (e & d) & !c)", "x", "!x | y"] {
        let expr = parse(text).unwrap();
        let (names, ones) = truth_table_ones(&expr).unwrap();
        let sum = decode(&encode(&ones, names.len() as u8), &names);
        assert_eq!(ones_over(&sum, &names), ones, "{} for {}", sum, text);
    }
    let expr = parse("b & !a").unwrap();
    let (names, ones) = truth_table_ones(&expr).unwrap();
    assert_eq!(decode(&encode(&ones, 2), &names), "!a & b");
    let expr = parse("a | b").unwrap();
    let (names, ones) = truth_table_ones(&expr).unwrap();
    assert_eq!(decode(&encode(&ones, 2), &names), "a & !b | !a & b | a & b");
}
