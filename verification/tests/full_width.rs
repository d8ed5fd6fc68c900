use boolmin::implicants::{render_cover, render_implicant, simplify_rows};
use boolmin::logic::{simplify, truth_table_ones};
use boolmin::parser::parse;

fn columns(count: usize) -> Vec<String> {
    (0..count).map(|i| format!("v{:02}", i)).collect()
}

fn pattern(low_bits_first: &str) -> String {
    // written with bit 0 first, padded with unfixed zeros up to bit 31
    let mut chars: Vec<char> = low_bits_first.chars().collect();
    while chars.len() < 32 {
        chars.push('0');
    }
    chars.reverse();
    chars.into_iter().collect()
}

#[test]
fn the_conjunction_of_32_variables_is_its_own_minimal_form() {
    let names = columns(32);
    let solutions = simplify_rows(&names, &[0xFFFF_FFFF]);
    assert_eq!(solutions, vec![names.join(" & ")]);
}

#[test]
fn two_rows_of_a_full_table_that_differ_in_one_bit_merge() {
    let names = columns(32);
    let solutions = simplify_rows(&names, &[0, 1]);
    let expected: Vec<String> = names[1..].iter().map(|name| format!("!{}", name)).collect();
    assert_eq!(solutions, vec![expected.join(" & ")]);
    let solutions = simplify_rows(&names, &[0x7FFF_FFFF, 0xFFFF_FFFF]);
    assert_eq!(solutions, vec![names[..31].join(" & ")]);
}

#[test]
fn rows_of_a_full_table_that_do_not_merge_stay_apart() {
    let names = columns(32);
    let solutions = simplify_rows(&names, &[0, 0xFFFF_FFFF]);
    assert_eq!(solutions.len(), 1);
    let negated: Vec<String> = names.iter().map(|name| format!("!{}", name)).collect();
    let mut parts: Vec<&str> = solutions[0].split(" | ").collect();
    parts.sort();
    let mut expected = vec![negated.join(" & "), names.join(" & ")];
    expected.sort();
    assert_eq!(parts, expected);
}

#[test]
fn the_parts_agree_with_the_minimiser_on_narrow_tables() {
    for text in [
        "a & (b | !c)",
        "(!a & (b & !d)) | (a & (e & d) & !c)",
        "(a | b) & !c | [!d & a | c & !b]",
        "a | b",
        "a & !b | !a & b",
        "(a | b | c) & (!a | !b | !c)",
        "x1 & x2 | x3 & x4 | x5 & x6",
        "a | !a",
        "x",
        "!x",
    ] {
        let expr = parse(text).unwrap();
        let (names, ones) = truth_table_ones(&expr).unwrap();
        assert_eq!(Some(simplify_rows(&names, &ones)), simplify(&expr), "{}", text);
    }
}

#[test]
fn a_full_table_of_two_columns_gives_true() {
    assert_eq!(simplify_rows(&columns(2), &[0, 1, 2, 3]), vec!["true"]);
    assert_eq!(simplify_rows(&columns(0), &[0]), vec!["true"]);
}

#[test]
fn every_minimal_cover_is_returned() {
    let names = columns(3);
    let solutions = simplify_rows(&names, &[1, 2, 3, 4, 5, 6]);
    assert_eq!(solutions.len(), 2);
    assert_ne!(solutions[0], solutions[1]);
}

#[test]
fn renders_an_implicant_from_its_pattern() {
    let names = columns(4);
    assert_eq!(render_implicant(&pattern("1011"), &names), "v00 & !v01 & v02 & v03");
    assert_eq!(render_implicant(&pattern("1-0-"), &names), "v00 & !v02");
    assert_eq!(render_implicant(&pattern("---1"), &names), "v03");
    assert_eq!(render_implicant(&pattern("-0--"), &names), "!v01");
    assert_eq!(render_implicant(&pattern("----"), &names), "true");
    assert_eq!(render_implicant(&pattern("0000"), &names), "!v00 & !v01 & !v02 & !v03");
}

#[test]
fn renders_only_the_bits_that_have_a_column() {
    assert_eq!(render_implicant(&pattern("10"), &columns(1)), "v00");
    assert_eq!(render_implicant(&pattern("10"), &columns(0)), "true");
    let all = "1".repeat(32);
    assert_eq!(render_implicant(&all, &columns(32)), columns(32).join(" & "));
    let high = format!("1{}", "-".repeat(31));
    assert_eq!(render_implicant(&high, &columns(32)), "v31");
}

#[test]
fn renders_a_cover_from_its_numbers() {
    let names = columns(2);
    let patterns = vec![pattern("1-"), pattern("-0"), pattern("--")];
    assert_eq!(render_cover(&vec![0, 1], &patterns, &names), "v00 | !v01");
    assert_eq!(render_cover(&vec![1], &patterns, &names), "!v01");
    assert_eq!(render_cover(&vec![2, 0], &patterns, &names), "true | v00");
    assert_eq!(render_cover(&vec![], &patterns, &names), "");
}
