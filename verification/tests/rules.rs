use turing_solver::catalogue::{categorize_codes, clone_vec_u8, find_unique, vec_u8_eq, SolutionCatalogue};
use turing_solver::construct_tree::contains_u8;
use turing_solver::rules::{
    apply_rule, compare_values, count_digit, rule_1, rule_10, rule_11, rule_14, rule_15, rule_16,
    rule_17, rule_18, rule_19, rule_2, rule_20, rule_21, rule_22, rule_23, rule_24, rule_25,
    rule_5, rule_8, single_parity, Code, RULE_COUNT,
};

fn code(blue: u8, yellow: u8, purple: u8) -> Code {
    Code { blue, yellow, purple }
}

#[test]
fn comparison_cards_grade_below_equal_above() {
    assert_eq!(compare_values(0, 1), Some(0));
    assert_eq!(compare_values(1, 1), Some(1));
    assert_eq!(compare_values(2, 1), Some(2));
    assert_eq!(rule_1(&code(1, 5, 5)), Some(1));
    assert_eq!(rule_2(&code(5, 1, 1)), Some(2));
    assert_eq!(rule_11(&code(2, 3, 1)), Some(0));
    assert_eq!(rule_19(&code(3, 3, 1)), Some(1));
    assert_eq!(rule_19(&code(5, 5, 1)), Some(2));
    assert_eq!(rule_23(&code(1, 2, 3)), Some(1));
    assert_eq!(rule_23(&code(5, 5, 5)), Some(2));
}

#[test]
fn parity_cards_grade_even_and_odd() {
    assert_eq!(single_parity(4), Some(0));
    assert_eq!(single_parity(3), Some(1));
    assert_eq!(rule_5(&code(2, 1, 1)), Some(0));
    assert_eq!(rule_16(&code(1, 1, 2)), Some(1));
    assert_eq!(rule_16(&code(2, 2, 1)), Some(0));
    assert_eq!(rule_17(&code(1, 1, 2)), Some(1));
    assert_eq!(rule_17(&code(2, 4, 2)), Some(3));
    assert_eq!(rule_18(&code(1, 1, 2)), Some(0));
    assert_eq!(rule_18(&code(1, 1, 1)), Some(1));
}

#[test]
fn counting_cards_count_digits() {
    assert_eq!(count_digit(&code(1, 1, 2), 1), Some(2));
    assert_eq!(count_digit(&code(3, 3, 3), 3), Some(3));
    assert_eq!(rule_8(&code(5, 4, 3)), Some(0));
    assert_eq!(rule_20(&code(1, 2, 3)), Some(2));
    assert_eq!(rule_20(&code(1, 1, 2)), Some(1));
    assert_eq!(rule_20(&code(1, 1, 1)), Some(0));
    assert_eq!(rule_21(&code(1, 1, 2)), Some(1));
    assert_eq!(rule_21(&code(1, 2, 3)), Some(0));
    assert_eq!(rule_21(&code(2, 2, 2)), Some(0));
}

#[test]
fn extremum_cards_need_a_unique_extremum() {
    assert_eq!(rule_14(&code(1, 2, 3)), Some(0));
    assert_eq!(rule_14(&code(2, 1, 3)), Some(1));
    assert_eq!(rule_14(&code(2, 2, 1)), Some(2));
    assert_eq!(rule_14(&code(1, 1, 2)), None);
    assert_eq!(rule_15(&code(5, 2, 3)), Some(0));
    assert_eq!(rule_15(&code(2, 5, 3)), Some(1));
    assert_eq!(rule_15(&code(2, 2, 5)), Some(2));
    assert_eq!(rule_15(&code(5, 5, 2)), None);
}

#[test]
fn order_cards_grade_runs() {
    assert_eq!(rule_22(&code(1, 2, 3)), Some(0));
    assert_eq!(rule_22(&code(3, 2, 1)), Some(1));
    assert_eq!(rule_22(&code(1, 3, 2)), Some(2));
    assert_eq!(rule_24(&code(1, 2, 3)), Some(2));
    assert_eq!(rule_24(&code(1, 2, 4)), Some(1));
    assert_eq!(rule_24(&code(2, 1, 5)), Some(0));
    assert_eq!(rule_25(&code(1, 2, 3)), Some(2));
    assert_eq!(rule_25(&code(3, 2, 1)), Some(2));
    assert_eq!(rule_25(&code(2, 1, 5)), Some(1));
    assert_eq!(rule_25(&code(1, 1, 4)), Some(0));
}

#[test]
fn dispatcher_reaches_every_card() {
    let c = code(2, 3, 4);
    assert_eq!(apply_rule(0, &c), rule_1(&c));
    assert_eq!(apply_rule(9, &c), rule_10(&c));
    assert_eq!(apply_rule(24, &c), rule_25(&c));
    for r in 0..RULE_COUNT {
        // every card grades this strictly ordered code
        assert!(apply_rule(r, &c).is_some());
    }
}

#[test]
fn categorization_groups_by_outcome_vector() {
    let a = code(1, 1, 1);
    let b = code(2, 2, 2);
    let c = code(4, 4, 4);
    let codes = vec![a, b, c];
    // blue parity, then blue compared to one
    let rules = vec![4usize, 0usize];
    let cat = categorize_codes(&codes, &rules);
    assert_eq!(cat.entries.len(), 2);
    assert_eq!(cat.entries[0].0, vec![1u8, 1u8]);
    assert_eq!(cat.entries[0].1, vec![a]);
    assert_eq!(cat.entries[1].0, vec![0u8, 2u8]);
    assert_eq!(cat.entries[1].1, vec![b, c]);
    let unique = find_unique(&cat);
    assert_eq!(unique.len(), 1);
    assert_eq!(unique[0].0, vec![1u8, 1u8]);
    assert_eq!(unique[0].1, a);
}

#[test]
fn ungraded_codes_leave_the_catalogue() {
    // the smallest-value card grades no code with a tied minimum
    let tied = code(1, 1, 2);
    let graded = code(1, 2, 3);
    let codes = vec![tied, graded];
    let rules = vec![13usize];
    let cat = categorize_codes(&codes, &rules);
    assert_eq!(cat.entries.len(), 1);
    assert_eq!(cat.entries[0].0, vec![0u8]);
    assert_eq!(cat.entries[0].1, vec![graded]);
}

#[test]
fn catalogue_lookup_finds_exact_keys() {
    let a = code(1, 1, 1);
    let cat = categorize_codes(&vec![a], &vec![0usize, 4usize]);
    assert_eq!(cat.get(&vec![1u8, 1u8]), Some(&vec![a]));
    assert_eq!(cat.get(&vec![1u8, 0u8]), None);
    assert_eq!(cat.get(&vec![1u8]), None);
}

#[test]
fn byte_vector_helpers() {
    let v = vec![3u8, 1u8, 4u8];
    let w = clone_vec_u8(&v);
    assert_eq!(v, w);
    assert!(vec_u8_eq(&v, &w));
    assert!(!vec_u8_eq(&v, &vec![3u8, 1u8]));
    assert!(!vec_u8_eq(&v, &vec![3u8, 1u8, 5u8]));
    assert!(contains_u8(&v, 4));
    assert!(!contains_u8(&v, 5));
}

#[test]
fn fresh_catalogue_is_empty() {
    let cat = SolutionCatalogue::new();
    assert_eq!(cat.entries.len(), 0);
    assert_eq!(cat.get(&vec![0u8]), None);
}
