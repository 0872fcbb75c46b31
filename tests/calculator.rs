use std::collections::HashMap;

use giopt::calculator::rules::{Operation, Rule, Rules, RulesError};
use giopt::calculator::{product, sum, sum_plus_one, Calculator, EvalError};

fn sum_product_rules() -> Rules {
    Rules::new(vec![
        (3, Rule::new(Operation::Sum, vec![0, 1, 2])),
        (5, Rule::new(Operation::Product, vec![3, 4])),
    ])
    .unwrap()
}

#[test]
fn calc_get() {
    let calcrules = sum_product_rules();
    let mut calc =
        Calculator::from_components(HashMap::from([(0, 1i64), (2, 5), (4, 2)]), &calcrules);
    assert_eq!(calc.get(5), Ok(12));
    assert_eq!(calc.get(6), Ok(0));
}

#[test]
fn calc_set() {
    let calcrules = sum_product_rules();
    let mut calc = Calculator::from_components(
        HashMap::from([(0, 1i64), (1, 4), (2, 5), (4, 2)]),
        &calcrules,
    );

    calc.set(4, 9);
    assert_eq!(calc.get(5), Ok(90));

    calc.set(3, 2);
    assert_eq!(calc.get(5), Ok(18));
}

#[test]
fn calc_remove() {
    let calcrules = sum_product_rules();
    let mut calc = Calculator::from_components(
        HashMap::from([(0, 1i64), (1, 4), (2, 5), (3, 100), (4, 2)]),
        &calcrules,
    );
    assert_eq!(calc.get(5), Ok(200));

    calc.remove(3);
    assert_eq!(calc.get(5), Ok(20));

    calc.remove(1);
    assert_eq!(calc.get(5), Ok(12));
}

#[test]
fn unset_leaf_reads_zero_and_is_cached() {
    let calcrules = sum_product_rules();
    let mut calc: Calculator<i64> = Calculator::new(&calcrules);
    assert_eq!(calc.get(42), Ok(0));
    assert_eq!(calc.delete(42), Some(0));
}

#[test]
fn sum_with_one_unset_leaf() {
    let calcrules = Rules::new(vec![(3, Rule::new(Operation::Sum, vec![0, 1, 2]))]).unwrap();
    let mut calc = Calculator::from_components(HashMap::from([(0, 1i64), (2, 5)]), &calcrules);
    assert_eq!(calc.get(3), Ok(6));
}

#[test]
fn product_of_sum_and_leaf() {
    // (1 + 4 + 5) * 2
    let calcrules = sum_product_rules();
    let mut calc = Calculator::from_components(
        HashMap::from([(0, 1i64), (1, 4), (2, 5), (4, 2)]),
        &calcrules,
    );
    assert_eq!(calc.get(5), Ok(20));
}

#[test]
fn explicit_leaf_overrides_rule_until_removed() {
    let calcrules = sum_product_rules();
    let mut calc = Calculator::from_components(
        HashMap::from([(0, 1i64), (1, 4), (2, 5), (3, 100), (4, 2)]),
        &calcrules,
    );
    assert_eq!(calc.get(5), Ok(200));
    assert_eq!(calc.remove(3), Some(100));
    assert_eq!(calc.get(5), Ok(20));
    assert_eq!(calc.get(3), Ok(10));
    assert_eq!(calc.remove(1), Some(4));
    assert_eq!(calc.get(3), Ok(6));
    assert_eq!(calc.get(5), Ok(12));
}

#[test]
fn set_recomputes_parent_and_keeps_children() {
    let calcrules = sum_product_rules();
    let mut calc = Calculator::from_components(
        HashMap::from([(0, 1i64), (1, 4), (2, 5), (4, 2)]),
        &calcrules,
    );
    assert_eq!(calc.get(5), Ok(20));
    calc.set(1, 10);
    assert_eq!(calc.get(3), Ok(16));
    assert_eq!(calc.get(5), Ok(32));
    // setting the sum itself leaves its cached inputs alone
    calc.set(3, 7);
    assert_eq!(calc.get(5), Ok(14));
    assert_eq!(calc.delete(0), Some(1));
    assert_eq!(calc.delete(2), Some(5));
}

#[test]
fn set_on_uncached_key_invalidates_nothing() {
    let calcrules = sum_product_rules();
    let mut calc = Calculator::from_components(HashMap::from([(3, 10i64), (5, 77)]), &calcrules);
    calc.set(4, 3);
    assert_eq!(calc.get(5), Ok(77));
}

#[test]
fn place_leaves_stale_ancestors() {
    let calcrules = sum_product_rules();
    let mut calc = Calculator::from_components(
        HashMap::from([(0, 1i64), (1, 4), (2, 5), (4, 2)]),
        &calcrules,
    );
    assert_eq!(calc.get(5), Ok(20));
    assert_eq!(calc.place(4, 9), Some(2));
    assert_eq!(calc.get(4), Ok(9));
    assert_eq!(calc.get(5), Ok(20));
    assert_eq!(calc.place(7, 1), None);
}

#[test]
fn delete_leaves_stale_ancestors() {
    let calcrules = sum_product_rules();
    let mut calc = Calculator::from_components(
        HashMap::from([(0, 1i64), (1, 4), (2, 5), (4, 2)]),
        &calcrules,
    );
    assert_eq!(calc.get(5), Ok(20));
    assert_eq!(calc.delete(1), Some(4));
    assert_eq!(calc.delete(1), None);
    assert_eq!(calc.get(5), Ok(20));
    assert_eq!(calc.get(1), Ok(0));
}

#[test]
fn get_twice_returns_the_cached_value() {
    let calcrules = sum_product_rules();
    let mut calc = Calculator::from_components(
        HashMap::from([(0, 1i64), (1, 4), (2, 5), (4, 2)]),
        &calcrules,
    );
    let first = calc.get(5);
    // the inputs no longer matter once the value is cached
    calc.place(0, 1000);
    assert_eq!(calc.get(5), first);
    assert_eq!(first, Ok(20));
}

#[test]
fn cyclic_rules_are_refused() {
    let r = Rules::new(vec![
        (1, Rule::new(Operation::Sum, vec![2])),
        (2, Rule::new(Operation::Sum, vec![3])),
        (3, Rule::new(Operation::Product, vec![0, 1])),
    ]);
    assert!(matches!(r, Err(RulesError::Cycle)));
    let self_loop = Rules::new(vec![(1, Rule::new(Operation::Negate, vec![1]))]);
    assert!(matches!(self_loop, Err(RulesError::Cycle)));
}

#[test]
fn duplicate_rules_are_refused() {
    let r = Rules::new(vec![
        (1, Rule::new(Operation::Sum, vec![2])),
        (1, Rule::new(Operation::Product, vec![3])),
    ]);
    assert!(matches!(r, Err(RulesError::DuplicateRule)));
}

#[test]
fn parents_list_every_consumer() {
    let rules = Rules::new(vec![
        (3, Rule::new(Operation::Sum, vec![0, 1])),
        (4, Rule::new(Operation::Product, vec![1, 2])),
    ])
    .unwrap();
    let mut p = rules.get_parent(1).to_vec();
    p.sort();
    assert_eq!(p, vec![3, 4]);
    assert_eq!(rules.get_parent(0), &[3]);
    assert!(rules.get_parent(3).is_empty());
    assert!(rules.get(0).is_none());
    assert_eq!(rules.get(4).unwrap().keys(), &[1, 2]);
    assert_eq!(rules.get(4).unwrap().op(), Operation::Product);
}

#[test]
fn set_invalidates_every_consumer() {
    let rules = Rules::new(vec![
        (3, Rule::new(Operation::Sum, vec![0, 1])),
        (4, Rule::new(Operation::Product, vec![1, 2])),
        (5, Rule::new(Operation::Sum, vec![3, 4])),
    ])
    .unwrap();
    let mut calc = Calculator::from_components(HashMap::from([(0, 1i64), (1, 2), (2, 3)]), &rules);
    assert_eq!(calc.get(5), Ok(9));
    calc.set(1, 10);
    assert_eq!(calc.get(3), Ok(11));
    assert_eq!(calc.get(4), Ok(30));
    assert_eq!(calc.get(5), Ok(41));
}

#[test]
fn mux_selects_by_offset() {
    let rules = Rules::new(vec![
        (10, Rule::new(Operation::Mux, vec![0, 1, 2, 3])),
        (11, Rule::new(Operation::MuxOrOne, vec![0, 1, 2, 3])),
        (12, Rule::new(Operation::MuxOrZero, vec![0, 1, 2, 3])),
    ])
    .unwrap();
    let mut calc =
        Calculator::from_components(HashMap::from([(0, 1i64), (1, 7), (2, 8), (3, 9)]), &rules);
    assert_eq!(calc.get(10), Ok(8));
    assert_eq!(calc.get(11), Ok(8));
    assert_eq!(calc.get(12), Ok(8));

    let mut far = Calculator::from_components(HashMap::from([(0, 5i64)]), &rules);
    assert_eq!(far.get(10), Err(EvalError::SelectorOutOfRange));
    assert_eq!(far.get(11), Ok(1));
    assert_eq!(far.get(12), Ok(0));
}

#[test]
fn failed_get_leaves_cache_unchanged() {
    let rules = Rules::new(vec![
        (3, Rule::new(Operation::Sum, vec![0, 4])),
        (4, Rule::new(Operation::Mux, vec![9])),
    ])
    .unwrap();
    let mut calc = Calculator::from_components(HashMap::from([(9, 3i64)]), &rules);
    assert_eq!(calc.get(3), Err(EvalError::SelectorOutOfRange));
    assert_eq!(calc.delete(0), None);
    assert_eq!(calc.delete(3), None);
    assert_eq!(calc.delete(9), Some(3));
}

#[test]
fn negate_and_empty_folds() {
    let rules = Rules::new(vec![
        (1, Rule::new(Operation::Negate, vec![0])),
        (4, Rule::new(Operation::SumPlusOne, vec![0, 0])),
        (5, Rule::new(Operation::Product, vec![])),
        (6, Rule::new(Operation::Sum, vec![])),
    ])
    .unwrap();
    let mut calc = Calculator::from_components(HashMap::from([(0, 4i64)]), &rules);
    assert_eq!(calc.get(1), Ok(-4));
    assert_eq!(calc.get(4), Ok(9));
    assert_eq!(calc.get(5), Ok(1));
    assert_eq!(calc.get(6), Ok(0));
}

#[test]
fn rules_without_operand_are_refused() {
    let negate = Rules::new(vec![(2, Rule::new(Operation::Negate, vec![]))]);
    assert!(matches!(negate, Err(RulesError::MissingOperand)));
    let mux = Rules::new(vec![
        (1, Rule::new(Operation::Sum, vec![0])),
        (3, Rule::new(Operation::MuxOrZero, vec![])),
    ]);
    assert!(matches!(mux, Err(RulesError::MissingOperand)));
    // a duplicate key is reported before a missing operand
    let both = Rules::new(vec![
        (3, Rule::new(Operation::Mux, vec![])),
        (3, Rule::new(Operation::Sum, vec![])),
    ]);
    assert!(matches!(both, Err(RulesError::DuplicateRule)));
}

#[test]
fn negative_selector_is_out_of_range() {
    let rules = Rules::new(vec![
        (10, Rule::new(Operation::Mux, vec![0, 1, 2])),
        (11, Rule::new(Operation::MuxOrOne, vec![0, 1, 2])),
        (12, Rule::new(Operation::MuxOrZero, vec![0, 1, 2])),
    ])
    .unwrap();
    let mut calc =
        Calculator::from_components(HashMap::from([(0, -1i64), (1, 7), (2, 8)]), &rules);
    assert_eq!(calc.get(10), Err(EvalError::SelectorOutOfRange));
    assert_eq!(calc.get(11), Ok(1));
    assert_eq!(calc.get(12), Ok(0));
    let mut lower = Calculator::from_components(HashMap::from([(0, -5i64)]), &rules);
    assert_eq!(lower.get(10), Err(EvalError::SelectorOutOfRange));
    let mut zero = Calculator::from_components(HashMap::from([(0, 0i64), (1, 7)]), &rules);
    assert_eq!(zero.get(10), Ok(7));
}

#[test]
fn get_caches_exactly_what_it_reads() {
    let calcrules = sum_product_rules();
    let mut calc = Calculator::from_components(
        HashMap::from([(0, 1i64), (2, 5), (4, 2)]),
        &calcrules,
    );
    assert_eq!(calc.get(5), Ok(12));
    assert_eq!(calc.delete(3), Some(6));
    assert_eq!(calc.delete(1), Some(0));
    assert_eq!(calc.delete(5), Some(12));
    assert_eq!(calc.delete(6), None);

    let rules = Rules::new(vec![(10, Rule::new(Operation::Mux, vec![0, 1, 2]))]).unwrap();
    let mut mux = Calculator::from_components(HashMap::from([(0, 0i64)]), &rules);
    assert_eq!(mux.get(10), Ok(0));
    assert_eq!(mux.delete(1), Some(0));
    assert_eq!(mux.delete(2), None);
}

#[test]
fn value_folds() {
    assert_eq!(sum::<i64>(&[]), 0);
    assert_eq!(sum(&[1i64, 2, 3]), 6);
    assert_eq!(product::<i64>(&[]), 1);
    assert_eq!(product(&[2i64, 3, 4]), 24);
    assert_eq!(sum_plus_one(&[2i64, 3]), 6);
    assert_eq!(giopt::calculator::neg(5i64), -5);
}

#[test]
fn integer_arithmetic_wraps() {
    assert_eq!(sum(&[i64::MAX, 1]), i64::MIN);
    assert_eq!(giopt::calculator::neg(i64::MIN), i64::MIN);
}
