use orlando_transducers::collectors::to_vec;
use orlando_transducers::logic::{
    all_pass, any_pass, both, complement, either, IfElse, PredicateVec, Unless, When,
};

#[test]
fn test_both() {
    let is_positive = |x: &i32| *x > 0;
    let is_even = |x: &i32| x % 2 == 0;
    let is_positive_even = both(is_positive, is_even);

    assert!(is_positive_even(&4));
    assert!(!is_positive_even(&3));
    assert!(!is_positive_even(&-2));
}

#[test]
fn test_either() {
    let is_small = |x: &i32| *x < 10;
    let is_large = |x: &i32| *x > 100;
    let is_extreme = either(is_small, is_large);

    assert!(is_extreme(&5));
    assert!(is_extreme(&200));
    assert!(!is_extreme(&50));
}

#[test]
fn test_complement() {
    let is_even = |x: &i32| x % 2 == 0;
    let is_odd = complement(is_even);

    assert!(is_odd(&3));
    assert!(!is_odd(&4));
}

#[test]
fn test_all_pass() {
    let predicates: PredicateVec<i32> = vec![
        Box::new(|x: &i32| *x > 0),
        Box::new(|x: &i32| *x < 100),
        Box::new(|x: &i32| x % 2 == 0),
    ];

    let is_valid = all_pass(predicates);

    assert!(is_valid(&50));
    assert!(!is_valid(&3));
    assert!(!is_valid(&150));
}

#[test]
fn test_any_pass() {
    let predicates: PredicateVec<i32> = vec![
        Box::new(|x: &i32| *x == 0),
        Box::new(|x: &i32| x % 10 == 0),
        Box::new(|x: &i32| *x > 1000),
    ];

    let is_special = any_pass(predicates);

    assert!(is_special(&0));
    assert!(is_special(&50));
    assert!(is_special(&2000));
    assert!(!is_special(&7));
}

#[test]
fn test_when() {
    let double_if_positive = When::new(|x: &i32| *x > 0, |x: i32| x * 2);
    let result = to_vec(&double_if_positive, vec![-1, 2, -3, 4]);
    assert_eq!(result, vec![-1, 4, -3, 8]);
}

#[test]
fn test_unless() {
    let zero_if_negative = Unless::new(|x: &i32| *x > 0, |_| 0);
    let result = to_vec(&zero_if_negative, vec![-1, 2, -3, 4]);
    assert_eq!(result, vec![0, 2, 0, 4]);
}

#[test]
fn test_if_else() {
    let abs_with_sign = IfElse::new(|x: &i32| *x >= 0, |x: i32| x * 2, |x: i32| x / 2);
    let result = to_vec(&abs_with_sign, vec![-4, 3, -6, 5]);
    assert_eq!(result, vec![-2, 6, -3, 10]);
}

#[test]
fn empty_predicate_lists() {
    let none: PredicateVec<i32> = Vec::new();
    assert!(all_pass(none)(&1));
    let none: PredicateVec<i32> = Vec::new();
    assert!(!any_pass(none)(&1));
}
