use orlando_transducers::step::{cont, is_stopped, stop, unwrap_step, Step};

#[test]
fn test_continue() {
    let step = cont(42);
    assert!(step.is_continue());
    assert!(!step.is_stop());
    assert_eq!(step.unwrap(), 42);
}

#[test]
fn test_stop() {
    let step = stop(42);
    assert!(step.is_stop());
    assert!(!step.is_continue());
    assert_eq!(step.unwrap(), 42);
}

#[test]
fn step_test_map() {
    let step = cont(42);
    let mapped = step.map(|x| x * 2);
    assert_eq!(mapped, cont(84));

    let stopped = stop(42).map(|x| x * 2);
    assert_eq!(stopped, stop(84));
}

#[test]
fn test_monad_laws() {
    // Left identity: cont(x).and_then(f) == f(x)
    let f = |x| cont(x * 2);
    assert_eq!(cont(42).and_then(f), f(42));

    // Right identity: m.and_then(cont) == m
    let m = cont(42);
    assert_eq!(m.and_then(cont), m);

    // Associativity
    let f = |x| cont(x * 2);
    let g = |x| cont(x + 10);
    let m = cont(42);
    assert_eq!(m.and_then(f).and_then(g), m.and_then(|x| f(x).and_then(g)));
}

#[test]
fn step_helpers_agree_with_methods() {
    assert!(is_stopped(&stop(1)));
    assert!(!is_stopped(&cont(1)));
    assert_eq!(unwrap_step(stop(7)), 7);
    assert_eq!(unwrap_step(cont(8)), 8);
    assert_eq!(cont(3).continue_value(), Some(3));
    assert_eq!(stop(3).continue_value(), None);
}

#[test]
fn step_and_then_on_stop_keeps_value() {
    let s: Step<i32> = stop(5);
    let r: Step<i32> = s.and_then(|x| cont(x + 1));
    assert_eq!(r, stop(5));
}
