//! Specifications of the closures that the library's combinators take.
//!
//! A closure is *total* when it may be called on every argument, and
//! *deterministic* when every call on equal arguments returns equal results.
//! For a deterministic closure the `*_app` functions name the value that a
//! call returns; the combinators' contracts are stated with them.

use vstd::prelude::*;

verus! {

/// `f` may be called on every argument.
pub open spec fn fn1_total<A, B, F: Fn(A) -> B>(f: F) -> bool {
    forall|a: A| #[trigger] call_requires(f, (a,))
}

/// Calls of `f` on equal arguments return equal results.
pub open spec fn fn1_det<A, B, F: Fn(A) -> B>(f: F) -> bool {
    forall|a: A, b1: B, b2: B|
        #[trigger] call_ensures(f, (a,), b1) && #[trigger] call_ensures(f, (a,), b2) ==> b1 == b2
}

/// The value that a call `f(a)` returns.
pub open spec fn fn1_app<A, B, F: Fn(A) -> B>(f: F, a: A) -> B {
    choose|b: B| call_ensures(f, (a,), b)
}

/// `p` may be called on every argument.
pub open spec fn pred_total<T, P: Fn(&T) -> bool>(p: P) -> bool {
    forall|x: T| #[trigger] call_requires(p, (&x,))
}

/// Calls of `p` on equal arguments return equal answers.
pub open spec fn pred_det<T, P: Fn(&T) -> bool>(p: P) -> bool {
    forall|x: T, b1: bool, b2: bool|
        #[trigger] call_ensures(p, (&x,), b1) && #[trigger] call_ensures(p, (&x,), b2) ==> b1
            == b2
}

/// The answer that a call `p(&x)` returns.
pub open spec fn pred_app<T, P: Fn(&T) -> bool>(p: P, x: T) -> bool {
    call_ensures(p, (&x,), true)
}

/// `f` may be called on every argument.
pub open spec fn ref_fn_total<A, B, F: Fn(&A) -> B>(f: F) -> bool {
    forall|a: A| #[trigger] call_requires(f, (&a,))
}

/// Calls of `f` on equal arguments return equal results.
pub open spec fn ref_fn_det<A, B, F: Fn(&A) -> B>(f: F) -> bool {
    forall|a: A, b1: B, b2: B|
        #[trigger] call_ensures(f, (&a,), b1) && #[trigger] call_ensures(f, (&a,), b2) ==> b1
            == b2
}

/// The value that a call `f(&a)` returns.
pub open spec fn ref_fn_app<A, B, F: Fn(&A) -> B>(f: F, a: A) -> B {
    choose|b: B| call_ensures(f, (&a,), b)
}

/// `f` may be called on every pair of arguments.
pub open spec fn fn2_total<A, B, C, F: Fn(A, B) -> C>(f: F) -> bool {
    forall|a: A, b: B| #[trigger] call_requires(f, (a, b))
}

/// Calls of `f` on equal arguments return equal results.
pub open spec fn fn2_det<A, B, C, F: Fn(A, B) -> C>(f: F) -> bool {
    forall|a: A, b: B, c1: C, c2: C|
        #[trigger] call_ensures(f, (a, b), c1) && #[trigger] call_ensures(f, (a, b), c2) ==> c1
            == c2
}

/// The value that a call `f(a, b)` returns.
pub open spec fn fn2_app<A, B, C, F: Fn(A, B) -> C>(f: F, a: A, b: B) -> C {
    choose|c: C| call_ensures(f, (a, b), c)
}

/// `f` may be called on every pair of borrowed arguments.
pub open spec fn ref2_total<A, B, C, F: Fn(&A, &B) -> C>(f: F) -> bool {
    forall|a: A, b: B| #[trigger] call_requires(f, (&a, &b))
}

/// Calls of `f` on equal borrowed arguments return equal results.
pub open spec fn ref2_det<A, B, C, F: Fn(&A, &B) -> C>(f: F) -> bool {
    forall|a: A, b: B, c1: C, c2: C|
        #[trigger] call_ensures(f, (&a, &b), c1) && #[trigger] call_ensures(f, (&a, &b), c2)
            ==> c1 == c2
}

/// The value that a call `f(&a, &b)` returns.
pub open spec fn ref2_app<A, B, C, F: Fn(&A, &B) -> C>(f: F, a: A, b: B) -> C {
    choose|c: C| call_ensures(f, (&a, &b), c)
}

/// `f` may be called on every borrowed first and owned second argument.
pub open spec fn refval_total<A, B, C, F: Fn(&A, B) -> C>(f: F) -> bool {
    forall|a: A, b: B| #[trigger] call_requires(f, (&a, b))
}

/// Calls of `f` on equal arguments return equal results.
pub open spec fn refval_det<A, B, C, F: Fn(&A, B) -> C>(f: F) -> bool {
    forall|a: A, b: B, c1: C, c2: C|
        #[trigger] call_ensures(f, (&a, b), c1) && #[trigger] call_ensures(f, (&a, b), c2) ==> c1
            == c2
}

/// The value that a call `f(&a, b)` returns.
pub open spec fn refval_app<A, B, C, F: Fn(&A, B) -> C>(f: F, a: A, b: B) -> C {
    choose|c: C| call_ensures(f, (&a, b), c)
}

/// Cloning a value of `T` gives an equal value.
pub open spec fn clone_faithful<T: Clone>() -> bool {
    forall|a: T, b: T| #[trigger] cloned(a, b) ==> a == b
}

} // verus!
