//! Predicate combinators and conditional transducers.

use crate::fnspec::{fn1_app, fn1_det, fn1_total, pred_app, pred_det, pred_total};
use crate::transducer::Transducer;
use std::marker::PhantomData;
use vstd::prelude::*;

verus! {

/// A boxed predicate.
pub type BoxedPredicate<T> = Box<dyn Fn(&T) -> bool>;

/// A vector of boxed predicates.
pub type PredicateVec<T> = Vec<BoxedPredicate<T>>;

/// Combines two predicates with AND logic (the second is not called when the
/// first fails).
pub fn both<T, P1: Fn(&T) -> bool, P2: Fn(&T) -> bool>(pred1: P1, pred2: P2) -> (r: impl Fn(
    &T,
) -> bool)
    requires
        pred_total(pred1),
        pred_total(pred2),
    ensures
        pred_total(r),
        forall|x: T, b: bool|
            #[trigger] call_ensures(r, (&x,), b) ==> (b ==> call_ensures(pred1, (&x,), true)
                && call_ensures(pred2, (&x,), true)) && (!b ==> call_ensures(pred1, (&x,), false)
                || call_ensures(pred2, (&x,), false)),
{
    move |x: &T| -> (b: bool)
        requires
            pred_total(pred1),
            pred_total(pred2),
        ensures
            b ==> call_ensures(pred1, (x,), true) && call_ensures(pred2, (x,), true),
            !b ==> call_ensures(pred1, (x,), false) || call_ensures(pred2, (x,), false),
        { pred1(x) && pred2(x) }
}

/// Combines two predicates with OR logic (the second is not called when the
/// first holds).
pub fn either<T, P1: Fn(&T) -> bool, P2: Fn(&T) -> bool>(pred1: P1, pred2: P2) -> (r: impl Fn(
    &T,
) -> bool)
    requires
        pred_total(pred1),
        pred_total(pred2),
    ensures
        pred_total(r),
        forall|x: T, b: bool|
            #[trigger] call_ensures(r, (&x,), b) ==> (b ==> call_ensures(pred1, (&x,), true)
                || call_ensures(pred2, (&x,), true)) && (!b ==> call_ensures(pred1, (&x,), false)
                && call_ensures(pred2, (&x,), false)),
{
    move |x: &T| -> (b: bool)
        requires
            pred_total(pred1),
            pred_total(pred2),
        ensures
            b ==> call_ensures(pred1, (x,), true) || call_ensures(pred2, (x,), true),
            !b ==> call_ensures(pred1, (x,), false) && call_ensures(pred2, (x,), false),
        { pred1(x) || pred2(x) }
}

/// Negates a predicate.
pub fn complement<T, P: Fn(&T) -> bool>(pred: P) -> (r: impl Fn(&T) -> bool)
    requires
        pred_total(pred),
    ensures
        pred_total(r),
        forall|x: T, b: bool| #[trigger] call_ensures(r, (&x,), b) ==> call_ensures(pred, (&x,), !b),
{
    move |x: &T| -> (b: bool)
        requires
            pred_total(pred),
        ensures
            call_ensures(pred, (x,), !b),
        { !pred(x) }
}

/// Whether every predicate in `preds` answered `true` on `x`.
pub open spec fn all_answered_true<T, P: Fn(&T) -> bool>(preds: Seq<P>, x: T) -> bool {
    forall|i: int| 0 <= i < preds.len() ==> call_ensures(#[trigger] preds[i], (&x,), true)
}

/// Whether every predicate in `preds` answered `false` on `x`.
pub open spec fn all_answered_false<T, P: Fn(&T) -> bool>(preds: Seq<P>, x: T) -> bool {
    forall|i: int| 0 <= i < preds.len() ==> call_ensures(#[trigger] preds[i], (&x,), false)
}

/// Combines predicates with AND logic, stopping at the first that fails.
pub fn all_pass<T, P: Fn(&T) -> bool>(predicates: Vec<P>) -> (r: impl Fn(&T) -> bool)
    requires
        forall|i: int| 0 <= i < predicates@.len() ==> pred_total(#[trigger] predicates@[i]),
    ensures
        pred_total(r),
        forall|x: T, b: bool|
            #[trigger] call_ensures(r, (&x,), b) ==> (b ==> all_answered_true(predicates@, x)) && (
            !b ==> exists|i: int|
                0 <= i < predicates@.len() && call_ensures(#[trigger] predicates@[i], (&x,), false)),
{
    move |x: &T| -> (b: bool)
        requires
            forall|i: int| 0 <= i < predicates@.len() ==> pred_total(#[trigger] predicates@[i]),
        ensures
            b ==> all_answered_true(predicates@, *x),
            !b ==> exists|i: int|
                0 <= i < predicates@.len() && call_ensures(#[trigger] predicates@[i], (x,), false),
        {
            let mut i: usize = 0;
            while i < predicates.len()
                invariant
                    i <= predicates@.len(),
                    forall|k: int| 0 <= k < predicates@.len() ==> pred_total(#[trigger] predicates@[k]),
                    forall|k: int| 0 <= k < i ==> call_ensures(#[trigger] predicates@[k], (x,), true),
                decreases predicates@.len() - i,
            {
                let ok = (predicates[i])(x);
                if !ok {
                    assert(call_ensures(predicates@[i as int], (x,), false));
                    return false;
                }
                i = i + 1;
            }
            true
        }
}

/// Combines predicates with OR logic, stopping at the first that holds.
pub fn any_pass<T, P: Fn(&T) -> bool>(predicates: Vec<P>) -> (r: impl Fn(&T) -> bool)
    requires
        forall|i: int| 0 <= i < predicates@.len() ==> pred_total(#[trigger] predicates@[i]),
    ensures
        pred_total(r),
        forall|x: T, b: bool|
            #[trigger] call_ensures(r, (&x,), b) ==> (!b ==> all_answered_false(predicates@, x)) && (
            b ==> exists|i: int|
                0 <= i < predicates@.len() && call_ensures(#[trigger] predicates@[i], (&x,), true)),
{
    move |x: &T| -> (b: bool)
        requires
            forall|i: int| 0 <= i < predicates@.len() ==> pred_total(#[trigger] predicates@[i]),
        ensures
            !b ==> all_answered_false(predicates@, *x),
            b ==> exists|i: int|
                0 <= i < predicates@.len() && call_ensures(#[trigger] predicates@[i], (x,), true),
        {
            let mut i: usize = 0;
            while i < predicates.len()
                invariant
                    i <= predicates@.len(),
                    forall|k: int| 0 <= k < predicates@.len() ==> pred_total(#[trigger] predicates@[k]),
                    forall|k: int| 0 <= k < i ==> call_ensures(#[trigger] predicates@[k], (x,), false),
                decreases predicates@.len() - i,
            {
                let ok = (predicates[i])(x);
                if ok {
                    assert(call_ensures(predicates@[i as int], (x,), true));
                    return true;
                }
                i = i + 1;
            }
            false
        }
}

/// Conditional transformation - applies `transform` when the predicate holds;
/// other values pass through unchanged.
pub struct When<P, F, T> {
    predicate: P,
    transform: F,
    _phantom: PhantomData<T>,
}

impl<P: Fn(&T) -> bool, F: Fn(T) -> T, T> When<P, F, T> {
    /// Transform the inputs that satisfy `predicate`.
    pub fn new(predicate: P, transform: F) -> (r: Self)
        ensures
            r.pred() == predicate,
            r.func() == transform,
    {
        When { predicate, transform, _phantom: PhantomData }
    }
}

impl<P, F, T> When<P, F, T> {
    /// The predicate.
    pub closed spec fn pred(&self) -> P {
        self.predicate
    }

    /// The transform.
    pub closed spec fn func(&self) -> F {
        self.transform
    }
}

impl<P: Fn(&T) -> bool, F: Fn(T) -> T, T: Clone> Transducer<T, T> for When<P, F, T> {
    type State = ();

    open spec fn callable(&self) -> bool {
        pred_total(self.pred()) && fn1_total(self.func())
    }

    open spec fn lawful(&self) -> bool {
        pred_det(self.pred()) && fn1_det(self.func())
    }

    open spec fn init_spec(&self) -> () {
        ()
    }

    open spec fn step_spec(&self, s: (), x: T) -> ((), Seq<T>, bool) {
        if pred_app(self.pred(), x) {
            ((), seq![fn1_app(self.func(), x)], false)
        } else {
            ((), seq![x], false)
        }
    }

    fn init(&self) -> (s: ()) {
        ()
    }

    fn step(&self, s: &mut (), x: T) -> (r: (Vec<T>, bool)) {
        if (self.predicate)(&x) {
            (vec![(self.transform)(x)], false)
        } else {
            (vec![x], false)
        }
    }
}

/// Conditional transformation - applies `transform` when the predicate fails;
/// other values pass through unchanged.
pub struct Unless<P, F, T> {
    predicate: P,
    transform: F,
    _phantom: PhantomData<T>,
}

impl<P: Fn(&T) -> bool, F: Fn(T) -> T, T> Unless<P, F, T> {
    /// Transform the inputs that do not satisfy `predicate`.
    pub fn new(predicate: P, transform: F) -> (r: Self)
        ensures
            r.pred() == predicate,
            r.func() == transform,
    {
        Unless { predicate, transform, _phantom: PhantomData }
    }
}

impl<P, F, T> Unless<P, F, T> {
    /// The predicate.
    pub closed spec fn pred(&self) -> P {
        self.predicate
    }

    /// The transform.
    pub closed spec fn func(&self) -> F {
        self.transform
    }
}

impl<P: Fn(&T) -> bool, F: Fn(T) -> T, T: Clone> Transducer<T, T> for Unless<P, F, T> {
    type State = ();

    open spec fn callable(&self) -> bool {
        pred_total(self.pred()) && fn1_total(self.func())
    }

    open spec fn lawful(&self) -> bool {
        pred_det(self.pred()) && fn1_det(self.func())
    }

    open spec fn init_spec(&self) -> () {
        ()
    }

    open spec fn step_spec(&self, s: (), x: T) -> ((), Seq<T>, bool) {
        if !pred_app(self.pred(), x) {
            ((), seq![fn1_app(self.func(), x)], false)
        } else {
            ((), seq![x], false)
        }
    }

    fn init(&self) -> (s: ()) {
        ()
    }

    fn step(&self, s: &mut (), x: T) -> (r: (Vec<T>, bool)) {
        if !(self.predicate)(&x) {
            (vec![(self.transform)(x)], false)
        } else {
            (vec![x], false)
        }
    }
}

/// Branch on condition - applies `on_true` when the predicate holds and
/// `on_false` otherwise.
pub struct IfElse<P, F1, F2, T> {
    predicate: P,
    on_true: F1,
    on_false: F2,
    _phantom: PhantomData<T>,
}

impl<P: Fn(&T) -> bool, F1: Fn(T) -> T, F2: Fn(T) -> T, T> IfElse<P, F1, F2, T> {
    /// Transform each input with `on_true` or `on_false` as `predicate` says.
    pub fn new(predicate: P, on_true: F1, on_false: F2) -> (r: Self)
        ensures
            r.pred() == predicate,
            r.on_true() == on_true,
            r.on_false() == on_false,
    {
        IfElse { predicate, on_true, on_false, _phantom: PhantomData }
    }
}

impl<P, F1, F2, T> IfElse<P, F1, F2, T> {
    /// The predicate.
    pub closed spec fn pred(&self) -> P {
        self.predicate
    }

    /// The transform for inputs that satisfy the predicate.
    pub closed spec fn on_true(&self) -> F1 {
        self.on_true
    }

    /// The transform for the other inputs.
    pub closed spec fn on_false(&self) -> F2 {
        self.on_false
    }
}

impl<P: Fn(&T) -> bool, F1: Fn(T) -> T, F2: Fn(T) -> T, T: Clone> Transducer<T, T> for IfElse<
    P,
    F1,
    F2,
    T,
> {
    type State = ();

    open spec fn callable(&self) -> bool {
        pred_total(self.pred()) && fn1_total(self.on_true()) && fn1_total(self.on_false())
    }

    open spec fn lawful(&self) -> bool {
        pred_det(self.pred()) && fn1_det(self.on_true()) && fn1_det(self.on_false())
    }

    open spec fn init_spec(&self) -> () {
        ()
    }

    open spec fn step_spec(&self, s: (), x: T) -> ((), Seq<T>, bool) {
        if pred_app(self.pred(), x) {
            ((), seq![fn1_app(self.on_true(), x)], false)
        } else {
            ((), seq![fn1_app(self.on_false(), x)], false)
        }
    }

    fn init(&self) -> (s: ()) {
        ()
    }

    fn step(&self, s: &mut (), x: T) -> (r: (Vec<T>, bool)) {
        if (self.predicate)(&x) {
            (vec![(self.on_true)(x)], false)
        } else {
            (vec![(self.on_false)(x)], false)
        }
    }
}

} // verus!
