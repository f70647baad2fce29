//! The `Step` type: a reduction value that may signal early termination.
//!
//! `Continue(v)` asks the reduction to go on with `v`; `Stop(v)` ends it with
//! the final value `v`.

use vstd::prelude::*;

verus! {

/// A value in a reduction that may signal early termination.
#[derive(Debug, Clone, Copy, PartialEq, Eq)]
pub enum Step<T> {
    /// Continue processing with this value
    Continue(T),
    /// Stop processing with this final value
    Stop(T),
}

impl<T> Step<T> {
    /// The value held, whatever the variant.
    pub open spec fn value(self) -> T {
        match self {
            Step::Continue(v) => v,
            Step::Stop(v) => v,
        }
    }

    /// Returns true if this Step is Continue
    pub fn is_continue(&self) -> (r: bool)
        ensures
            r == (*self is Continue),
    {
        match self {
            Step::Continue(_) => true,
            Step::Stop(_) => false,
        }
    }

    /// Returns true if this Step is Stop
    pub fn is_stop(&self) -> (r: bool)
        ensures
            r == (*self is Stop),
    {
        match self {
            Step::Continue(_) => false,
            Step::Stop(_) => true,
        }
    }

    /// Unwrap the inner value regardless of whether this is Continue or Stop
    pub fn unwrap(self) -> (r: T)
        ensures
            r == self.value(),
    {
        match self {
            Step::Continue(v) => v,
            Step::Stop(v) => v,
        }
    }

    /// Map a function over the inner value, preserving Continue/Stop status
    pub fn map<U, F: FnOnce(T) -> U>(self, f: F) -> (r: Step<U>)
        requires
            call_requires(f, (self.value(),)),
        ensures
            (r is Continue) == (self is Continue),
            call_ensures(f, (self.value(),), r.value()),
    {
        match self {
            Step::Continue(v) => Step::Continue(f(v)),
            Step::Stop(v) => Step::Stop(f(v)),
        }
    }

    /// Monadic bind: a Continue value is handed to `f`; a Stop value stays
    /// stopped, converted into `U`.
    pub fn and_then<U: From<T>, F: FnOnce(T) -> Step<U>>(self, f: F) -> (r: Step<U>)
        requires
            self is Continue ==> call_requires(f, (self.value(),)),
        ensures
            and_then_gives(self, f, r),
    {
        match self {
            Step::Continue(v) => f(v),
            Step::Stop(v) => Step::Stop(v.into()),
        }
    }

    /// Convert Continue to Some, Stop to None (for early termination detection)
    pub fn continue_value(self) -> (r: Option<T>)
        ensures
            r == (match self {
                Step::Continue(v) => Some(v),
                Step::Stop(_) => None::<T>,
            }),
    {
        match self {
            Step::Continue(v) => Some(v),
            Step::Stop(_) => None,
        }
    }
}

/// Helper function to create a Continue step
pub fn cont<T>(value: T) -> (r: Step<T>)
    ensures
        r == Step::Continue(value),
{
    Step::Continue(value)
}

/// Helper function to create a Stop step
pub fn stop<T>(value: T) -> (r: Step<T>)
    ensures
        r == Step::Stop(value),
{
    Step::Stop(value)
}

/// Check if a Step is stopped
pub fn is_stopped<T>(step: &Step<T>) -> (r: bool)
    ensures
        r == (*step is Stop),
{
    step.is_stop()
}

/// Unwrap a Step value
pub fn unwrap_step<T>(step: Step<T>) -> (r: T)
    ensures
        r == step.value(),
{
    step.unwrap()
}


/// Monadic bind on steps of one type, the model of `and_then` there: a
/// Continue value is handed to `f`; a Stop value stays as it is.
pub open spec fn bind<T>(m: Step<T>, f: spec_fn(T) -> Step<T>) -> Step<T> {
    match m {
        Step::Continue(v) => f(v),
        Step::Stop(v) => Step::Stop(v),
    }
}

/// Left identity: binding a Continue value hands it to `f`.
pub proof fn law_monad_left_identity<T>(x: T, f: spec_fn(T) -> Step<T>)
    ensures
        bind(Step::Continue(x), f) == f(x),
{
}

/// Right identity: binding with Continue changes nothing.
pub proof fn law_monad_right_identity<T>(m: Step<T>)
    ensures
        bind(m, |v: T| Step::Continue(v)) == m,
{
}

/// Associativity: binding `f` and then `g` is binding the function that
/// binds `g` to the result of `f`.
pub proof fn law_monad_associativity<T>(
    m: Step<T>,
    f: spec_fn(T) -> Step<T>,
    g: spec_fn(T) -> Step<T>,
)
    ensures
        bind(bind(m, f), g) == bind(m, |x: T| bind(f(x), g)),
{
}

/// `r` is a result that `m.and_then(f)` may give: `f`'s answer for a
/// Continue value, and for a Stop value the value converted into `U`, still
/// stopped.
pub open spec fn and_then_gives<T, U: From<T>, F: FnOnce(T) -> Step<U>>(
    m: Step<T>,
    f: F,
    r: Step<U>,
) -> bool {
    &&& m is Continue ==> call_ensures(f, (m.value(),), r)
    &&& m is Stop ==> r is Stop && call_ensures(U::from, (m.value(),), r.value())
}

/// Left identity of `and_then`: binding a Continue value gives what `f`
/// gives for it (and a Stop value is converted, `f` not being called).
pub proof fn law_and_then_left_identity<T, U: From<T>, F: FnOnce(T) -> Step<U>>(
    m: Step<T>,
    f: F,
    r: Step<U>,
)
    requires
        and_then_gives(m, f, r),
    ensures
        m is Continue ==> call_ensures(f, (m.value(),), r),
        m is Stop ==> r is Stop && call_ensures(U::from, (m.value(),), r.value()),
{
}

/// Right identity of `and_then`: binding with a function that answers
/// Continue of its argument converted gives back what was bound, converted,
/// Continue or Stop as it was.
pub proof fn law_and_then_right_identity<T, U: From<T>, F: FnOnce(T) -> Step<U>>(
    m: Step<T>,
    f: F,
    r: Step<U>,
)
    requires
        forall|v: T, s: Step<U>|
            #[trigger] call_ensures(f, (v,), s) ==> s is Continue && call_ensures(
                U::from,
                (v,),
                s.value(),
            ),
        and_then_gives(m, f, r),
    ensures
        (r is Continue) == (m is Continue),
        call_ensures(U::from, (m.value(),), r.value()),
{
}

/// Associativity of `and_then`: binding `f` and then `g` gives what binding
/// `h` gives, where `h` binds `g` to what `f` gives, when `f` and `g` are
/// deterministic and converting into `W` directly agrees with converting
/// through `U`.
pub proof fn law_and_then_associative<
    T,
    U: From<T>,
    W: From<U> + From<T>,
    F: FnOnce(T) -> Step<U>,
    G: FnOnce(U) -> Step<W>,
    H: FnOnce(T) -> Step<W>,
>(m: Step<T>, f: F, g: G, h: H, r1: Step<U>, r2: Step<W>, s: Step<W>)
    requires
        forall|v: T, u: U, w1: W, w2: W|
            #[trigger] call_ensures(<U as From<T>>::from, (v,), u) && #[trigger] call_ensures(
                <W as From<U>>::from,
                (u,),
                w1,
            ) && #[trigger] call_ensures(<W as From<T>>::from, (v,), w2) ==> w1 == w2,
        forall|u: U, w1: W, w2: W|
            #[trigger] call_ensures(<W as From<U>>::from, (u,), w1) && #[trigger] call_ensures(
                <W as From<U>>::from,
                (u,),
                w2,
            ) ==> w1 == w2,
        forall|v: T, a: Step<U>, b: Step<U>|
            #[trigger] call_ensures(f, (v,), a) && #[trigger] call_ensures(f, (v,), b) ==> a == b,
        forall|v: U, a: Step<W>, b: Step<W>|
            #[trigger] call_ensures(g, (v,), a) && #[trigger] call_ensures(g, (v,), b) ==> a == b,
        forall|v: T, t: Step<W>|
            #[trigger] call_ensures(h, (v,), t) ==> exists|q: Step<U>|
                call_ensures(f, (v,), q) && and_then_gives(q, g, t),
        and_then_gives(m, f, r1),
        and_then_gives(r1, g, r2),
        and_then_gives(m, h, s),
    ensures
        r2 == s,
{
    match m {
        Step::Stop(v) => {
            assert(call_ensures(<U as From<T>>::from, (v,), r1.value()));
            assert(call_ensures(<W as From<U>>::from, (r1.value(),), r2.value()));
            assert(call_ensures(<W as From<T>>::from, (v,), s.value()));
        },
        Step::Continue(x) => {
            assert(call_ensures(h, (x,), s));
            let q = choose|q: Step<U>| call_ensures(f, (x,), q) && and_then_gives(q, g, s);
            assert(call_ensures(f, (x,), q));
            assert(call_ensures(f, (x,), r1));
            assert(q == r1);
            match r1 {
                Step::Continue(y) => {
                    assert(call_ensures(g, (y,), s));
                    assert(call_ensures(g, (y,), r2));
                },
                Step::Stop(y) => {
                    assert(call_ensures(<W as From<U>>::from, (y,), s.value()));
                    assert(call_ensures(<W as From<U>>::from, (y,), r2.value()));
                },
            }
        },
    }
}

} // verus!
