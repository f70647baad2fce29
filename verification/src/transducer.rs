//! The transducer trait, its semantics, identity and composition.
//!
//! A transducer turns a stream of inputs into a stream of outputs, one input at
//! a time, and may ask the whole reduction to stop. Each run starts from the
//! transducer's initial state; `step` consumes one input and yields the outputs
//! it produces and whether the run must halt afterwards.
//!
//! The meaning of a transducer is given by `run` and `outputs` below. Composing
//! two transducers composes these meanings (`lemma_compose_outputs`), which
//! gives the category laws: identity on both sides and associativity.

use crate::step::Step;
use std::marker::PhantomData;
use vstd::prelude::*;

verus! {

/// A transducer from inputs of type `In` to outputs of type `Out`.
pub trait Transducer<In, Out>: Sized {
    /// The state that one run of the transducer carries from input to input.
    type State: View;

    /// Every closure that the transducer holds may be called on any argument.
    spec fn callable(&self) -> bool;

    /// Every closure that the transducer holds is deterministic (and clones
    /// and hash keys behave as values), so that its behaviour is the function
    /// `step_spec`.
    spec fn lawful(&self) -> bool;

    /// The state a run starts from.
    spec fn init_spec(&self) -> <Self::State as View>::V;

    /// One step: the next state, the outputs produced for input `x`, and
    /// whether the run must halt after them.
    spec fn step_spec(&self, s: <Self::State as View>::V, x: In) -> (
        <Self::State as View>::V,
        Seq<Out>,
        bool,
    );

    /// A fresh state for a new run.
    fn init(&self) -> (s: Self::State)
        ensures
            self.lawful() ==> s@ == self.init_spec(),
    ;

    /// Feed one input.
    fn step(&self, s: &mut Self::State, x: In) -> (r: (Vec<Out>, bool))
        requires
            self.callable(),
        ensures
            self.lawful() ==> (final(s)@, r.0@, r.1) == self.step_spec(old(s)@, x),
    ;

    /// Compose this transducer with another: `self` first, then `other`.
    fn compose<Out2, T>(self, other: T) -> (c: Compose<
        Self,
        T,
        In,
        Out,
        Out2,
    >)
        ensures
            c.first() == self,
            c.second() == other,
    {
        Compose { first: self, second: other, _phantom: PhantomData }
    }

}

/// Running `t` from state `s` over the inputs `xs`: the final state, the
/// outputs produced, and whether the run halted. Inputs after a halt are not
/// consumed.
pub open spec fn run<In, Out, T: Transducer<In, Out>>(
    t: T,
    s: <T::State as View>::V,
    xs: Seq<In>,
) -> (<T::State as View>::V, Seq<Out>, bool)
    decreases xs.len(),
{
    if xs.len() == 0 {
        (s, Seq::empty(), false)
    } else {
        let (s1, o1, h1) = t.step_spec(s, xs[0]);
        if h1 {
            (s1, o1, true)
        } else {
            let (s2, o2, h2) = run(t, s1, xs.drop_first());
            (s2, o1 + o2, h2)
        }
    }
}

/// The outputs of a fresh run of `t` over `xs`.
pub open spec fn outputs<In, Out, T: Transducer<In, Out>>(t: T, xs: Seq<In>) -> Seq<Out> {
    run(t, t.init_spec(), xs).1
}

/// Whether a fresh run of `t` over `xs` halts.
pub open spec fn halts<In, Out, T: Transducer<In, Out>>(t: T, xs: Seq<In>) -> bool {
    run(t, t.init_spec(), xs).2
}

/// Running over `xs + ys` is running over `xs`, then, unless it halted, over
/// `ys` from where it stopped.
pub proof fn lemma_run_append<In, Out, T: Transducer<In, Out>>(
    t: T,
    s: <T::State as View>::V,
    xs: Seq<In>,
    ys: Seq<In>,
)
    ensures
        run(t, s, xs + ys) == ({
            let (s1, o1, h1) = run(t, s, xs);
            if h1 {
                (s1, o1, true)
            } else {
                let (s2, o2, h2) = run(t, s1, ys);
                (s2, o1 + o2, h2)
            }
        }),
    decreases xs.len(),
{
    if xs.len() == 0 {
        assert(xs + ys =~= ys);
        let (s2, o2, h2) = run(t, s, ys);
        assert(Seq::<Out>::empty() + o2 =~= o2);
    } else {
        assert((xs + ys)[0] == xs[0]);
        assert((xs + ys).drop_first() =~= xs.drop_first() + ys);
        let (s1, o1, h1) = t.step_spec(s, xs[0]);
        if !h1 {
            lemma_run_append(t, s1, xs.drop_first(), ys);
            let (sa, oa, ha) = run(t, s1, xs.drop_first());
            if !ha {
                let (sb, ob, hb) = run(t, sa, ys);
                assert(o1 + (oa + ob) =~= (o1 + oa) + ob);
            }
        }
    }
}

/// Running over a single input is one step.
pub proof fn lemma_run_single<In, Out, T: Transducer<In, Out>>(
    t: T,
    s: <T::State as View>::V,
    x: In,
)
    ensures
        run(t, s, seq![x]) == t.step_spec(s, x),
{
    reveal_with_fuel(run, 2);
    let (s1, o1, h1) = t.step_spec(s, x);
    assert(seq![x][0] == x);
    assert(seq![x].drop_first() =~= Seq::<In>::empty());
    assert(o1 + Seq::<Out>::empty() =~= o1);
}

/// The identity transducer - passes values through unchanged.
pub struct Identity<T> {
    _phantom: PhantomData<T>,
}

impl<T> Identity<T> {
    /// The identity transducer.
    pub fn new() -> Self {
        Identity { _phantom: PhantomData }
    }
}

impl<T> Transducer<T, T> for Identity<T> {
    type State = ();

    open spec fn callable(&self) -> bool {
        true
    }

    open spec fn lawful(&self) -> bool {
        true
    }

    open spec fn init_spec(&self) -> () {
        ()
    }

    open spec fn step_spec(&self, s: (), x: T) -> ((), Seq<T>, bool) {
        ((), seq![x], false)
    }

    fn init(&self) -> (s: ()) {
        ()
    }

    fn step(&self, s: &mut (), x: T) -> (r: (Vec<T>, bool)) {
        (vec![x], false)
    }
}

/// The identity transducer outputs its inputs.
pub proof fn lemma_identity_outputs<T>(id: Identity<T>, xs: Seq<T>)
    ensures
        run(id, (), xs) == ((), xs, false),
        outputs(id, xs) == xs,
    decreases xs.len(),
{
    if xs.len() > 0 {
        lemma_identity_outputs(id, xs.drop_first());
        assert(seq![xs[0]] + xs.drop_first() =~= xs);
    }
}

/// Composition of two transducers: `first` feeds `second`.
pub struct Compose<T1, T2, In, Mid, Out> {
    first: T1,
    second: T2,
    _phantom: PhantomData<(In, Mid, Out)>,
}

impl<T1, T2, In, Mid, Out> Compose<T1, T2, In, Mid, Out> {
    /// The transducer applied first.
    pub closed spec fn first(&self) -> T1 {
        self.first
    }

    /// The transducer applied second.
    pub closed spec fn second(&self) -> T2 {
        self.second
    }
}

/// The state of a composed run: the states of both parts.
pub struct ComposeState<S1, S2> {
    pub first: S1,
    pub second: S2,
}

impl<S1: View, S2: View> View for ComposeState<S1, S2> {
    type V = (S1::V, S2::V);

    open spec fn view(&self) -> (S1::V, S2::V) {
        (self.first@, self.second@)
    }
}

impl<T1, T2, In, Mid, Out> Transducer<In, Out> for Compose<T1, T2, In, Mid, Out> where
    T1: Transducer<In, Mid>,
    T2: Transducer<Mid, Out>,
 {
    type State = ComposeState<T1::State, T2::State>;

    open spec fn callable(&self) -> bool {
        self.first().callable() && self.second().callable()
    }

    open spec fn lawful(&self) -> bool {
        self.first().lawful() && self.second().lawful()
    }

    open spec fn init_spec(&self) -> (<T1::State as View>::V, <T2::State as View>::V) {
        (self.first().init_spec(), self.second().init_spec())
    }

    open spec fn step_spec(
        &self,
        s: (<T1::State as View>::V, <T2::State as View>::V),
        x: In,
    ) -> ((<T1::State as View>::V, <T2::State as View>::V), Seq<Out>, bool) {
        let (s1, o1, h1) = self.first().step_spec(s.0, x);
        let (s2, o2, h2) = run(self.second(), s.1, o1);
        ((s1, s2), o2, h1 || h2)
    }

    fn init(&self) -> (s: Self::State) {
        ComposeState { first: self.first.init(), second: self.second.init() }
    }

    fn step(&self, s: &mut Self::State, x: In) -> (r: (Vec<Out>, bool)) {
        let (mids, h1) = self.first.step(&mut s.first, x);
        let (outs, h2) = feed(&self.second, &mut s.second, mids);
        (outs, h1 || h2)
    }
}

/// Feed the inputs `xs` to `t` from state `s`, stopping at a halt.
pub fn feed<In, Out, T: Transducer<In, Out>>(t: &T, s: &mut T::State, xs: Vec<In>) -> (r: (
    Vec<Out>,
    bool,
))
    requires
        t.callable(),
    ensures
        t.lawful() ==> (final(s)@, r.0@, r.1) == run(*t, old(s)@, xs@),
{
    let ghost xs0 = xs@;
    let ghost s0 = s@;
    let mut rev = reversed(xs);
    assert(rev@.reverse() =~= xs0);
    let mut outs: Vec<Out> = Vec::new();
    let mut halted = false;
    while !halted && rev.len() > 0
        invariant
            t.callable(),
            t.lawful() ==> run(*t, s0, xs0) == if halted {
                (s@, outs@, true)
            } else {
                let (s2, o2, h2) = run(*t, s@, rev@.reverse());
                (s2, outs@ + o2, h2)
            },
        decreases rev.len(),
    {
        let ghost before = rev@;
        let x = rev.pop().unwrap();
        let ghost rest = rev@.reverse();
        proof {
            lemma_pop_reverse(before);
        }
        let (mut o, h) = t.step(s, x);
        proof {
            if t.lawful() {
                let whole = seq![x] + rest;
                assert(whole[0] == x);
                assert(whole.drop_first() =~= rest);
                if !h {
                    let (s2, o2, h2) = run(*t, s@, rest);
                    assert(outs@ + (o@ + o2) =~= (outs@ + o@) + o2);
                }
            }
        }
        outs.append(&mut o);
        halted = h;
    }
    proof {
        if t.lawful() && !halted {
            assert(rev@.reverse() =~= Seq::<In>::empty());
            assert(outs@ + Seq::<Out>::empty() =~= outs@);
        }
    }
    (outs, halted)
}

} // verus!

verus! {

/// Reducing `outs` with `r` from `acc`, stopping as soon as `r` stops.
pub open spec fn reduce_outs<Acc, Out, R: Fn(Acc, Out) -> Step<Acc>>(
    r: R,
    acc: Acc,
    outs: Seq<Out>,
) -> Step<Acc>
    decreases outs.len(),
{
    if outs.len() == 0 {
        Step::Continue(acc)
    } else {
        match crate::fnspec::fn2_app(r, acc, outs[0]) {
            Step::Stop(v) => Step::Stop(v),
            Step::Continue(v) => reduce_outs(r, v, outs.drop_first()),
        }
    }
}

/// Taking the last element off a sequence takes the first off its reverse.
pub proof fn lemma_pop_reverse<T>(s: Seq<T>)
    requires
        s.len() > 0,
    ensures
        s.reverse() == seq![s.last()] + s.drop_last().reverse(),
{
    assert(s.reverse() =~= seq![s.last()] + s.drop_last().reverse());
}

/// Reverse a vector by moving its elements.
pub fn reversed<T>(v: Vec<T>) -> (r: Vec<T>)
    ensures
        r@ == v@.reverse(),
{
    let ghost v0 = v@;
    let mut rev: Vec<T> = Vec::new();
    let mut src = v;
    while src.len() > 0
        invariant
            src@ + rev@.reverse() == v0,
        decreases src.len(),
    {
        let x = src.pop().unwrap();
        proof {
            assert(rev@.push(x).reverse() =~= seq![x] + rev@.reverse());
        }
        rev.push(x);
    }
    assert(rev@.reverse() =~= v0);
    assert(rev@.reverse().reverse() =~= rev@);
    rev
}

/// Reduce `outs` with `reducer` from `acc`, stopping as soon as it stops.
pub fn reduce_vec<Acc, Out, R: Fn(Acc, Out) -> Step<Acc>>(
    reducer: &R,
    init: Acc,
    outs: Vec<Out>,
) -> (r: Step<Acc>)
    requires
        crate::fnspec::fn2_total(*reducer),
    ensures
        crate::fnspec::fn2_det(*reducer) ==> r == reduce_outs(*reducer, init, outs@),
{
    let ghost outs0 = outs@;
    let ghost acc0 = init;
    let mut rev = reversed(outs);
    assert(rev@.reverse() =~= outs0);
    let mut acc = init;
    while rev.len() > 0
        invariant
            acc0 == init,
            outs0 == outs@,
            crate::fnspec::fn2_total(*reducer),
            crate::fnspec::fn2_det(*reducer) ==> reduce_outs(*reducer, acc0, outs0)
                == reduce_outs(*reducer, acc, rev@.reverse()),
        decreases rev.len(),
    {
        let ghost before = rev@;
        let x = rev.pop().unwrap();
        let ghost rest = rev@.reverse();
        proof {
            lemma_pop_reverse(before);
            let whole = seq![x] + rest;
            assert(whole[0] == x);
            assert(whole.drop_first() =~= rest);
        }
        let ghost acc_before = acc;
        let st = reducer(acc, x);
        proof {
            if crate::fnspec::fn2_det(*reducer) {
                assert(call_ensures(*reducer, (acc_before, x), st));
                assert(crate::fnspec::fn2_app(*reducer, acc_before, x) == st);
            }
        }
        match st {
            Step::Continue(v) => {
                acc = v;
            },
            Step::Stop(v) => {
                proof {
                    if crate::fnspec::fn2_det(*reducer) {
                        assert(reduce_outs(*reducer, acc_before, seq![x] + rest) == Step::Stop(v));
                        assert(before.reverse() == seq![x] + rest);
                        assert(reduce_outs(*reducer, acc0, outs0) == Step::Stop(v));
                    }
                }
                return Step::Stop(v);
            },
        }
    }
    proof {
        assert(rev@.reverse() =~= Seq::<Out>::empty());
    }
    Step::Continue(acc)
}

/// A transducer with a reducing function attached, ready to consume inputs.
pub struct Reducing<'a, X: Transducer<In, Out>, R, In, Out, Acc> {
    transducer: &'a X,
    state: X::State,
    reducer: R,
    _phantom: PhantomData<(In, Out, Acc)>,
}

impl<'a, X: Transducer<In, Out>, R: Fn(Acc, Out) -> Step<Acc>, In, Out, Acc> Reducing<
    'a,
    X,
    R,
    In,
    Out,
    Acc,
> {
    /// The transducer that inputs go through.
    pub closed spec fn transducer(&self) -> &'a X {
        self.transducer
    }

    /// The state of the run so far.
    pub closed spec fn state(&self) -> X::State {
        self.state
    }

    /// The reducing function that receives the outputs.
    pub closed spec fn reducer(&self) -> R {
        self.reducer
    }

    /// Whether the transducer and the reducing function are lawful.
    pub open spec fn lawful(&self) -> bool {
        self.transducer().lawful() && crate::fnspec::fn2_det(self.reducer())
    }

    /// The result of consuming `x` with accumulator `acc` in state `s`:
    /// outputs are reduced in order; the result stops if the reducer stops
    /// or the transducer halts.
    pub open spec fn call_spec(&self, s: <X::State as View>::V, acc: Acc, x: In) -> Step<Acc> {
        let (s1, outs, h) = self.transducer().step_spec(s, x);
        match reduce_outs(self.reducer(), acc, outs) {
            Step::Stop(v) => Step::Stop(v),
            Step::Continue(v) => if h {
                Step::Stop(v)
            } else {
                Step::Continue(v)
            },
        }
    }

    /// Consume one input with the given accumulator.
    pub fn call(&mut self, acc: Acc, x: In) -> (r: Step<Acc>)
        requires
            old(self).transducer().callable(),
            crate::fnspec::fn2_total(old(self).reducer()),
        ensures
            final(self).transducer() == old(self).transducer(),
            final(self).reducer() == old(self).reducer(),
            old(self).lawful() ==> r == old(self).call_spec(old(self).state()@, acc, x)
                && final(self).state()@ == old(self).transducer().step_spec(
                old(self).state()@,
                x,
            ).0,
    {
        let (outs, h) = self.transducer.step(&mut self.state, x);
        match reduce_vec(&self.reducer, acc, outs) {
            Step::Stop(v) => Step::Stop(v),
            Step::Continue(v) => if h {
                Step::Stop(v)
            } else {
                Step::Continue(v)
            },
        }
    }
}


/// Attaching a reducing function to a transducer.
pub trait Apply<In, Out>: Transducer<In, Out> {
    /// Attach a reducing function: the result feeds each input through this
    /// transducer and each output into `reducer`.
    fn apply<Acc, R: Fn(Acc, Out) -> Step<Acc>>(&self, reducer: R) -> (r: Reducing<
        '_,
        Self,
        R,
        In,
        Out,
        Acc,
    >)
        ensures
            *r.transducer() == *self,
            r.reducer() == reducer,
            self.lawful() ==> r.state()@ == self.init_spec(),
    ;
}

impl<In, Out, X: Transducer<In, Out>> Apply<In, Out> for X {
    fn apply<Acc, R: Fn(Acc, Out) -> Step<Acc>>(&self, reducer: R) -> (r: Reducing<
        '_,
        Self,
        R,
        In,
        Out,
        Acc,
    >) {
        Reducing { transducer: self, state: self.init(), reducer, _phantom: PhantomData }
    }
}


/// A composed run produces what the second transducer produces when run over
/// the outputs of the first, and halts when either part halts.
pub proof fn lemma_compose_run<T1, T2, In, Mid, Out>(
    c: Compose<T1, T2, In, Mid, Out>,
    sa: <T1::State as View>::V,
    sb: <T2::State as View>::V,
    xs: Seq<In>,
) where T1: Transducer<In, Mid>, T2: Transducer<Mid, Out>
    ensures
        ({
            let (_, mids, ha) = run(c.first(), sa, xs);
            let (_, outs, hb) = run(c.second(), sb, mids);
            let (_, couts, hc) = run(c, (sa, sb), xs);
            couts == outs && hc == (ha || hb)
        }),
    decreases xs.len(),
{
    let a = c.first();
    let b = c.second();
    if xs.len() > 0 {
        let (sa1, o1, h1) = a.step_spec(sa, xs[0]);
        let (sb1, o2, h2) = run(b, sb, o1);
        if !h1 {
            let rest = xs.drop_first();
            let (sa2, mids_rest, ha2) = run(a, sa1, rest);
            lemma_run_append(b, sb, o1, mids_rest);
            if !h2 {
                lemma_compose_run(c, sa1, sb1, rest);
            }
        } else {
        }
    }
}

/// Composition composes meanings: the outputs of `first` then `second` over
/// `xs` are the outputs of `second` over the outputs of `first` over `xs`.
pub proof fn lemma_compose_outputs<T1, T2, In, Mid, Out>(
    c: Compose<T1, T2, In, Mid, Out>,
    xs: Seq<In>,
) where T1: Transducer<In, Mid>, T2: Transducer<Mid, Out>
    ensures
        outputs(c, xs) == outputs(c.second(), outputs(c.first(), xs)),
        halts(c, xs) == (halts(c.first(), xs) || halts(c.second(), outputs(c.first(), xs))),
{
    lemma_compose_run(c, c.first().init_spec(), c.second().init_spec(), xs);
}

/// Left identity law: `Identity` composed before `t` behaves as `t`.
pub proof fn law_compose_left_identity<T, In, Out>(
    c: Compose<Identity<In>, T, In, In, Out>,
    xs: Seq<In>,
) where T: Transducer<In, Out>
    ensures
        outputs(c, xs) == outputs(c.second(), xs),
        halts(c, xs) == halts(c.second(), xs),
{
    lemma_compose_outputs(c, xs);
    lemma_identity_outputs(c.first(), xs);
}

/// Right identity law: `Identity` composed after `t` behaves as `t`.
pub proof fn law_compose_right_identity<T, In, Out>(
    c: Compose<T, Identity<Out>, In, Out, Out>,
    xs: Seq<In>,
) where T: Transducer<In, Out>
    ensures
        outputs(c, xs) == outputs(c.first(), xs),
        halts(c, xs) == halts(c.first(), xs),
{
    lemma_compose_outputs(c, xs);
    lemma_identity_outputs(c.second(), outputs(c.first(), xs));
}

/// Associativity law: `(t1 . t2) . t3` and `t1 . (t2 . t3)` behave alike.
pub proof fn law_compose_associative<T1, T2, T3, A, B, C, D>(
    left: Compose<Compose<T1, T2, A, B, C>, T3, A, C, D>,
    right: Compose<T1, Compose<T2, T3, B, C, D>, A, B, D>,
    xs: Seq<A>,
) where T1: Transducer<A, B>, T2: Transducer<B, C>, T3: Transducer<C, D>
    requires
        left.first().first() == right.first(),
        left.first().second() == right.second().first(),
        left.second() == right.second().second(),
    ensures
        outputs(left, xs) == outputs(right, xs),
        halts(left, xs) == halts(right, xs),
{
    lemma_compose_outputs(left, xs);
    lemma_compose_outputs(left.first(), xs);
    lemma_compose_outputs(right, xs);
    lemma_compose_outputs(right.second(), outputs(right.first(), xs));
}

/// `p` is a prefix of `s`.
pub open spec fn is_prefix<A>(p: Seq<A>, s: Seq<A>) -> bool {
    p.len() <= s.len() && s.take(p.len() as int) == p
}

/// A run of a transducer over a source, handing out the outputs of one input
/// at a time.
pub struct Run<'a, X: Transducer<T, U>, T, U> {
    t: &'a X,
    state: X::State,
    pending: Vec<T>,
    halted: bool,
    all: Ghost<Seq<T>>,
    done: Ghost<Seq<T>>,
    produced: Ghost<Seq<U>>,
}

impl<'a, X: Transducer<T, U>, T, U> Run<'a, X, T, U> {
    /// The transducer being run.
    pub closed spec fn transducer(&self) -> X {
        *self.t
    }

    /// The whole source.
    pub closed spec fn source(&self) -> Seq<T> {
        self.all@
    }

    /// The outputs handed out so far.
    pub closed spec fn produced(&self) -> Seq<U> {
        self.produced@
    }

    /// How many inputs are left to consume.
    pub closed spec fn remaining(&self) -> nat {
        if self.halted {
            0
        } else {
            self.pending@.len()
        }
    }

    /// The run's internal consistency.
    pub closed spec fn inv(&self) -> bool {
        &&& self.done@ + self.pending@.reverse() == self.all@
        &&& self.t.callable()
        &&& self.t.lawful() ==> run(*self.t, self.t.init_spec(), self.done@) == (
            self.state@,
            self.produced@,
            self.halted,
        )
    }

    /// Start a run of `t` over `source`.
    pub fn new(t: &'a X, source: Vec<T>) -> (r: Self)
        requires
            t.callable(),
        ensures
            r.inv(),
            r.transducer() == *t,
            r.source() == source@,
            r.produced() == Seq::<U>::empty(),
    {
        let ghost all = source@;
        let pending = reversed(source);
        proof {
            assert(pending@.reverse() =~= all);
            assert(Seq::<T>::empty() + pending@.reverse() =~= all);
        }
        Run {
            t,
            state: t.init(),
            pending,
            halted: false,
            all: Ghost(all),
            done: Ghost(Seq::empty()),
            produced: Ghost(Seq::empty()),
        }
    }

    /// What was handed out is a prefix of all the run's outputs.
    pub proof fn lemma_produced_prefix(&self)
        requires
            self.inv(),
            self.transducer().lawful(),
        ensures
            is_prefix(self.produced(), outputs(self.transducer(), self.source())),
    {
        let t = *self.t;
        let rest = self.pending@.reverse();
        lemma_run_append(t, t.init_spec(), self.done@, rest);
        if !self.halted {
            let (s2, o2, h2) = run(t, self.state@, rest);
            assert((self.produced@ + o2).take(self.produced@.len() as int) =~= self.produced@);
        } else {
            assert(self.produced@.take(self.produced@.len() as int) =~= self.produced@);
        }
    }

    /// The outputs of the next input, or `None` once the run is over; then
    /// everything handed out is all the run's outputs.
    pub fn next_batch(&mut self) -> (r: Option<Vec<U>>)
        requires
            old(self).inv(),
        ensures
            final(self).inv(),
            final(self).transducer() == old(self).transducer(),
            final(self).source() == old(self).source(),
            match r {
                Some(b) => {
                    &&& final(self).produced() == old(self).produced() + b@
                    &&& final(self).remaining() < old(self).remaining()
                },
                None => {
                    &&& final(self).produced() == old(self).produced()
                    &&& old(self).transducer().lawful() ==> old(self).produced() == outputs(
                        old(self).transducer(),
                        old(self).source(),
                    )
                },
            },
    {
        if self.halted || self.pending.len() == 0 {
            proof {
                let t = *self.t;
                if t.lawful() {
                    let rest = self.pending@.reverse();
                    lemma_run_append(t, t.init_spec(), self.done@, rest);
                    if !self.halted {
                        assert(rest =~= Seq::<T>::empty());
                        assert(self.done@ =~= self.all@);
                    }
                }
            }
            return None;
        }
        let ghost before = self.pending@;
        let x = self.pending.pop().unwrap();
        proof {
            lemma_pop_reverse(before);
            assert(self.done@.push(x) + self.pending@.reverse() =~= self.done@ + before.reverse());
        }
        let ghost old_state = self.state@;
        let (batch, h) = self.t.step(&mut self.state, x);
        proof {
            let t = *self.t;
            if t.lawful() {
                lemma_run_append(t, t.init_spec(), self.done@, seq![x]);
                lemma_run_single(t, old_state, x);
                assert(self.done@.push(x) =~= self.done@ + seq![x]);
            }
            self.done@ = self.done@.push(x);
            self.produced@ = self.produced@ + batch@;
        }
        self.halted = h;
        Some(batch)
    }
}

} // verus!
