//! A pipeline assembled at run time from a list of stages.
//!
//! Each stage is a map, a filter, a map fused with a filter, a flat map, a
//! take, a take-while, a drop, a drop-while or a tap. A value enters the first
//! stage and flows on through the others; a flat map sends each value it
//! produces through the stages after it. Take and take-while stages end the
//! whole run. Each take, drop and drop-while stage keeps its own count or flag.
//!
//! The pipeline is a transducer: its step is `push_from` from the first stage,
//! so `to_array` gives `outputs` of the pipeline over the source.

use crate::fnspec::{
    fn1_app, fn1_det, fn1_total, fn2_app, fn2_det, fn2_total, pred_app, pred_det, pred_total,
    ref_fn_total,
};
use crate::collectors::{passes, to_vec};
use crate::laws::{leading, lemma_leading};
use crate::transducer::{halts, lemma_pop_reverse, outputs, reversed, run, Run, Transducer};
use std::marker::PhantomData;
use vstd::prelude::*;

verus! {

/// One stage of a pipeline. `M` maps a value, `P` tests one, `E` expands one
/// into several and `T` looks at one.
pub enum Operation<M, P, E, T> {
    /// Replace each value by what the function returns for it.
    MapWith(M),
    /// Keep the values that satisfy the predicate.
    Filter(P),
    /// A map, then a filter on the mapped value, as one stage.
    MapFilter(M, P),
    /// Replace each value by the values the function returns for it.
    FlatMap(E),
    /// Let the first `n` values through; the next one ends the run.
    Take(usize),
    /// Let values through while the predicate holds; the first that fails
    /// ends the run.
    TakeWhile(P),
    /// Hold back the first `n` values.
    Drop(usize),
    /// Hold back values while the predicate holds; from the first that fails
    /// on, let every value through.
    DropWhile(P),
    /// Call the function on each value and let the value through.
    Tap(T),
}

/// What one stage remembers during a run: how many values a take or drop
/// stage has counted, and whether a drop-while stage is still dropping.
#[derive(Clone, Copy)]
pub struct StageState {
    pub count: usize,
    pub dropping: bool,
}

/// The state each stage starts a run with.
pub open spec fn fresh_stage() -> StageState {
    StageState { count: 0, dropping: true }
}

/// The starting states of `n` stages.
pub open spec fn fresh_states(n: nat) -> Seq<StageState> {
    Seq::new(n, |i: int| fresh_stage())
}

/// The states of `n` stages: `s` if it has one per stage, fresh ones
/// otherwise.
pub open spec fn fitted(s: Seq<StageState>, n: nat) -> Seq<StageState> {
    if s.len() == n {
        s
    } else {
        fresh_states(n)
    }
}

/// Every closure of the stage may be called on any argument.
pub open spec fn stage_callable<X, M: Fn(X) -> X, P: Fn(&X) -> bool, E: Fn(X) -> Vec<X>, T: Fn(&X)>(
    op: Operation<M, P, E, T>,
) -> bool {
    match op {
        Operation::MapWith(f) => fn1_total(f),
        Operation::Filter(p) => pred_total(p),
        Operation::MapFilter(f, p) => fn1_total(f) && pred_total(p),
        Operation::FlatMap(f) => fn1_total(f),
        Operation::Take(_) => true,
        Operation::TakeWhile(p) => pred_total(p),
        Operation::Drop(_) => true,
        Operation::DropWhile(p) => pred_total(p),
        Operation::Tap(t) => ref_fn_total(t),
    }
}

/// Every closure of the stage that yields a value is deterministic.
pub open spec fn stage_lawful<X, M: Fn(X) -> X, P: Fn(&X) -> bool, E: Fn(X) -> Vec<X>, T: Fn(&X)>(
    op: Operation<M, P, E, T>,
) -> bool {
    match op {
        Operation::MapWith(f) => fn1_det(f),
        Operation::Filter(p) => pred_det(p),
        Operation::MapFilter(f, p) => fn1_det(f) && pred_det(p),
        Operation::FlatMap(f) => fn1_det(f),
        Operation::Take(_) => true,
        Operation::TakeWhile(p) => pred_det(p),
        Operation::Drop(_) => true,
        Operation::DropWhile(p) => pred_det(p),
        Operation::Tap(_) => true,
    }
}

/// One stage on one value: its next state, the values it passes on, and
/// whether it ends the run.
pub open spec fn stage_step<X, M: Fn(X) -> X, P: Fn(&X) -> bool, E: Fn(X) -> Vec<X>, T: Fn(&X)>(
    op: Operation<M, P, E, T>,
    st: StageState,
    x: X,
) -> (StageState, Seq<X>, bool) {
    match op {
        Operation::MapWith(f) => (st, seq![fn1_app(f, x)], false),
        Operation::Filter(p) => if pred_app(p, x) {
            (st, seq![x], false)
        } else {
            (st, Seq::empty(), false)
        },
        Operation::MapFilter(f, p) => {
            let y = fn1_app(f, x);
            if pred_app(p, y) {
                (st, seq![y], false)
            } else {
                (st, Seq::empty(), false)
            }
        },
        Operation::FlatMap(f) => (st, fn1_app(f, x)@, false),
        Operation::Take(n) => if st.count < n {
            (StageState { count: (st.count + 1) as usize, dropping: st.dropping }, seq![x], false)
        } else {
            (st, Seq::empty(), true)
        },
        Operation::TakeWhile(p) => if pred_app(p, x) {
            (st, seq![x], false)
        } else {
            (st, Seq::empty(), true)
        },
        Operation::Drop(n) => if st.count < n {
            (StageState { count: (st.count + 1) as usize, dropping: st.dropping }, Seq::empty(), false)
        } else {
            (st, seq![x], false)
        },
        Operation::DropWhile(p) => if st.dropping && pred_app(p, x) {
            (st, Seq::empty(), false)
        } else {
            (StageState { count: st.count, dropping: false }, seq![x], false)
        },
        Operation::Tap(_) => (st, seq![x], false),
    }
}

/// Sending `x` into the stages from `k` on, whose states are `s`: the states
/// after, the values that come out of the last stage, and whether a stage
/// ended the run.
pub open spec fn push_from<X, M: Fn(X) -> X, P: Fn(&X) -> bool, E: Fn(X) -> Vec<X>, T: Fn(&X)>(
    ops: Seq<Operation<M, P, E, T>>,
    k: nat,
    s: Seq<StageState>,
    x: X,
) -> (Seq<StageState>, Seq<X>, bool)
    decreases ops.len() - k, 1int, 0int,
{
    if k >= ops.len() {
        (s, seq![x], false)
    } else {
        let (st, ys, stop) = stage_step(ops[k as int], s[k as int], x);
        if stop {
            (s.update(k as int, st), Seq::empty(), true)
        } else {
            push_all(ops, k + 1, s.update(k as int, st), ys)
        }
    }
}

/// Sending the values `ys` one after another into the stages from `k` on,
/// until a stage ends the run.
pub open spec fn push_all<X, M: Fn(X) -> X, P: Fn(&X) -> bool, E: Fn(X) -> Vec<X>, T: Fn(&X)>(
    ops: Seq<Operation<M, P, E, T>>,
    k: nat,
    s: Seq<StageState>,
    ys: Seq<X>,
) -> (Seq<StageState>, Seq<X>, bool)
    decreases ops.len() - k, 2int, ys.len(),
{
    if ys.len() == 0 {
        (s, Seq::empty(), false)
    } else {
        let (s1, o1, h1) = push_from(ops, k, s, ys[0]);
        if h1 {
            (s1, o1, true)
        } else {
            let (s2, o2, h2) = push_all(ops, k, s1, ys.drop_first());
            (s2, o1 + o2, h2)
        }
    }
}

/// Sending one value is sending a sequence of it.
proof fn lemma_push_single<X, M: Fn(X) -> X, P: Fn(&X) -> bool, E: Fn(X) -> Vec<X>, T: Fn(&X)>(
    ops: Seq<Operation<M, P, E, T>>,
    k: nat,
    s: Seq<StageState>,
    x: X,
)
    ensures
        push_all(ops, k, s, seq![x]) == push_from(ops, k, s, x),
{
    assert(seq![x][0] == x);
    assert(seq![x].drop_first() =~= Seq::<X>::empty());
    let (s1, o1, h1) = push_from(ops, k, s, x);
    if !h1 {
        assert(push_all(ops, k, s1, Seq::<X>::empty()) == (s1, Seq::<X>::empty(), false));
        assert(o1 + Seq::<X>::empty() =~= o1);
    }
}

/// The states that a pass through the stages leaves are as many as before.
proof fn lemma_push_len<X, M: Fn(X) -> X, P: Fn(&X) -> bool, E: Fn(X) -> Vec<X>, T: Fn(&X)>(
    ops: Seq<Operation<M, P, E, T>>,
    k: nat,
    s: Seq<StageState>,
    x: X,
)
    requires
        s.len() == ops.len(),
    ensures
        push_from(ops, k, s, x).0.len() == s.len(),
    decreases ops.len() - k, 1int, 0int,
{
    if k < ops.len() {
        let (st, ys, stop) = stage_step(ops[k as int], s[k as int], x);
        if !stop {
            lemma_push_all_len(ops, k + 1, s.update(k as int, st), ys);
        }
    }
}

/// The states that a pass of several values leaves are as many as before.
proof fn lemma_push_all_len<X, M: Fn(X) -> X, P: Fn(&X) -> bool, E: Fn(X) -> Vec<X>, T: Fn(&X)>(
    ops: Seq<Operation<M, P, E, T>>,
    k: nat,
    s: Seq<StageState>,
    ys: Seq<X>,
)
    requires
        s.len() == ops.len(),
    ensures
        push_all(ops, k, s, ys).0.len() == s.len(),
    decreases ops.len() - k, 2int, ys.len(),
{
    if ys.len() > 0 {
        lemma_push_len(ops, k, s, ys[0]);
        let (s1, o1, h1) = push_from(ops, k, s, ys[0]);
        if !h1 {
            lemma_push_all_len(ops, k, s1, ys.drop_first());
        }
    }
}

/// A pipeline of stages over values of type `X`.
pub struct Pipeline<X, M, P, E, T> {
    operations: Vec<Operation<M, P, E, T>>,
    _phantom: PhantomData<X>,
}

impl<X, M, P, E, T> Pipeline<X, M, P, E, T> {
    /// The stages, first to last.
    pub closed spec fn ops(&self) -> Seq<Operation<M, P, E, T>> {
        self.operations@
    }

    /// A pipeline without stages.
    pub fn new() -> (p: Self)
        ensures
            p.ops() == Seq::<Operation<M, P, E, T>>::empty(),
    {
        Pipeline { operations: Vec::new(), _phantom: PhantomData }
    }

    /// Append a stage.
    fn with(self, op: Operation<M, P, E, T>) -> (p: Self)
        ensures
            p.ops() == self.ops().push(op),
    {
        let mut ops = self.operations;
        ops.push(op);
        Pipeline { operations: ops, _phantom: PhantomData }
    }

    /// Add a map stage.
    pub fn map(self, f: M) -> (p: Self)
        ensures
            p.ops() == self.ops().push(Operation::MapWith(f)),
    {
        self.with(Operation::MapWith(f))
    }

    /// Add a filter: fused into the last stage if that is a map, a stage of
    /// its own otherwise.
    pub fn filter(self, pred: P) -> (p: Self)
        ensures
            p.ops() == with_filter(self.ops(), pred),
    {
        let mut ops = self.operations;
        match ops.pop() {
            Some(Operation::MapWith(f)) => {
                ops.push(Operation::MapFilter(f, pred));
            },
            Some(other) => {
                ops.push(other);
                ops.push(Operation::Filter(pred));
            },
            None => {
                ops.push(Operation::Filter(pred));
            },
        }
        Pipeline { operations: ops, _phantom: PhantomData }
    }

    /// Add a flat-map stage.
    pub fn flat_map(self, f: E) -> (p: Self)
        ensures
            p.ops() == self.ops().push(Operation::FlatMap(f)),
    {
        self.with(Operation::FlatMap(f))
    }

    /// Add a stage that takes the first `n` values.
    pub fn take(self, n: usize) -> (p: Self)
        ensures
            p.ops() == self.ops().push(Operation::Take(n)),
    {
        self.with(Operation::Take(n))
    }

    /// Add a stage that takes values while `pred` holds.
    pub fn take_while(self, pred: P) -> (p: Self)
        ensures
            p.ops() == self.ops().push(Operation::TakeWhile(pred)),
    {
        self.with(Operation::TakeWhile(pred))
    }

    /// Add a stage that skips the first `n` values.
    pub fn drop(self, n: usize) -> (p: Self)
        ensures
            p.ops() == self.ops().push(Operation::Drop(n)),
    {
        self.with(Operation::Drop(n))
    }

    /// Add a stage that skips values while `pred` holds.
    pub fn drop_while(self, pred: P) -> (p: Self)
        ensures
            p.ops() == self.ops().push(Operation::DropWhile(pred)),
    {
        self.with(Operation::DropWhile(pred))
    }

    /// Add a stage that calls `f` on each value.
    pub fn tap(self, f: T) -> (p: Self)
        ensures
            p.ops() == self.ops().push(Operation::Tap(f)),
    {
        self.with(Operation::Tap(f))
    }
}

/// The stages after adding a filter `pred`: a trailing map becomes a fused
/// map-filter; otherwise the filter is appended.
pub open spec fn with_filter<M, P, E, T>(ops: Seq<Operation<M, P, E, T>>, pred: P) -> Seq<
    Operation<M, P, E, T>,
> {
    if ops.len() > 0 && ops.last() is MapWith {
        ops.drop_last().push(Operation::MapFilter(ops.last()->MapWith_0, pred))
    } else {
        ops.push(Operation::Filter(pred))
    }
}

/// Folding `outs` from the left with `r`, starting from `acc`.
pub open spec fn fold_outs<A, X, R: Fn(A, X) -> A>(r: R, acc: A, outs: Seq<X>) -> A
    decreases outs.len(),
{
    if outs.len() == 0 {
        acc
    } else {
        fold_outs(r, fn2_app(r, acc, outs[0]), outs.drop_first())
    }
}


/// `n` fresh stage states.
fn fresh_state_vec(n: usize) -> (r: Vec<StageState>)
    ensures
        r@ == fresh_states(n as nat),
{
    let mut r: Vec<StageState> = Vec::new();
    let mut i: usize = 0;
    while i < n
        invariant
            i <= n,
            r@ == fresh_states(i as nat),
        decreases n - i,
    {
        r.push(StageState { count: 0, dropping: true });
        i += 1;
        proof {
            assert(r@ =~= fresh_states(i as nat));
        }
    }
    r
}

impl<X, M: Fn(X) -> X, P: Fn(&X) -> bool, E: Fn(X) -> Vec<X>, T: Fn(&X)> Pipeline<X, M, P, E, T> {
    /// Every closure of every stage may be called on any argument.
    pub open spec fn all_callable(&self) -> bool {
        forall|i: int| 0 <= i < self.ops().len() ==> #[trigger] stage_callable(self.ops()[i])
    }

    /// Every closure of every stage that yields a value is deterministic.
    pub open spec fn all_lawful(&self) -> bool {
        forall|i: int| 0 <= i < self.ops().len() ==> #[trigger] stage_lawful(self.ops()[i])
    }

    /// Send `val` through the stages from `start` on.
    fn process_from(&self, val: X, start: usize, states: &mut Vec<StageState>) -> (r: (
        Vec<X>,
        bool,
    ))
        requires
            start <= self.ops().len(),
            old(states)@.len() == self.ops().len(),
            self.all_callable(),
        ensures
            final(states)@.len() == old(states)@.len(),
            self.all_lawful() ==> (final(states)@, r.0@, r.1) == push_from(
                self.ops(),
                start as nat,
                old(states)@,
                val,
            ),
        decreases self.ops().len() - start, 1int, 0int,
    {
        let n = self.operations.len();
        let ghost ops = self.ops();
        let ghost s0 = states@;
        let ghost v0 = val;
        let mut item = val;
        let mut idx = start;
        while idx < n
            invariant
                start <= idx <= n,
                n == ops.len(),
                old(states)@.len() == n,
                s0 == old(states)@,
                v0 == val,
                ops == self.ops(),
                states@.len() == n,
                self.all_callable(),
                self.all_lawful() ==> push_from(ops, start as nat, s0, v0) == push_from(
                    ops,
                    idx as nat,
                    states@,
                    item,
                ),
            decreases n - idx,
        {
            let st = states[idx];
            let ghost cur = states@;
            let ghost k = idx as nat;
            proof {
                assert(stage_callable(ops[idx as int]));
                assert(cur.update(idx as int, st) =~= cur);
                if self.all_lawful() {
                    assert(stage_lawful(ops[idx as int]));
                }
            }
            match &self.operations[idx] {
                Operation::MapWith(f) => {
                    item = f(item);
                    proof {
                        lemma_push_single(ops, k + 1, cur, item);
                    }
                },
                Operation::Filter(p) => {
                    if !p(&item) {
                        return (Vec::new(), false);
                    }
                    proof {
                        lemma_push_single(ops, k + 1, cur, item);
                    }
                },
                Operation::MapFilter(f, p) => {
                    item = f(item);
                    if !p(&item) {
                        return (Vec::new(), false);
                    }
                    proof {
                        lemma_push_single(ops, k + 1, cur, item);
                    }
                },
                Operation::FlatMap(f) => {
                    let expanded = f(item);
                    return self.process_all(expanded, idx + 1, states);
                },
                Operation::Take(limit) => {
                    if st.count < *limit {
                        states.set(idx, StageState { count: st.count + 1, dropping: st.dropping });
                        proof {
                            lemma_push_single(ops, k + 1, states@, item);
                        }
                    } else {
                        return (Vec::new(), true);
                    }
                },
                Operation::TakeWhile(p) => {
                    if !p(&item) {
                        return (Vec::new(), true);
                    }
                    proof {
                        lemma_push_single(ops, k + 1, cur, item);
                    }
                },
                Operation::Drop(limit) => {
                    if st.count < *limit {
                        states.set(idx, StageState { count: st.count + 1, dropping: st.dropping });
                        return (Vec::new(), false);
                    }
                    proof {
                        lemma_push_single(ops, k + 1, cur, item);
                    }
                },
                Operation::DropWhile(p) => {
                    if st.dropping && p(&item) {
                        return (Vec::new(), false);
                    }
                    states.set(idx, StageState { count: st.count, dropping: false });
                    proof {
                        lemma_push_single(ops, k + 1, states@, item);
                    }
                },
                Operation::Tap(t) => {
                    t(&item);
                    proof {
                        lemma_push_single(ops, k + 1, cur, item);
                    }
                },
            }
            idx += 1;
        }
        (vec![item], false)
    }

    /// Send the values `vals` one after another through the stages from
    /// `start` on, until a stage ends the run.
    fn process_all(&self, vals: Vec<X>, start: usize, states: &mut Vec<StageState>) -> (r: (
        Vec<X>,
        bool,
    ))
        requires
            start <= self.ops().len(),
            old(states)@.len() == self.ops().len(),
            self.all_callable(),
        ensures
            final(states)@.len() == old(states)@.len(),
            self.all_lawful() ==> (final(states)@, r.0@, r.1) == push_all(
                self.ops(),
                start as nat,
                old(states)@,
                vals@,
            ),
        decreases self.ops().len() - start, 2int, 0int,
    {
        let ghost ops = self.ops();
        let ghost s0 = states@;
        let ghost v0 = vals@;
        let mut pending = reversed(vals);
        let mut out: Vec<X> = Vec::new();
        proof {
            assert(pending@.reverse() =~= v0);
            let (s2, o2, h2) = push_all(ops, start as nat, s0, v0);
            assert(Seq::<X>::empty() + o2 =~= o2);
        }
        loop
            invariant
                start <= ops.len(),
                ops == self.ops(),
                states@.len() == ops.len(),
                old(states)@.len() == ops.len(),
                s0 == old(states)@,
                v0 == vals@,
                self.all_callable(),
                self.all_lawful() ==> push_all(ops, start as nat, s0, v0) == ({
                    let (s2, o2, h2) = push_all(ops, start as nat, states@, pending@.reverse());
                    (s2, out@ + o2, h2)
                }),
            decreases pending.len(),
        {
            if pending.len() == 0 {
                proof {
                    assert(pending@.reverse() =~= Seq::<X>::empty());
                    assert(out@ + Seq::<X>::empty() =~= out@);
                }
                return (out, false);
            }
            let ghost before = pending@;
            let ghost cur = states@;
            let v = pending.pop().unwrap();
            proof {
                lemma_pop_reverse(before);
                let ys = before.reverse();
                assert(ys[0] == v);
                assert(ys.drop_first() =~= pending@.reverse());
            }
            let (o, stop) = self.process_from(v, start, states);
            let ghost out0 = out@;
            let mut o = o;
            out.append(&mut o);
            if stop {
                return (out, true);
            }
            proof {
                if self.all_lawful() {
                    let (s2, o2, h2) = push_all(ops, start as nat, states@, pending@.reverse());
                    assert(out0 + (push_from(ops, start as nat, cur, v).1 + o2) =~= out@ + o2);
                }
            }
        }
    }
}

impl<X, M: Fn(X) -> X, P: Fn(&X) -> bool, E: Fn(X) -> Vec<X>, T: Fn(&X)> Transducer<X, X> for Pipeline<
    X,
    M,
    P,
    E,
    T,
> {
    type State = Vec<StageState>;

    open spec fn callable(&self) -> bool {
        self.all_callable()
    }

    open spec fn lawful(&self) -> bool {
        self.all_lawful()
    }

    open spec fn init_spec(&self) -> Seq<StageState> {
        fresh_states(self.ops().len())
    }

    open spec fn step_spec(&self, s: Seq<StageState>, x: X) -> (Seq<StageState>, Seq<X>, bool) {
        push_from(self.ops(), 0, fitted(s, self.ops().len()), x)
    }

    fn init(&self) -> (s: Vec<StageState>) {
        fresh_state_vec(self.operations.len())
    }

    fn step(&self, s: &mut Vec<StageState>, x: X) -> (r: (Vec<X>, bool)) {
        if s.len() != self.operations.len() {
            *s = fresh_state_vec(self.operations.len());
        }
        self.process_from(x, 0, s)
    }
}

impl<X, M: Fn(X) -> X, P: Fn(&X) -> bool, E: Fn(X) -> Vec<X>, T: Fn(&X)> Pipeline<X, M, P, E, T> {
    /// Run the pipeline over `source` and collect what comes out.
    pub fn to_array(&self, source: Vec<X>) -> (r: Vec<X>)
        requires
            self.all_callable(),
        ensures
            self.all_lawful() ==> r@ == outputs(*self, source@),
    {
        to_vec(self, source)
    }

    /// Run the pipeline over `source`, folding what comes out with `reducer`
    /// from `initial`.
    pub fn reduce<A, R: Fn(A, X) -> A>(&self, source: Vec<X>, reducer: R, initial: A) -> (r: A)
        requires
            self.all_callable(),
            fn2_total(reducer),
        ensures
            self.all_lawful() && fn2_det(reducer) ==> r == fold_outs(
                reducer,
                initial,
                outputs(*self, source@),
            ),
    {
        let ghost src = source@;
        let ghost init = initial;
        let mut run = Run::new(self, source);
        let mut acc = initial;
        loop
            invariant
                run.inv(),
                run.transducer() == *self,
                run.source() == src,
                src == source@,
                init == initial,
                fn2_total(reducer),
                self.all_lawful() && fn2_det(reducer) ==> fold_outs(reducer, init, run.produced())
                    == acc,
            decreases run.remaining(),
        {
            let ghost before = run.produced();
            match run.next_batch() {
                Some(batch) => {
                    let ghost b = batch@;
                    let ghost acc0 = acc;
                    let mut rest = reversed(batch);
                    proof {
                        assert(rest@.reverse() =~= b);
                    }
                    while rest.len() > 0
                        invariant
                            fn2_total(reducer),
                            fn2_det(reducer) ==> fold_outs(reducer, acc0, b) == fold_outs(
                                reducer,
                                acc,
                                rest@.reverse(),
                            ),
                        decreases rest.len(),
                    {
                        let ghost r0 = rest@;
                        let v = rest.pop().unwrap();
                        proof {
                            lemma_pop_reverse(r0);
                            assert(r0.reverse()[0] == v);
                            assert(r0.reverse().drop_first() =~= rest@.reverse());
                        }
                        acc = reducer(acc, v);
                    }
                    proof {
                        assert(rest@.reverse() =~= Seq::<X>::empty());
                        if self.all_lawful() && fn2_det(reducer) {
                            lemma_fold_append(reducer, init, before, b);
                        }
                    }
                },
                None => {
                    return acc;
                },
            }
        }
    }
}

/// Folding `xs + ys` is folding `ys` from the fold of `xs`.
proof fn lemma_fold_append<A, X, R: Fn(A, X) -> A>(r: R, acc: A, xs: Seq<X>, ys: Seq<X>)
    ensures
        fold_outs(r, acc, xs + ys) == fold_outs(r, fold_outs(r, acc, xs), ys),
    decreases xs.len(),
{
    if xs.len() == 0 {
        assert(xs + ys =~= ys);
    } else {
        assert((xs + ys)[0] == xs[0]);
        assert((xs + ys).drop_first() =~= xs.drop_first() + ys);
        lemma_fold_append(r, fn2_app(r, acc, xs[0]), xs.drop_first(), ys);
    }
}

/// A pipeline without stages.
pub fn create_pipeline<X, M, P, E, T>() -> (p: Pipeline<X, M, P, E, T>)
    ensures
        p.ops() == Seq::<Operation<M, P, E, T>>::empty(),
{
    Pipeline::new()
}

/// The windows of `size` consecutive values of `source`, each sliding one on
/// from the last; none when `size` is zero or longer than `source`.
pub fn aperture<T: Clone>(source: &Vec<T>, size: usize) -> (r: Vec<Vec<T>>)
    ensures
        r@.len() == if size == 0 || size > source@.len() {
            0
        } else {
            source@.len() - size + 1
        },
        forall|i: int|
            0 <= i < r@.len() ==> (#[trigger] r@[i])@.len() == size && forall|j: int|
                0 <= j < size ==> cloned(source@[i + j], #[trigger] r@[i]@[j]),
{
    let len = source.len();
    let mut result: Vec<Vec<T>> = Vec::new();
    if size == 0 || size > len {
        return result;
    }
    let windows = len - size + 1;
    let mut i: usize = 0;
    while i < windows
        invariant
            i <= windows,
            windows == len - size + 1,
            len == source@.len(),
            0 < size <= len,
            result@.len() == i,
            forall|a: int|
                0 <= a < i ==> (#[trigger] result@[a])@.len() == size && forall|j: int|
                    0 <= j < size ==> cloned(source@[a + j], #[trigger] result@[a]@[j]),
        decreases windows - i,
    {
        let mut window: Vec<T> = Vec::new();
        let mut j: usize = 0;
        while j < size
            invariant
                j <= size,
                i < windows,
                windows == len - size + 1,
                len == source@.len(),
                window@.len() == j,
                forall|c: int| 0 <= c < j ==> cloned(source@[i + c], #[trigger] window@[c]),
            decreases size - j,
        {
            window.push(source[i + j].clone());
            j += 1;
        }
        result.push(window);
        i += 1;
    }
    result
}

/// The states of the unfused stages `s1` and of the fused stages `s2`, for
/// `m` stages before the map and the filter: they agree on those `m` stages.
pub open spec fn fusion_related(m: nat, s1: Seq<StageState>, s2: Seq<StageState>) -> bool {
    &&& s1.len() == m + 2
    &&& s2.len() == m + 1
    &&& s1.take(m as int) == s2.take(m as int)
}

/// The stages `ops` followed by a map `f` and a filter `p`, unfused.
pub open spec fn unfused<M, P, E, T>(ops: Seq<Operation<M, P, E, T>>, f: M, p: P) -> Seq<
    Operation<M, P, E, T>,
> {
    ops.push(Operation::MapWith(f)).push(Operation::Filter(p))
}

/// The stages `ops` followed by a map `f` and a filter `p`, fused.
pub open spec fn fused<M, P, E, T>(ops: Seq<Operation<M, P, E, T>>, f: M, p: P) -> Seq<
    Operation<M, P, E, T>,
> {
    ops.push(Operation::MapFilter(f, p))
}

/// One value sent from stage `k` through the unfused and the fused stages
/// comes out the same.
proof fn lemma_fusion_from<X, M: Fn(X) -> X, P: Fn(&X) -> bool, E: Fn(X) -> Vec<X>, T: Fn(&X)>(
    ops: Seq<Operation<M, P, E, T>>,
    f: M,
    p: P,
    k: nat,
    s1: Seq<StageState>,
    s2: Seq<StageState>,
    x: X,
)
    requires
        k <= ops.len(),
        fusion_related(ops.len(), s1, s2),
    ensures
        ({
            let a = push_from(unfused(ops, f, p), k, s1, x);
            let b = push_from(fused(ops, f, p), k, s2, x);
            a.1 == b.1 && a.2 == b.2 && fusion_related(ops.len(), a.0, b.0)
        }),
    decreases ops.len() + 1 - k, 1int, 0int,
{
    let o1 = unfused(ops, f, p);
    let o2 = fused(ops, f, p);
    let m = ops.len();
    if k < m {
        assert(o1[k as int] == ops[k as int]);
        assert(o2[k as int] == ops[k as int]);
        assert(s1[k as int] == s1.take(m as int)[k as int]);
        assert(s2[k as int] == s2.take(m as int)[k as int]);
        let (st, ys, stop) = stage_step(ops[k as int], s1[k as int], x);
        assert forall|i: int| 0 <= i < m implies s1[i] == s2[i] by {
            assert(s1.take(m as int)[i] == s2.take(m as int)[i]);
        }
        assert(s1.update(k as int, st).take(m as int) =~= s2.update(k as int, st).take(m as int));
        if !stop {
            lemma_fusion_all(ops, f, p, k + 1, s1.update(k as int, st), s2.update(k as int, st), ys);
        }
    } else {
        let y = fn1_app(f, x);
        assert(o1[m as int] == Operation::<M, P, E, T>::MapWith(f));
        assert(o1[(m + 1) as int] == Operation::<M, P, E, T>::Filter(p));
        assert(o2[m as int] == Operation::<M, P, E, T>::MapFilter(f, p));
        assert(s1.update(m as int, s1[m as int]) =~= s1);
        assert(s2.update(m as int, s2[m as int]) =~= s2);
        assert(s1.update((m + 1) as int, s1[(m + 1) as int]) =~= s1);
        lemma_push_single(o1, m + 1, s1, y);
        if pred_app(p, y) {
            lemma_push_single(o1, m + 2, s1, y);
            lemma_push_single(o2, m + 1, s2, y);
        }
    }
}

/// Values sent one after another from stage `k` through the unfused and the
/// fused stages come out the same.
proof fn lemma_fusion_all<X, M: Fn(X) -> X, P: Fn(&X) -> bool, E: Fn(X) -> Vec<X>, T: Fn(&X)>(
    ops: Seq<Operation<M, P, E, T>>,
    f: M,
    p: P,
    k: nat,
    s1: Seq<StageState>,
    s2: Seq<StageState>,
    ys: Seq<X>,
)
    requires
        k <= ops.len(),
        fusion_related(ops.len(), s1, s2),
    ensures
        ({
            let a = push_all(unfused(ops, f, p), k, s1, ys);
            let b = push_all(fused(ops, f, p), k, s2, ys);
            a.1 == b.1 && a.2 == b.2 && fusion_related(ops.len(), a.0, b.0)
        }),
    decreases ops.len() + 1 - k, 2int, ys.len(),
{
    if ys.len() > 0 {
        lemma_fusion_from(ops, f, p, k, s1, s2, ys[0]);
        let a = push_from(unfused(ops, f, p), k, s1, ys[0]);
        let b = push_from(fused(ops, f, p), k, s2, ys[0]);
        if !a.2 {
            lemma_fusion_all(ops, f, p, k, a.0, b.0, ys.drop_first());
        }
    }
}

/// Running the stages `ops` from states `s` over the inputs `xs`: the final
/// states, the outputs, and whether a stage ended the run.
pub open spec fn ops_run<X, M: Fn(X) -> X, P: Fn(&X) -> bool, E: Fn(X) -> Vec<X>, T: Fn(&X)>(
    ops: Seq<Operation<M, P, E, T>>,
    s: Seq<StageState>,
    xs: Seq<X>,
) -> (Seq<StageState>, Seq<X>, bool)
    decreases xs.len(),
{
    if xs.len() == 0 {
        (s, Seq::empty(), false)
    } else {
        let (s1, o1, h1) = push_from(ops, 0, fitted(s, ops.len()), xs[0]);
        if h1 {
            (s1, o1, true)
        } else {
            let (s2, o2, h2) = ops_run(ops, s1, xs.drop_first());
            (s2, o1 + o2, h2)
        }
    }
}

/// A run of a pipeline is the run of its stages.
proof fn lemma_run_ops<X, M: Fn(X) -> X, P: Fn(&X) -> bool, E: Fn(X) -> Vec<X>, T: Fn(&X)>(
    pl: Pipeline<X, M, P, E, T>,
    s: Seq<StageState>,
    xs: Seq<X>,
)
    ensures
        run(pl, s, xs) == ops_run(pl.ops(), s, xs),
    decreases xs.len(),
{
    if xs.len() > 0 {
        let a = pl.step_spec(s, xs[0]);
        lemma_run_ops(pl, a.0, xs.drop_first());
    }
}

/// Runs of the unfused and the fused stages from related states produce
/// the same outputs and halt alike.
proof fn lemma_fusion_run<X, M: Fn(X) -> X, P: Fn(&X) -> bool, E: Fn(X) -> Vec<X>, T: Fn(&X)>(
    ops: Seq<Operation<M, P, E, T>>,
    f: M,
    p: P,
    s1: Seq<StageState>,
    s2: Seq<StageState>,
    xs: Seq<X>,
)
    requires
        fusion_related(ops.len(), s1, s2),
    ensures
        ops_run(unfused(ops, f, p), s1, xs).1 == ops_run(fused(ops, f, p), s2, xs).1,
        ops_run(unfused(ops, f, p), s1, xs).2 == ops_run(fused(ops, f, p), s2, xs).2,
        fusion_related(
            ops.len(),
            ops_run(unfused(ops, f, p), s1, xs).0,
            ops_run(fused(ops, f, p), s2, xs).0,
        ),
    decreases xs.len(),
{
    if xs.len() > 0 {
        lemma_fusion_from(ops, f, p, 0, s1, s2, xs[0]);
        let a = push_from(unfused(ops, f, p), 0, s1, xs[0]);
        let b = push_from(fused(ops, f, p), 0, s2, xs[0]);
        if !a.2 {
            lemma_fusion_run(ops, f, p, a.0, b.0, xs.drop_first());
        }
    }
}

/// Fusing a filter into the map before it changes nothing that comes out:
/// a pipeline whose stages end in a map `f` and then a filter `p` has the
/// same outputs on every source as one whose stages, the same before, end in
/// the fused map-filter instead.
pub proof fn law_filter_fusion<X, M: Fn(X) -> X, P: Fn(&X) -> bool, E: Fn(X) -> Vec<X>, T: Fn(&X)>(
    p1: Pipeline<X, M, P, E, T>,
    p2: Pipeline<X, M, P, E, T>,
    ops: Seq<Operation<M, P, E, T>>,
    f: M,
    p: P,
    xs: Seq<X>,
)
    requires
        p1.ops() == unfused(ops, f, p),
        p2.ops() == fused(ops, f, p),
    ensures
        outputs(p1, xs) == outputs(p2, xs),
{
    let m = ops.len();
    assert(fresh_states(m + 2).take(m as int) =~= fresh_states(m + 1).take(m as int));
    lemma_run_ops(p1, fresh_states(m + 2), xs);
    lemma_run_ops(p2, fresh_states(m + 1), xs);
    lemma_fusion_run(ops, f, p, fresh_states(m + 2), fresh_states(m + 1), xs);
}

/// The states of the stages `ops` (`s`) and of the same stages with a filter
/// after them (`s2`): they agree on the stages of `ops`.
pub open spec fn filter_related(n: nat, s: Seq<StageState>, s2: Seq<StageState>) -> bool {
    &&& s.len() == n
    &&& s2.len() == n + 1
    &&& s2.take(n as int) == s
}

/// One value sent from stage `k` through `ops` with a filter after them
/// comes out as through `ops`, filtered.
proof fn lemma_appended_from<X, M: Fn(X) -> X, P: Fn(&X) -> bool, E: Fn(X) -> Vec<X>, T: Fn(&X)>(
    ops: Seq<Operation<M, P, E, T>>,
    p: P,
    k: nat,
    s: Seq<StageState>,
    s2: Seq<StageState>,
    x: X,
)
    requires
        k <= ops.len(),
        filter_related(ops.len(), s, s2),
    ensures
        ({
            let a = push_from(ops, k, s, x);
            let b = push_from(ops.push(Operation::Filter(p)), k, s2, x);
            &&& b.1 == a.1.filter(passes(p))
            &&& b.2 == a.2
            &&& filter_related(ops.len(), a.0, b.0)
        }),
    decreases ops.len() + 1 - k, 1int, 0int,
{
    reveal_with_fuel(Seq::filter, 2);
    let o2 = ops.push(Operation::Filter(p));
    let n = ops.len();
    assert forall|i: int| 0 <= i < n implies s2[i] == s[i] by {
        assert(s2.take(n as int)[i] == s2[i]);
    }
    if k < n {
        assert(o2[k as int] == ops[k as int]);
        let (st, ys, stop) = stage_step(ops[k as int], s[k as int], x);
        assert(s2.update(k as int, st).take(n as int) =~= s.update(k as int, st));
        if !stop {
            lemma_appended_all(ops, p, k + 1, s.update(k as int, st), s2.update(k as int, st), ys);
        } else {
            assert(Seq::<X>::empty().filter(passes(p)) =~= Seq::<X>::empty());
        }
    } else {
        assert(o2[n as int] == Operation::<M, P, E, T>::Filter(p));
        assert(s2.update(n as int, s2[n as int]) =~= s2);
        if pred_app(p, x) {
            lemma_push_single(o2, n + 1, s2, x);
        }
        assert(seq![x].filter(passes(p)) == if pred_app(p, x) {
            seq![x]
        } else {
            Seq::<X>::empty()
        }) by {
            assert(seq![x].drop_last() =~= Seq::<X>::empty());
        }
    }
}

/// Values sent one after another from stage `k` through `ops` with a filter
/// after them come out as through `ops`, filtered.
proof fn lemma_appended_all<X, M: Fn(X) -> X, P: Fn(&X) -> bool, E: Fn(X) -> Vec<X>, T: Fn(&X)>(
    ops: Seq<Operation<M, P, E, T>>,
    p: P,
    k: nat,
    s: Seq<StageState>,
    s2: Seq<StageState>,
    ys: Seq<X>,
)
    requires
        k <= ops.len(),
        filter_related(ops.len(), s, s2),
    ensures
        ({
            let a = push_all(ops, k, s, ys);
            let b = push_all(ops.push(Operation::Filter(p)), k, s2, ys);
            &&& b.1 == a.1.filter(passes(p))
            &&& b.2 == a.2
            &&& filter_related(ops.len(), a.0, b.0)
        }),
    decreases ops.len() + 1 - k, 2int, ys.len(),
{
    if ys.len() > 0 {
        lemma_appended_from(ops, p, k, s, s2, ys[0]);
        let a = push_from(ops, k, s, ys[0]);
        let b = push_from(ops.push(Operation::Filter(p)), k, s2, ys[0]);
        if !a.2 {
            lemma_appended_all(ops, p, k, a.0, b.0, ys.drop_first());
            let a2 = push_all(ops, k, a.0, ys.drop_first());
            Seq::<X>::filter_distributes_over_add(a.1, a2.1, passes(p));
        }
    } else {
        assert(Seq::<X>::empty().filter(passes(p)) =~= Seq::<X>::empty());
    }
}

/// Runs of `ops` and of `ops` with a filter after them, from related states.
proof fn lemma_appended_run<X, M: Fn(X) -> X, P: Fn(&X) -> bool, E: Fn(X) -> Vec<X>, T: Fn(&X)>(
    ops: Seq<Operation<M, P, E, T>>,
    p: P,
    s: Seq<StageState>,
    s2: Seq<StageState>,
    xs: Seq<X>,
)
    requires
        filter_related(ops.len(), s, s2),
    ensures
        ({
            let a = ops_run(ops, s, xs);
            let b = ops_run(ops.push(Operation::Filter(p)), s2, xs);
            &&& b.1 == a.1.filter(passes(p))
            &&& b.2 == a.2
            &&& filter_related(ops.len(), a.0, b.0)
        }),
    decreases xs.len(),
{
    if xs.len() > 0 {
        lemma_appended_from(ops, p, 0, s, s2, xs[0]);
        let a = push_from(ops, 0, s, xs[0]);
        let b = push_from(ops.push(Operation::Filter(p)), 0, s2, xs[0]);
        if !a.2 {
            lemma_appended_run(ops, p, a.0, b.0, xs.drop_first());
            let a2 = ops_run(ops, a.0, xs.drop_first());
            Seq::<X>::filter_distributes_over_add(a.1, a2.1, passes(p));
        }
    } else {
        assert(Seq::<X>::empty().filter(passes(p)) =~= Seq::<X>::empty());
    }
}

/// Adding a filter to a pipeline filters what it outputs: `q`, which is `pl`
/// after `filter(pred)` (fused into a trailing map or appended), outputs on
/// every source what `pl` outputs that satisfies `pred`, in order.
pub proof fn law_pipeline_filter<X, M: Fn(X) -> X, P: Fn(&X) -> bool, E: Fn(X) -> Vec<X>, T: Fn(&X)>(
    pl: Pipeline<X, M, P, E, T>,
    q: Pipeline<X, M, P, E, T>,
    pred: P,
    xs: Seq<X>,
)
    requires
        q.ops() == with_filter(pl.ops(), pred),
    ensures
        outputs(q, xs) == outputs(pl, xs).filter(passes(pred)),
{
    let n = pl.ops().len();
    let app = pl.ops().push(Operation::Filter(pred));
    assert(fresh_states(n + 1).take(n as int) =~= fresh_states(n));
    lemma_run_ops(pl, fresh_states(n), xs);
    lemma_run_ops(q, fresh_states(q.ops().len()), xs);
    lemma_appended_run(pl.ops(), pred, fresh_states(n), fresh_states(n + 1), xs);
    if n > 0 && pl.ops().last() is MapWith {
        let ops = pl.ops().drop_last();
        let f = pl.ops().last()->MapWith_0;
        assert(app =~= unfused(ops, f, pred));
        assert(q.ops() =~= fused(ops, f, pred));
        let m = ops.len();
        assert(fresh_states(m + 2).take(m as int) =~= fresh_states(m + 1).take(m as int));
        lemma_fusion_run(ops, f, pred, fresh_states(m + 2), fresh_states(m + 1), xs);
    }
}

/// Running the single stage `op` from state `st` over the values `ys`: its
/// final state, what it passes on, and whether it ended the run.
pub open spec fn stage_run<X, M: Fn(X) -> X, P: Fn(&X) -> bool, E: Fn(X) -> Vec<X>, T: Fn(&X)>(
    op: Operation<M, P, E, T>,
    st: StageState,
    ys: Seq<X>,
) -> (StageState, Seq<X>, bool)
    decreases ys.len(),
{
    if ys.len() == 0 {
        (st, Seq::empty(), false)
    } else {
        let (st1, o1, h1) = stage_step(op, st, ys[0]);
        if h1 {
            (st1, o1, true)
        } else {
            let (st2, o2, h2) = stage_run(op, st1, ys.drop_first());
            (st2, o1 + o2, h2)
        }
    }
}

/// A stage that ends the run passes nothing on.
proof fn lemma_stop_passes_nothing<X, M: Fn(X) -> X, P: Fn(&X) -> bool, E: Fn(X) -> Vec<X>, T: Fn(&X)>(
    op: Operation<M, P, E, T>,
    st: StageState,
    x: X,
)
    ensures
        stage_step(op, st, x).2 ==> stage_step(op, st, x).1 == Seq::<X>::empty(),
{
}

/// Running a stage over `p + q` is running it over `p` and then, unless it
/// ended the run, over `q`.
proof fn lemma_stage_run_append<X, M: Fn(X) -> X, P: Fn(&X) -> bool, E: Fn(X) -> Vec<X>, T: Fn(&X)>(
    op: Operation<M, P, E, T>,
    st: StageState,
    p: Seq<X>,
    q: Seq<X>,
)
    ensures
        stage_run(op, st, p + q) == ({
            let b1 = stage_run(op, st, p);
            if b1.2 {
                b1
            } else {
                let b2 = stage_run(op, b1.0, q);
                (b2.0, b1.1 + b2.1, b2.2)
            }
        }),
    decreases p.len(),
{
    if p.len() == 0 {
        assert(p + q =~= q);
        let b2 = stage_run(op, st, q);
        assert(Seq::<X>::empty() + b2.1 =~= b2.1);
    } else {
        assert((p + q)[0] == p[0]);
        assert((p + q).drop_first() =~= p.drop_first() + q);
        let (st1, o1, h1) = stage_step(op, st, p[0]);
        if !h1 {
            lemma_stage_run_append(op, st1, p.drop_first(), q);
            let b1 = stage_run(op, st1, p.drop_first());
            if !b1.2 {
                let b2 = stage_run(op, b1.0, q);
                assert(o1 + (b1.1 + b2.1) =~= (o1 + b1.1) + b2.1);
            }
        }
    }
}

/// Values sent into the stages after the last pass on as they are.
proof fn lemma_push_all_past_end<X, M: Fn(X) -> X, P: Fn(&X) -> bool, E: Fn(X) -> Vec<X>, T: Fn(&X)>(
    ops: Seq<Operation<M, P, E, T>>,
    s: Seq<StageState>,
    ys: Seq<X>,
)
    ensures
        push_all(ops, ops.len(), s, ys) == (s, ys, false),
    decreases ys.len(),
{
    if ys.len() > 0 {
        lemma_push_all_past_end(ops, s, ys.drop_first());
        assert(push_from(ops, ops.len(), s, ys[0]) == (s, seq![ys[0]], false));
        assert(seq![ys[0]] + ys.drop_first() =~= ys);
    } else {
        assert(ys =~= Seq::<X>::empty());
    }
}

/// One value sent from stage `k` through `ops` followed by `op` comes out as
/// what `op`, from state `st`, makes of what `ops` let through.
proof fn lemma_last_stage_from<X, M: Fn(X) -> X, P: Fn(&X) -> bool, E: Fn(X) -> Vec<X>, T: Fn(&X)>(
    ops: Seq<Operation<M, P, E, T>>,
    op: Operation<M, P, E, T>,
    k: nat,
    s: Seq<StageState>,
    st: StageState,
    x: X,
)
    requires
        k <= ops.len(),
        s.len() == ops.len(),
    ensures
        ({
            let a = push_from(ops, k, s, x);
            let b = stage_run(op, st, a.1);
            let r = push_from(ops.push(op), k, s.push(st), x);
            &&& r.1 == b.1
            &&& r.2 == (a.2 || b.2)
            &&& !b.2 ==> r.0 == a.0.push(b.0)
        }),
    decreases ops.len() + 1 - k, 1int, 0int,
{
    let q = ops.push(op);
    let n = ops.len();
    let s2 = s.push(st);
    if k < n {
        assert(q[k as int] == ops[k as int]);
        assert(s2[k as int] == s[k as int]);
        let (v, ys, stop) = stage_step(ops[k as int], s[k as int], x);
        assert(s2.update(k as int, v) =~= s.update(k as int, v).push(st));
        if !stop {
            lemma_last_stage_all(ops, op, k + 1, s.update(k as int, v), st, ys);
        } else {
            assert(stage_run(op, st, Seq::<X>::empty()) == (st, Seq::<X>::empty(), false));
        }
    } else {
        assert(q[n as int] == op);
        assert(s2[n as int] == st);
        let (v, ys, stop) = stage_step(op, st, x);
        lemma_stop_passes_nothing(op, st, x);
        assert(seq![x][0] == x);
        assert(seq![x].drop_first() =~= Seq::<X>::empty());
        assert(ys + Seq::<X>::empty() =~= ys);
        assert(s2.update(n as int, v) =~= s.push(v));
        assert(push_from(ops, n, s, x) == (s, seq![x], false));
        if !stop {
            lemma_push_all_past_end(q, s.push(v), ys);
            assert(stage_run(op, v, seq![x].drop_first()) == (v, Seq::<X>::empty(), false));
        }
    }
}

/// Values sent one after another from stage `k` through `ops` followed by
/// `op` come out as what `op` makes of what `ops` let through.
proof fn lemma_last_stage_all<X, M: Fn(X) -> X, P: Fn(&X) -> bool, E: Fn(X) -> Vec<X>, T: Fn(&X)>(
    ops: Seq<Operation<M, P, E, T>>,
    op: Operation<M, P, E, T>,
    k: nat,
    s: Seq<StageState>,
    st: StageState,
    ys: Seq<X>,
)
    requires
        k <= ops.len(),
        s.len() == ops.len(),
    ensures
        ({
            let a = push_all(ops, k, s, ys);
            let b = stage_run(op, st, a.1);
            let r = push_all(ops.push(op), k, s.push(st), ys);
            &&& r.1 == b.1
            &&& r.2 == (a.2 || b.2)
            &&& !b.2 ==> r.0 == a.0.push(b.0)
        }),
    decreases ops.len() + 1 - k, 2int, ys.len(),
{
    if ys.len() > 0 {
        let y = ys[0];
        lemma_last_stage_from(ops, op, k, s, st, y);
        lemma_push_len(ops, k, s, y);
        let a1 = push_from(ops, k, s, y);
        let b1 = stage_run(op, st, a1.1);
        if !a1.2 && !b1.2 {
            lemma_last_stage_all(ops, op, k, a1.0, b1.0, ys.drop_first());
            let a2 = push_all(ops, k, a1.0, ys.drop_first());
            lemma_stage_run_append(op, st, a1.1, a2.1);
        } else if !a1.2 {
            let a2 = push_all(ops, k, a1.0, ys.drop_first());
            lemma_stage_run_append(op, st, a1.1, a2.1);
        }
    }
}

/// Runs of `ops` and of `ops` followed by `op`: the longer run outputs what
/// `op` makes of the shorter run's outputs.
proof fn lemma_last_stage_run<X, M: Fn(X) -> X, P: Fn(&X) -> bool, E: Fn(X) -> Vec<X>, T: Fn(&X)>(
    ops: Seq<Operation<M, P, E, T>>,
    op: Operation<M, P, E, T>,
    s: Seq<StageState>,
    st: StageState,
    xs: Seq<X>,
)
    requires
        s.len() == ops.len(),
    ensures
        ({
            let a = ops_run(ops, s, xs);
            let b = stage_run(op, st, a.1);
            let r = ops_run(ops.push(op), s.push(st), xs);
            &&& r.1 == b.1
            &&& r.2 == (a.2 || b.2)
        }),
    decreases xs.len(),
{
    if xs.len() == 0 {
    } else {
        let x = xs[0];
        lemma_last_stage_from(ops, op, 0, s, st, x);
        lemma_push_len(ops, 0, s, x);
        let a1 = push_from(ops, 0, s, x);
        let b1 = stage_run(op, st, a1.1);
        if !a1.2 && !b1.2 {
            lemma_last_stage_run(ops, op, a1.0, b1.0, xs.drop_first());
            let a2 = ops_run(ops, a1.0, xs.drop_first());
            lemma_stage_run_append(op, st, a1.1, a2.1);
        } else if !a1.2 {
            let a2 = ops_run(ops, a1.0, xs.drop_first());
            lemma_stage_run_append(op, st, a1.1, a2.1);
        }
    }
}

/// A pipeline is its stages run one after another: a pipeline `q` whose
/// stages are those of `pl` and then `op` outputs what the stage `op`, from
/// its starting state, makes of what `pl` outputs, and ends the run when
/// `pl` does or `op` does.
pub proof fn law_pipeline_last_stage<X, M: Fn(X) -> X, P: Fn(&X) -> bool, E: Fn(X) -> Vec<X>, T: Fn(&X)>(
    pl: Pipeline<X, M, P, E, T>,
    q: Pipeline<X, M, P, E, T>,
    op: Operation<M, P, E, T>,
    xs: Seq<X>,
)
    requires
        q.ops() == pl.ops().push(op),
    ensures
        outputs(q, xs) == stage_run(op, fresh_stage(), outputs(pl, xs)).1,
        halts(q, xs) == (halts(pl, xs) || stage_run(op, fresh_stage(), outputs(pl, xs)).2),
{
    let n = pl.ops().len();
    assert(fresh_states(n + 1) =~= fresh_states(n).push(fresh_stage()));
    lemma_run_ops(pl, fresh_states(n), xs);
    lemma_run_ops(q, fresh_states(n + 1), xs);
    lemma_last_stage_run(pl.ops(), op, fresh_states(n), fresh_stage(), xs);
}

/// A drop-while stage that has stopped dropping lets every value through.
proof fn lemma_stage_drop_while_passing<X, M: Fn(X) -> X, P: Fn(&X) -> bool, E: Fn(X) -> Vec<X>, T: Fn(&X)>(
    p: P,
    st: StageState,
    ys: Seq<X>,
)
    requires
        !st.dropping,
    ensures
        stage_run(Operation::<M, P, E, T>::DropWhile(p), st, ys).1 == ys,
        !stage_run(Operation::<M, P, E, T>::DropWhile(p), st, ys).2,
    decreases ys.len(),
{
    if ys.len() > 0 {
        let st1 = stage_step(Operation::<M, P, E, T>::DropWhile(p), st, ys[0]).0;
        lemma_stage_drop_while_passing::<X, M, P, E, T>(p, st1, ys.drop_first());
        assert(seq![ys[0]] + ys.drop_first() =~= ys);
    }
}

/// A drop-while stage drops only the leading run of values that satisfy its
/// predicate: once one fails, it and every value after it pass, and the
/// stage never ends the run.
pub proof fn law_stage_drop_while<X, M: Fn(X) -> X, P: Fn(&X) -> bool, E: Fn(X) -> Vec<X>, T: Fn(&X)>(
    p: P,
    st: StageState,
    ys: Seq<X>,
)
    requires
        st.dropping,
    ensures
        stage_run(Operation::<M, P, E, T>::DropWhile(p), st, ys).1 == ys.skip(
            leading(passes(p), ys) as int,
        ),
        !stage_run(Operation::<M, P, E, T>::DropWhile(p), st, ys).2,
    decreases ys.len(),
{
    if ys.len() > 0 {
        let op = Operation::<M, P, E, T>::DropWhile(p);
        let (st1, o1, h1) = stage_step(op, st, ys[0]);
        if pred_app(p, ys[0]) {
            law_stage_drop_while::<X, M, P, E, T>(p, st1, ys.drop_first());
            let r = stage_run(op, st1, ys.drop_first());
            assert(o1 + r.1 =~= r.1);
            assert(passes(p)(ys[0]));
            lemma_leading(passes(p), ys.drop_first());
            assert(leading(passes(p), ys) == 1 + leading(passes(p), ys.drop_first()));
            assert(ys.drop_first().skip(leading(passes(p), ys.drop_first()) as int) =~= ys.skip(
                leading(passes(p), ys) as int,
            ));
        } else {
            lemma_stage_drop_while_passing::<X, M, P, E, T>(p, st1, ys.drop_first());
            assert(!passes(p)(ys[0]));
            assert(seq![ys[0]] + ys.drop_first() =~= ys);
            assert(ys.skip(0) =~= ys);
        }
    } else {
        assert(ys.skip(0) =~= ys);
    }
}

/// A stage that keeps its state and passes on `g` of each value passes on
/// the values `g` gives, in order, and never ends the run.
proof fn lemma_stage_stateless<X, M: Fn(X) -> X, P: Fn(&X) -> bool, E: Fn(X) -> Vec<X>, T: Fn(&X)>(
    op: Operation<M, P, E, T>,
    g: spec_fn(X) -> Seq<X>,
    st: StageState,
    ys: Seq<X>,
)
    requires
        forall|st2: StageState, x: X| #[trigger] stage_step(op, st2, x) == (st2, g(x), false),
    ensures
        stage_run(op, st, ys).1 == ys.map_values(g).flatten(),
        !stage_run(op, st, ys).2,
    decreases ys.len(),
{
    if ys.len() > 0 {
        assert(stage_step(op, st, ys[0]) == (st, g(ys[0]), false));
        lemma_stage_stateless(op, g, st, ys.drop_first());
        assert(ys.map_values(g).drop_first() =~= ys.drop_first().map_values(g));
    } else {
        assert(ys.map_values(g) =~= Seq::<Seq<X>>::empty());
    }
}

/// Flattening single values is mapping.
proof fn lemma_flatten_singles<X>(ys: Seq<X>, h: spec_fn(X) -> X)
    ensures
        ys.map_values(|y: X| seq![h(y)]).flatten() == ys.map_values(h),
    decreases ys.len(),
{
    if ys.len() > 0 {
        lemma_flatten_singles(ys.drop_first(), h);
        assert(ys.map_values(|y: X| seq![h(y)]).drop_first() =~= ys.drop_first().map_values(
            |y: X| seq![h(y)],
        ));
        assert(ys.map_values(h) =~= seq![h(ys[0])] + ys.drop_first().map_values(h));
    } else {
        assert(ys.map_values(|y: X| seq![h(y)]) =~= Seq::<Seq<X>>::empty());
        assert(ys.map_values(h) =~= Seq::<X>::empty());
    }
}

/// Flattening each value or nothing, as `q` says, is filtering by `q`.
proof fn lemma_flatten_kept<X>(ys: Seq<X>, q: spec_fn(X) -> bool)
    ensures
        ys.map_values(
            |y: X|
                if q(y) {
                    seq![y]
                } else {
                    Seq::empty()
                },
        ).flatten() == ys.filter(q),
    decreases ys.len(),
{
    reveal_with_fuel(Seq::filter, 1);
    let g = |y: X|
        if q(y) {
            seq![y]
        } else {
            Seq::<X>::empty()
        };
    if ys.len() > 0 {
        lemma_flatten_kept(ys.drop_first(), q);
        assert(ys.map_values(g).drop_first() =~= ys.drop_first().map_values(g));
        assert(ys =~= seq![ys[0]] + ys.drop_first());
        ys.drop_first().lemma_filter_prepend(ys[0], q);
    } else {
        assert(ys.map_values(g) =~= Seq::<Seq<X>>::empty());
        assert(ys.filter(q) =~= Seq::<X>::empty());
    }
}

/// A map stage passes on `f` of each value, in order.
pub proof fn law_stage_map<X, M: Fn(X) -> X, P: Fn(&X) -> bool, E: Fn(X) -> Vec<X>, T: Fn(&X)>(
    f: M,
    st: StageState,
    ys: Seq<X>,
)
    ensures
        stage_run(Operation::<M, P, E, T>::MapWith(f), st, ys).1 == ys.map_values(
            |y: X| fn1_app(f, y),
        ),
        !stage_run(Operation::<M, P, E, T>::MapWith(f), st, ys).2,
{
    lemma_stage_stateless(Operation::<M, P, E, T>::MapWith(f), |y: X| seq![fn1_app(f, y)], st, ys);
    lemma_flatten_singles(ys, |y: X| fn1_app(f, y));
    assert((|y: X| seq![(|z: X| fn1_app(f, z))(y)]) =~= (|y: X| seq![fn1_app(f, y)]));
}

/// A filter stage passes on the values that satisfy its predicate, in
/// order.
pub proof fn law_stage_filter<X, M: Fn(X) -> X, P: Fn(&X) -> bool, E: Fn(X) -> Vec<X>, T: Fn(&X)>(
    p: P,
    st: StageState,
    ys: Seq<X>,
)
    ensures
        stage_run(Operation::<M, P, E, T>::Filter(p), st, ys).1 == ys.filter(passes(p)),
        !stage_run(Operation::<M, P, E, T>::Filter(p), st, ys).2,
{
    let g = |y: X|
        if passes(p)(y) {
            seq![y]
        } else {
            Seq::<X>::empty()
        };
    lemma_stage_stateless(Operation::<M, P, E, T>::Filter(p), g, st, ys);
    lemma_flatten_kept(ys, passes(p));
}

/// A fused map-filter stage passes on, in order, `f` of each value when it
/// satisfies the predicate.
pub proof fn law_stage_map_filter<X, M: Fn(X) -> X, P: Fn(&X) -> bool, E: Fn(X) -> Vec<X>, T: Fn(&X)>(
    f: M,
    p: P,
    st: StageState,
    ys: Seq<X>,
)
    ensures
        stage_run(Operation::<M, P, E, T>::MapFilter(f, p), st, ys).1 == ys.map_values(
            |y: X| fn1_app(f, y),
        ).filter(passes(p)),
        !stage_run(Operation::<M, P, E, T>::MapFilter(f, p), st, ys).2,
{
    let h = |y: X| fn1_app(f, y);
    let g = |y: X|
        if passes(p)(h(y)) {
            seq![h(y)]
        } else {
            Seq::<X>::empty()
        };
    lemma_stage_stateless(Operation::<M, P, E, T>::MapFilter(f, p), g, st, ys);
    let g2 = |z: X|
        if passes(p)(z) {
            seq![z]
        } else {
            Seq::<X>::empty()
        };
    lemma_flatten_kept(ys.map_values(h), passes(p));
    assert(ys.map_values(g) =~= ys.map_values(h).map_values(g2));
}

/// A flat-map stage passes on, in order, everything its function returns
/// for each value.
pub proof fn law_stage_flat_map<X, M: Fn(X) -> X, P: Fn(&X) -> bool, E: Fn(X) -> Vec<X>, T: Fn(&X)>(
    f: E,
    st: StageState,
    ys: Seq<X>,
)
    ensures
        stage_run(Operation::<M, P, E, T>::FlatMap(f), st, ys).1 == ys.map_values(
            |y: X| fn1_app(f, y)@,
        ).flatten(),
        !stage_run(Operation::<M, P, E, T>::FlatMap(f), st, ys).2,
{
    lemma_stage_stateless(Operation::<M, P, E, T>::FlatMap(f), |y: X| fn1_app(f, y)@, st, ys);
}

/// A tap stage passes every value on unchanged.
pub proof fn law_stage_tap<X, M: Fn(X) -> X, P: Fn(&X) -> bool, E: Fn(X) -> Vec<X>, T: Fn(&X)>(
    t: T,
    st: StageState,
    ys: Seq<X>,
)
    ensures
        stage_run(Operation::<M, P, E, T>::Tap(t), st, ys).1 == ys,
        !stage_run(Operation::<M, P, E, T>::Tap(t), st, ys).2,
{
    lemma_stage_stateless(Operation::<M, P, E, T>::Tap(t), |y: X| seq![y], st, ys);
    lemma_flatten_singles(ys, |y: X| y);
    assert(ys.map_values(|y: X| y) =~= ys);
    assert((|y: X| seq![(|z: X| z)(y)]) =~= (|y: X| seq![y]));
}

/// A take stage that has let `c` values through, `c` at most its limit `n`,
/// lets the next `n - c` through and ends the run at the value after them.
pub proof fn law_stage_take<X, M: Fn(X) -> X, P: Fn(&X) -> bool, E: Fn(X) -> Vec<X>, T: Fn(&X)>(
    n: usize,
    st: StageState,
    ys: Seq<X>,
)
    requires
        st.count <= n,
    ensures
        stage_run(Operation::<M, P, E, T>::Take(n), st, ys).1 == ys.take(
            if n - st.count < ys.len() {
                n - st.count
            } else {
                ys.len() as int
            },
        ),
        stage_run(Operation::<M, P, E, T>::Take(n), st, ys).2 == (ys.len() > n - st.count),
    decreases ys.len(),
{
    let op = Operation::<M, P, E, T>::Take(n);
    if ys.len() > 0 {
        let (st1, o1, h1) = stage_step(op, st, ys[0]);
        if st.count < n {
            law_stage_take::<X, M, P, E, T>(n, st1, ys.drop_first());
            let r = stage_run(op, st1, ys.drop_first());
            let k = if n - st.count < ys.len() {
                n - st.count
            } else {
                ys.len() as int
            };
            assert(o1 + r.1 =~= ys.take(k));
        } else {
            assert(ys.take(0) =~= Seq::<X>::empty());
        }
    } else {
        assert(ys.take(0) =~= Seq::<X>::empty());
    }
}

/// A take-while stage lets through the leading values that satisfy its
/// predicate and ends the run at the first that does not.
pub proof fn law_stage_take_while<X, M: Fn(X) -> X, P: Fn(&X) -> bool, E: Fn(X) -> Vec<X>, T: Fn(&X)>(
    p: P,
    st: StageState,
    ys: Seq<X>,
)
    ensures
        stage_run(Operation::<M, P, E, T>::TakeWhile(p), st, ys).1 == ys.take(
            leading(passes(p), ys) as int,
        ),
        stage_run(Operation::<M, P, E, T>::TakeWhile(p), st, ys).2 == (leading(passes(p), ys)
            < ys.len()),
    decreases ys.len(),
{
    let op = Operation::<M, P, E, T>::TakeWhile(p);
    lemma_leading(passes(p), ys);
    if ys.len() > 0 {
        let (st1, o1, h1) = stage_step(op, st, ys[0]);
        if pred_app(p, ys[0]) {
            assert(passes(p)(ys[0]));
            law_stage_take_while::<X, M, P, E, T>(p, st1, ys.drop_first());
            lemma_leading(passes(p), ys.drop_first());
            let r = stage_run(op, st1, ys.drop_first());
            assert(leading(passes(p), ys) == 1 + leading(passes(p), ys.drop_first()));
            assert(o1 + r.1 =~= ys.take(leading(passes(p), ys) as int));
        } else {
            assert(!passes(p)(ys[0]));
            assert(ys.take(0) =~= Seq::<X>::empty());
        }
    } else {
        assert(ys.take(0) =~= Seq::<X>::empty());
    }
}

/// A drop stage that has held back `c` values, `c` at most its limit `n`,
/// holds back the next `n - c` and lets the rest through.
pub proof fn law_stage_drop<X, M: Fn(X) -> X, P: Fn(&X) -> bool, E: Fn(X) -> Vec<X>, T: Fn(&X)>(
    n: usize,
    st: StageState,
    ys: Seq<X>,
)
    requires
        st.count <= n,
    ensures
        stage_run(Operation::<M, P, E, T>::Drop(n), st, ys).1 == ys.skip(
            if n - st.count < ys.len() {
                n - st.count
            } else {
                ys.len() as int
            },
        ),
        !stage_run(Operation::<M, P, E, T>::Drop(n), st, ys).2,
    decreases ys.len(),
{
    let op = Operation::<M, P, E, T>::Drop(n);
    if ys.len() > 0 {
        let (st1, o1, h1) = stage_step(op, st, ys[0]);
        law_stage_drop::<X, M, P, E, T>(n, st1, ys.drop_first());
        let r = stage_run(op, st1, ys.drop_first());
        if st.count < n {
            assert(o1 + r.1 =~= r.1);
            let k = if n - st.count < ys.len() {
                n - st.count
            } else {
                ys.len() as int
            };
            assert(r.1 =~= ys.skip(k));
        } else {
            assert(o1 + r.1 =~= ys);
            assert(ys.skip(0) =~= ys);
        }
    } else {
        assert(ys.skip(0) =~= ys);
    }
}

/// Adding a take-while stage to a pipeline keeps, of what the pipeline
/// outputs, the leading values that satisfy the predicate, and ends the run
/// at the first output that does not.
pub proof fn law_pipeline_take_while<X, M: Fn(X) -> X, P: Fn(&X) -> bool, E: Fn(X) -> Vec<X>, T: Fn(&X)>(
    pl: Pipeline<X, M, P, E, T>,
    q: Pipeline<X, M, P, E, T>,
    p: P,
    xs: Seq<X>,
)
    requires
        q.ops() == pl.ops().push(Operation::TakeWhile(p)),
    ensures
        outputs(q, xs) == outputs(pl, xs).take(leading(passes(p), outputs(pl, xs)) as int),
        halts(q, xs) == (halts(pl, xs) || leading(passes(p), outputs(pl, xs)) < outputs(
            pl,
            xs,
        ).len()),
{
    law_pipeline_last_stage(pl, q, Operation::TakeWhile(p), xs);
    law_stage_take_while::<X, M, P, E, T>(p, fresh_stage(), outputs(pl, xs));
}

/// Adding a take stage with limit `n` to a pipeline keeps the first `n` of
/// what it outputs, and ends the run when it outputs more.
pub proof fn law_pipeline_take<X, M: Fn(X) -> X, P: Fn(&X) -> bool, E: Fn(X) -> Vec<X>, T: Fn(&X)>(
    pl: Pipeline<X, M, P, E, T>,
    q: Pipeline<X, M, P, E, T>,
    n: usize,
    xs: Seq<X>,
)
    requires
        q.ops() == pl.ops().push(Operation::Take(n)),
    ensures
        outputs(q, xs) == outputs(pl, xs).take(
            if n < outputs(pl, xs).len() {
                n as int
            } else {
                outputs(pl, xs).len() as int
            },
        ),
        halts(q, xs) == (halts(pl, xs) || outputs(pl, xs).len() > n),
{
    law_pipeline_last_stage(pl, q, Operation::Take(n), xs);
    law_stage_take::<X, M, P, E, T>(n, fresh_stage(), outputs(pl, xs));
}

/// Adding a drop stage with limit `n` to a pipeline drops the first `n` of
/// what it outputs.
pub proof fn law_pipeline_drop<X, M: Fn(X) -> X, P: Fn(&X) -> bool, E: Fn(X) -> Vec<X>, T: Fn(&X)>(
    pl: Pipeline<X, M, P, E, T>,
    q: Pipeline<X, M, P, E, T>,
    n: usize,
    xs: Seq<X>,
)
    requires
        q.ops() == pl.ops().push(Operation::Drop(n)),
    ensures
        outputs(q, xs) == outputs(pl, xs).skip(
            if n < outputs(pl, xs).len() {
                n as int
            } else {
                outputs(pl, xs).len() as int
            },
        ),
        halts(q, xs) == halts(pl, xs),
{
    law_pipeline_last_stage(pl, q, Operation::Drop(n), xs);
    law_stage_drop::<X, M, P, E, T>(n, fresh_stage(), outputs(pl, xs));
}

/// Adding a drop-while stage to a pipeline drops the leading outputs that
/// satisfy the predicate and keeps every output from the first that fails it.
pub proof fn law_pipeline_drop_while<X, M: Fn(X) -> X, P: Fn(&X) -> bool, E: Fn(X) -> Vec<X>, T: Fn(&X)>(
    pl: Pipeline<X, M, P, E, T>,
    q: Pipeline<X, M, P, E, T>,
    p: P,
    xs: Seq<X>,
)
    requires
        q.ops() == pl.ops().push(Operation::DropWhile(p)),
    ensures
        outputs(q, xs) == outputs(pl, xs).skip(leading(passes(p), outputs(pl, xs)) as int),
        halts(q, xs) == halts(pl, xs),
{
    law_pipeline_last_stage(pl, q, Operation::DropWhile(p), xs);
    law_stage_drop_while::<X, M, P, E, T>(p, fresh_stage(), outputs(pl, xs));
}

/// Adding a map stage to a pipeline maps what it outputs.
pub proof fn law_pipeline_map<X, M: Fn(X) -> X, P: Fn(&X) -> bool, E: Fn(X) -> Vec<X>, T: Fn(&X)>(
    pl: Pipeline<X, M, P, E, T>,
    q: Pipeline<X, M, P, E, T>,
    f: M,
    xs: Seq<X>,
)
    requires
        q.ops() == pl.ops().push(Operation::MapWith(f)),
    ensures
        outputs(q, xs) == outputs(pl, xs).map_values(|y: X| fn1_app(f, y)),
        halts(q, xs) == halts(pl, xs),
{
    law_pipeline_last_stage(pl, q, Operation::MapWith(f), xs);
    law_stage_map::<X, M, P, E, T>(f, fresh_stage(), outputs(pl, xs));
}

/// Adding a flat-map stage to a pipeline replaces each of its outputs by what
/// the function returns for it.
pub proof fn law_pipeline_flat_map<X, M: Fn(X) -> X, P: Fn(&X) -> bool, E: Fn(X) -> Vec<X>, T: Fn(&X)>(
    pl: Pipeline<X, M, P, E, T>,
    q: Pipeline<X, M, P, E, T>,
    f: E,
    xs: Seq<X>,
)
    requires
        q.ops() == pl.ops().push(Operation::FlatMap(f)),
    ensures
        outputs(q, xs) == outputs(pl, xs).map_values(|y: X| fn1_app(f, y)@).flatten(),
        halts(q, xs) == halts(pl, xs),
{
    law_pipeline_last_stage(pl, q, Operation::FlatMap(f), xs);
    law_stage_flat_map::<X, M, P, E, T>(f, fresh_stage(), outputs(pl, xs));
}

/// Adding a tap stage to a pipeline changes nothing that it outputs.
pub proof fn law_pipeline_tap<X, M: Fn(X) -> X, P: Fn(&X) -> bool, E: Fn(X) -> Vec<X>, T: Fn(&X)>(
    pl: Pipeline<X, M, P, E, T>,
    q: Pipeline<X, M, P, E, T>,
    t: T,
    xs: Seq<X>,
)
    requires
        q.ops() == pl.ops().push(Operation::Tap(t)),
    ensures
        outputs(q, xs) == outputs(pl, xs),
        halts(q, xs) == halts(pl, xs),
{
    law_pipeline_last_stage(pl, q, Operation::Tap(t), xs);
    law_stage_tap::<X, M, P, E, T>(t, fresh_stage(), outputs(pl, xs));
}

/// A run of no stages outputs its inputs.
proof fn lemma_no_stages_run<X, M: Fn(X) -> X, P: Fn(&X) -> bool, E: Fn(X) -> Vec<X>, T: Fn(&X)>(
    ops: Seq<Operation<M, P, E, T>>,
    s: Seq<StageState>,
    xs: Seq<X>,
)
    requires
        ops.len() == 0,
    ensures
        ops_run(ops, s, xs).1 == xs,
        !ops_run(ops, s, xs).2,
    decreases xs.len(),
{
    if xs.len() > 0 {
        let s0 = fitted(s, 0);
        assert(push_from(ops, 0, s0, xs[0]) == (s0, seq![xs[0]], false));
        lemma_no_stages_run(ops, s0, xs.drop_first());
        assert(seq![xs[0]] + xs.drop_first() =~= xs);
    }
}

/// A pipeline without stages outputs its inputs unchanged and never ends
/// the run early.
pub proof fn law_pipeline_empty<X, M: Fn(X) -> X, P: Fn(&X) -> bool, E: Fn(X) -> Vec<X>, T: Fn(&X)>(
    pl: Pipeline<X, M, P, E, T>,
    xs: Seq<X>,
)
    requires
        pl.ops().len() == 0,
    ensures
        outputs(pl, xs) == xs,
        !halts(pl, xs),
{
    lemma_run_ops(pl, fresh_states(0), xs);
    lemma_no_stages_run(pl.ops(), fresh_states(0), xs);
}

} // verus!
