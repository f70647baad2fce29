//! Terminal operations: collectors that run a transducer over a source and
//! turn its outputs into a result.
//!
//! Every collector here is specified over `outputs(t, source)`, the outputs of
//! a fresh run of the transducer over the whole source. Collectors that can
//! answer early (`first`, `find`, `every`, `some`, `none`, `contains`, and
//! `reduce` with a stopping reducer) stop pulling inputs as soon as the answer
//! is known.

use crate::fnspec::{
    clone_faithful, fn2_det, fn2_total, pred_app, pred_det, pred_total, ref_fn_app, ref_fn_det,
    ref_fn_total,
};
use crate::laws::{chunk_run, chunks_of, law_chunk_outputs, lemma_chunk_run_push};
use crate::numeric::Numeric;
use crate::transforms::Chunk;
use crate::step::Step;
use crate::transducer::{is_prefix, lemma_pop_reverse, outputs, reduce_outs, reduce_vec, reversed, Run, Transducer};
pub use crate::combine::{
    cartesian_product, cycle, difference, intersection, merge, range, repeat, symmetric_difference,
    unfold, union, zip, zip_longest, zip_with,
};
pub use crate::ranking::{max, max_by, min, min_by, sort_by, sort_with, top_k};
pub use crate::sampling::reservoir_sample;
use std::collections::HashMap;
use std::hash::Hash;
use vstd::laws_eq::obeys_concrete_eq;
use vstd::prelude::*;
use vstd::std_specs::hash::obeys_key_model;

verus! {

broadcast use vstd::std_specs::hash::group_hash_axioms, vstd::seq_lib::group_seq_properties;

/// A prefix of a sequence followed by the rest of it is the sequence.
pub proof fn lemma_prefix_split<A>(p: Seq<A>, s: Seq<A>)
    requires
        is_prefix(p, s),
    ensures
        s == p + s.skip(p.len() as int),
{
    assert(s =~= s.take(p.len() as int) + s.skip(p.len() as int));
}

/// Reducing a concatenation reduces the first part and then, unless the
/// reducer stopped, the second part from where the first left off.
pub proof fn lemma_reduce_outs_append<Acc, Out, R: Fn(Acc, Out) -> Step<Acc>>(
    r: R,
    acc: Acc,
    xs: Seq<Out>,
    ys: Seq<Out>,
)
    ensures
        reduce_outs(r, acc, xs + ys) == match reduce_outs(r, acc, xs) {
            Step::Stop(v) => Step::Stop(v),
            Step::Continue(v) => reduce_outs(r, v, ys),
        },
    decreases xs.len(),
{
    if xs.len() == 0 {
        assert(xs + ys =~= ys);
    } else {
        assert((xs + ys).drop_first() =~= xs.drop_first() + ys);
        assert((xs + ys)[0] == xs[0]);
        match crate::fnspec::fn2_app(r, acc, xs[0]) {
            Step::Stop(v) => {},
            Step::Continue(v) => {
                lemma_reduce_outs_append(r, v, xs.drop_first(), ys);
            },
        }
    }
}

/// Execute a transducer over a source and collect its outputs into a vector.
pub fn to_vec<T, U, X: Transducer<T, U>>(transducer: &X, source: Vec<T>) -> (r: Vec<U>)
    requires
        transducer.callable(),
    ensures
        transducer.lawful() ==> r@ == outputs(*transducer, source@),
{
    let ghost src = source@;
    let mut run = Run::new(transducer, source);
    let mut result: Vec<U> = Vec::new();
    loop
        invariant
            run.inv(),
            run.transducer() == *transducer,
            run.source() == src,
            src == source@,
            result@ == run.produced(),
        decreases run.remaining(),
    {
        match run.next_batch() {
            Some(batch) => {
                let mut batch = batch;
                result.append(&mut batch);
            },
            None => {
                return result;
            },
        }
    }
}

/// Reduce the outputs with a custom reducer, starting from `initial`; the
/// reduction ends early when the reducer stops.
pub fn reduce<T, U, Acc, X: Transducer<T, U>, R: Fn(Acc, U) -> Step<Acc>>(
    transducer: &X,
    source: Vec<T>,
    initial: Acc,
    reducer: R,
) -> (r: Acc)
    requires
        transducer.callable(),
        fn2_total(reducer),
    ensures
        transducer.lawful() && fn2_det(reducer) ==> r == reduce_outs(
            reducer,
            initial,
            outputs(*transducer, source@),
        ).value(),
{
    let ghost src = source@;
    let ghost init = initial;
    let mut run = Run::new(transducer, source);
    let mut acc = initial;
    loop
        invariant
            run.inv(),
            run.transducer() == *transducer,
            run.source() == src,
            src == source@,
            fn2_total(reducer),
            init == initial,
            transducer.lawful() && fn2_det(reducer) ==> reduce_outs(reducer, init, run.produced())
                == Step::Continue(acc),
        decreases run.remaining(),
    {
        let ghost before = run.produced();
        match run.next_batch() {
            Some(batch) => {
                let ghost b = batch@;
                match reduce_vec(&reducer, acc, batch) {
                    Step::Stop(v) => {
                        proof {
                            if transducer.lawful() && fn2_det(reducer) {
                                lemma_reduce_outs_append(reducer, init, before, b);
                                run.lemma_produced_prefix();
                                let outs = outputs(*transducer, src);
                                lemma_prefix_split(run.produced(), outs);
                                lemma_reduce_outs_append(
                                    reducer,
                                    init,
                                    run.produced(),
                                    outs.skip(run.produced().len() as int),
                                );
                            }
                        }
                        return v;
                    },
                    Step::Continue(v) => {
                        proof {
                            if transducer.lawful() && fn2_det(reducer) {
                                lemma_reduce_outs_append(reducer, init, before, b);
                            }
                        }
                        acc = v;
                    },
                }
            },
            None => {
                return acc;
            },
        }
    }
}

/// Count the outputs.
pub fn count<T, U, X: Transducer<T, U>>(transducer: &X, source: Vec<T>) -> (r: usize)
    requires
        transducer.callable(),
    ensures
        transducer.lawful() ==> r == outputs(*transducer, source@).len(),
{
    let all = to_vec(transducer, source);
    all.len()
}

/// The first output, if any (the run stops as soon as it is known).
pub fn first<T, U, X: Transducer<T, U>>(transducer: &X, source: Vec<T>) -> (r: Option<U>)
    requires
        transducer.callable(),
    ensures
        transducer.lawful() ==> r == {
            let outs = outputs(*transducer, source@);
            if outs.len() == 0 {
                None
            } else {
                Some(outs[0])
            }
        },
{
    let ghost src = source@;
    let mut run = Run::new(transducer, source);
    loop
        invariant
            run.inv(),
            run.transducer() == *transducer,
            run.source() == src,
            src == source@,
            run.produced().len() == 0,
        decreases run.remaining(),
    {
        match run.next_batch() {
            Some(batch) => {
                if batch.len() > 0 {
                    let mut batch = batch;
                    let ghost b = batch@;
                    proof {
                        if transducer.lawful() {
                            run.lemma_produced_prefix();
                            assert(run.produced() =~= b);
                            assert(outputs(*transducer, src)[0] == run.produced()[0]);
                        }
                    }
                    let x = batch.swap_remove(0);
                    return Some(x);
                }
                proof {
                    assert(run.produced().len() == 0);
                }
            },
            None => {
                return None;
            },
        }
    }
}

/// The last output, if any.
pub fn last<T, U, X: Transducer<T, U>>(transducer: &X, source: Vec<T>) -> (r: Option<U>)
    requires
        transducer.callable(),
    ensures
        transducer.lawful() ==> r == {
            let outs = outputs(*transducer, source@);
            if outs.len() == 0 {
                None
            } else {
                Some(outs.last())
            }
        },
{
    let mut all = to_vec(transducer, source);
    all.pop()
}

/// The first element of `s` on which `p` answers `want`.
pub open spec fn first_answering<U, P: Fn(&U) -> bool>(s: Seq<U>, p: P, want: bool) -> Option<U>
    decreases s.len(),
{
    if s.len() == 0 {
        None
    } else if pred_app(p, s[0]) == want {
        Some(s[0])
    } else {
        first_answering(s.drop_first(), p, want)
    }
}

/// Searching a concatenation searches the first part, then the second.
pub proof fn lemma_first_answering_append<U, P: Fn(&U) -> bool>(
    xs: Seq<U>,
    ys: Seq<U>,
    p: P,
    want: bool,
)
    ensures
        first_answering(xs + ys, p, want) == match first_answering(xs, p, want) {
            Some(v) => Some(v),
            None => first_answering(ys, p, want),
        },
    decreases xs.len(),
{
    if xs.len() == 0 {
        assert(xs + ys =~= ys);
    } else {
        assert((xs + ys).drop_first() =~= xs.drop_first() + ys);
        assert((xs + ys)[0] == xs[0]);
        lemma_first_answering_append(xs.drop_first(), ys, p, want);
    }
}

/// The search finds nothing exactly when no element gives the wanted answer.
pub proof fn lemma_first_answering_none<U, P: Fn(&U) -> bool>(s: Seq<U>, p: P, want: bool)
    ensures
        first_answering(s, p, want) is None <==> forall|i: int|
            0 <= i < s.len() ==> #[trigger] pred_app(p, s[i]) != want,
    decreases s.len(),
{
    if s.len() > 0 {
        lemma_first_answering_none(s.drop_first(), p, want);
        if first_answering(s, p, want) is None {
            assert forall|i: int| 0 <= i < s.len() implies #[trigger] pred_app(p, s[i]) != want by {
                if i > 0 {
                    assert(s[i] == s.drop_first()[i - 1]);
                }
            }
        } else if pred_app(p, s[0]) != want {
            let j = choose|j: int|
                0 <= j < s.drop_first().len() && #[trigger] pred_app(p, s.drop_first()[j]) == want;
            assert(s[j + 1] == s.drop_first()[j]);
        }
    }
}

/// `p` answered `b` on `x`; under determinism that is its answer.
proof fn lemma_pred_answer<U, P: Fn(&U) -> bool>(p: P, x: U, b: bool)
    requires
        pred_det(p),
        call_ensures(p, (&x,), b),
    ensures
        pred_app(p, x) == b,
{
    if !b {
        if call_ensures(p, (&x,), true) {
            assert(false);
        }
    }
}

/// The first element of `batch` on which `p` answers `want`.
pub(crate) fn search_vec<U, P: Fn(&U) -> bool>(batch: Vec<U>, p: &P, want: bool) -> (r: Option<U>)
    requires
        pred_total(*p),
    ensures
        pred_det(*p) ==> r == first_answering(batch@, *p, want),
{
    let ghost b0 = batch@;
    let mut rev = reversed(batch);
    assert(rev@.reverse() =~= b0);
    while rev.len() > 0
        invariant
            pred_total(*p),
            b0 == batch@,
            pred_det(*p) ==> first_answering(b0, *p, want) == first_answering(
                rev@.reverse(),
                *p,
                want,
            ),
        decreases rev.len(),
    {
        let ghost before = rev@;
        let x = rev.pop().unwrap();
        let ghost rest = rev@.reverse();
        proof {
            lemma_pop_reverse(before);
            let whole = seq![x] + rest;
            assert(whole[0] == x);
            assert(whole.drop_first() =~= rest);
        }
        let b = p(&x);
        proof {
            if pred_det(*p) {
                lemma_pred_answer(*p, x, b);
            }
        }
        if b == want {
            return Some(x);
        }
    }
    assert(rev@.reverse() =~= Seq::<U>::empty());
    None
}

/// The first output on which `p` answers `want`; the run stops there.
fn search<T, U, X: Transducer<T, U>, P: Fn(&U) -> bool>(
    transducer: &X,
    source: Vec<T>,
    p: &P,
    want: bool,
) -> (r: Option<U>)
    requires
        transducer.callable(),
        pred_total(*p),
    ensures
        transducer.lawful() && pred_det(*p) ==> r == first_answering(
            outputs(*transducer, source@),
            *p,
            want,
        ),
{
    let ghost src = source@;
    let mut run = Run::new(transducer, source);
    loop
        invariant
            run.inv(),
            run.transducer() == *transducer,
            run.source() == src,
            src == source@,
            pred_total(*p),
            transducer.lawful() && pred_det(*p) ==> first_answering(run.produced(), *p, want)
                is None,
        decreases run.remaining(),
    {
        let ghost before = run.produced();
        match run.next_batch() {
            Some(batch) => {
                let ghost b = batch@;
                let found = search_vec(batch, p, want);
                proof {
                    if transducer.lawful() && pred_det(*p) {
                        lemma_first_answering_append(before, b, *p, want);
                    }
                }
                if found.is_some() {
                    proof {
                        if transducer.lawful() && pred_det(*p) {
                            run.lemma_produced_prefix();
                            let outs = outputs(*transducer, src);
                            lemma_prefix_split(run.produced(), outs);
                            lemma_first_answering_append(
                                run.produced(),
                                outs.skip(run.produced().len() as int),
                                *p,
                                want,
                            );
                        }
                    }
                    return found;
                }
            },
            None => {
                return None;
            },
        }
    }
}

/// Find the first output that satisfies a predicate; the run stops there.
pub fn find<T, U, X: Transducer<T, U>, P: Fn(&U) -> bool>(
    transducer: &X,
    source: Vec<T>,
    predicate: P,
) -> (r: Option<U>)
    requires
        transducer.callable(),
        pred_total(predicate),
    ensures
        transducer.lawful() && pred_det(predicate) ==> r == first_answering(
            outputs(*transducer, source@),
            predicate,
            true,
        ),
{
    search(transducer, source, &predicate, true)
}

/// Test whether every output satisfies a predicate (stops at the first that
/// does not).
pub fn every<T, U, X: Transducer<T, U>, P: Fn(&U) -> bool>(
    transducer: &X,
    source: Vec<T>,
    predicate: P,
) -> (r: bool)
    requires
        transducer.callable(),
        pred_total(predicate),
    ensures
        transducer.lawful() && pred_det(predicate) ==> r == forall|i: int|
            0 <= i < outputs(*transducer, source@).len() ==> #[trigger] pred_app(
                predicate,
                outputs(*transducer, source@)[i],
            ),
{
    let ghost src = source@;
    let found = search(transducer, source, &predicate, false);
    proof {
        lemma_first_answering_none(outputs(*transducer, src), predicate, false);
    }
    found.is_none()
}

/// Test whether some output satisfies a predicate (stops at the first that
/// does).
pub fn some<T, U, X: Transducer<T, U>, P: Fn(&U) -> bool>(
    transducer: &X,
    source: Vec<T>,
    predicate: P,
) -> (r: bool)
    requires
        transducer.callable(),
        pred_total(predicate),
    ensures
        transducer.lawful() && pred_det(predicate) ==> r == exists|i: int|
            0 <= i < outputs(*transducer, source@).len() && #[trigger] pred_app(
                predicate,
                outputs(*transducer, source@)[i],
            ),
{
    let ghost src = source@;
    let found = search(transducer, source, &predicate, true);
    proof {
        lemma_first_answering_none(outputs(*transducer, src), predicate, true);
    }
    found.is_some()
}

/// Test whether no output satisfies a predicate (the inverse of `some`).
pub fn none<T, U, X: Transducer<T, U>, P: Fn(&U) -> bool>(
    transducer: &X,
    source: Vec<T>,
    predicate: P,
) -> (r: bool)
    requires
        transducer.callable(),
        pred_total(predicate),
    ensures
        transducer.lawful() && pred_det(predicate) ==> r == !exists|i: int|
            0 <= i < outputs(*transducer, source@).len() && #[trigger] pred_app(
                predicate,
                outputs(*transducer, source@)[i],
            ),
{
    let ghost src = source@;
    let found = search(transducer, source, &predicate, true);
    proof {
        lemma_first_answering_none(outputs(*transducer, src), predicate, true);
    }
    found.is_none()
}


/// Taking the last element of `before` (a reversed remainder) moves the first
/// remaining element onto what was consumed.
pub proof fn lemma_consume<A>(done: Seq<A>, before: Seq<A>, x: A)
    requires
        before.len() > 0,
        x == before.last(),
    ensures
        done.push(x) + before.drop_last().reverse() == done + before.reverse(),
{
    lemma_pop_reverse(before);
    assert(done.push(x) + before.drop_last().reverse() =~= done + before.reverse());
}

/// Whether the outputs contain `value` (the run stops as soon as it is found).
pub fn contains<T, U: PartialEq, X: Transducer<T, U>>(
    transducer: &X,
    source: Vec<T>,
    value: &U,
) -> (r: bool)
    requires
        transducer.callable(),
    ensures
        transducer.lawful() && obeys_concrete_eq::<U>() ==> r == outputs(
            *transducer,
            source@,
        ).contains(*value),
{
    let ghost src = source@;
    let mut run = Run::new(transducer, source);
    proof {
        reveal(obeys_concrete_eq);
    }
    loop
        invariant
            run.inv(),
            run.transducer() == *transducer,
            run.source() == src,
            src == source@,
            transducer.lawful() && obeys_concrete_eq::<U>() ==> !run.produced().contains(*value),
        decreases run.remaining(),
    {
        let ghost before = run.produced();
        match run.next_batch() {
            Some(batch) => {
                let ghost b = batch@;
                assert(run.produced() == before + b);
                let mut i: usize = 0;
                while i < batch.len()
                    invariant
                        i <= batch.len(),
                        batch@ == b,
                        run.inv(),
                        run.transducer() == *transducer,
                        run.source() == src,
                        src == source@,
                        run.produced() == before + b,
                        obeys_concrete_eq::<U>() ==> forall|j: int|
                            0 <= j < i ==> b[j] != *value,
                    decreases batch.len() - i,
                {
                    proof {
                        reveal(obeys_concrete_eq);
                    }
                    if batch[i].eq(value) {
                        proof {
                            if transducer.lawful() && obeys_concrete_eq::<U>() {
                                run.lemma_produced_prefix();
                                let outs = outputs(*transducer, src);
                                assert(run.produced() == before + b);
                                assert(run.produced()[before.len() + i] == *value);
                                assert(outs[before.len() + i] == *value);
                            }
                        }
                        return true;
                    }
                    i += 1;
                }
                proof {
                    if transducer.lawful() && obeys_concrete_eq::<U>() {
                        assert(run.produced() == before + b);
                        assert forall|j: int| 0 <= j < run.produced().len() implies run.produced()[j]
                            != *value by {
                            if j >= before.len() {
                                assert(run.produced()[j] == b[j - before.len()]);
                            } else {
                                assert(run.produced()[j] == before[j]);
                            }
                        }
                    }
                }
            },
            None => {
                return false;
            },
        }
    }
}

/// The predicate `p` as a spec function.
pub open spec fn passes<U, P: Fn(&U) -> bool>(p: P) -> spec_fn(U) -> bool {
    |x: U| pred_app(p, x)
}

/// The negation of the predicate `p` as a spec function.
pub open spec fn fails<U, P: Fn(&U) -> bool>(p: P) -> spec_fn(U) -> bool {
    |x: U| !pred_app(p, x)
}

/// Split the outputs into those that satisfy `predicate` and those that do
/// not, each in output order.
pub fn partition<T, U, X: Transducer<T, U>, P: Fn(&U) -> bool>(
    transducer: &X,
    source: Vec<T>,
    predicate: P,
) -> (r: (Vec<U>, Vec<U>))
    requires
        transducer.callable(),
        pred_total(predicate),
    ensures
        transducer.lawful() && pred_det(predicate) ==> {
            &&& r.0@ == outputs(*transducer, source@).filter(passes(predicate))
            &&& r.1@ == outputs(*transducer, source@).filter(fails(predicate))
        },
{
    let all = to_vec(transducer, source);
    let ghost all0 = all@;
    let mut rev = reversed(all);
    let ghost mut done: Seq<U> = Seq::empty();
    let mut pass: Vec<U> = Vec::new();
    let mut fail: Vec<U> = Vec::new();
    assert(done + rev@.reverse() =~= all0);
    while rev.len() > 0
        invariant
            done + rev@.reverse() == all0,
            pred_total(predicate),
            pred_det(predicate) ==> pass@ == done.filter(passes(predicate)),
            pred_det(predicate) ==> fail@ == done.filter(fails(predicate)),
        decreases rev.len(),
    {
        let ghost before = rev@;
        let x = rev.pop().unwrap();
        proof {
            lemma_consume(done, before, x);
        }
        let b = predicate(&x);
        proof {
            if pred_det(predicate) {
                lemma_pred_answer(predicate, x, b);
                done.lemma_filter_push(x, passes(predicate));
                done.lemma_filter_push(x, fails(predicate));
            }
            done = done.push(x);
        }
        if b {
            pass.push(x);
        } else {
            fail.push(x);
        }
    }
    assert(done =~= all0);
    (pass, fail)
}

/// `f` returned `k` on `x`; under determinism that is its value there.
pub proof fn lemma_ref_fn_answer<A, B, F: Fn(&A) -> B>(f: F, x: A, k: B)
    requires
        ref_fn_det(f),
        call_ensures(f, (&x,), k),
    ensures
        ref_fn_app(f, x) == k,
{
}

/// The elements whose key under `f` is `k`, as a spec predicate.
pub open spec fn has_key<U, K, F: Fn(&U) -> K>(f: F, k: K) -> spec_fn(U) -> bool {
    |x: U| ref_fn_app(f, x) == k
}

/// `k` is the key of some element of `s`.
pub open spec fn is_key_of<U, K, F: Fn(&U) -> K>(s: Seq<U>, f: F, k: K) -> bool {
    exists|i: int| 0 <= i < s.len() && ref_fn_app(f, #[trigger] s[i]) == k
}

/// Group the outputs by a key function: each key of an output maps to the
/// outputs with that key, in output order.
pub fn group_by<T, U, K: Eq + Hash, X: Transducer<T, U>, F: Fn(&U) -> K>(
    transducer: &X,
    source: Vec<T>,
    key_fn: F,
) -> (r: HashMap<K, Vec<U>>)
    requires
        transducer.callable(),
        ref_fn_total(key_fn),
    ensures
        transducer.lawful() && ref_fn_det(key_fn) && obeys_key_model::<K>() ==> {
            let outs = outputs(*transducer, source@);
            &&& forall|k: K| #[trigger] r@.contains_key(k) <==> is_key_of(outs, key_fn, k)
            &&& forall|k: K| #[trigger]
                r@.contains_key(k) ==> r@[k]@ == outs.filter(has_key(key_fn, k))
        },
{
    let all = to_vec(transducer, source);
    let ghost all0 = all@;
    let mut rev = reversed(all);
    let ghost mut done: Seq<U> = Seq::empty();
    let mut groups: HashMap<K, Vec<U>> = HashMap::new();
    assert(done + rev@.reverse() =~= all0);
    while rev.len() > 0
        invariant
            done + rev@.reverse() == all0,
            ref_fn_total(key_fn),
            ref_fn_det(key_fn) && obeys_key_model::<K>() ==> {
                &&& forall|k: K| #[trigger] groups@.contains_key(k) <==> is_key_of(done, key_fn, k)
                &&& forall|k: K| #[trigger]
                    groups@.contains_key(k) ==> groups@[k]@ == done.filter(has_key(key_fn, k))
            },
        decreases rev.len(),
    {
        let ghost before = rev@;
        let x = rev.pop().unwrap();
        proof {
            lemma_consume(done, before, x);
        }
        let key = key_fn(&x);
        let ghost k0 = key;
        let ghost old_groups = groups@;
        let group = match groups.remove(&key) {
            Some(g) => {
                let mut g = g;
                g.push(x);
                g
            },
            None => {
                let mut g = Vec::new();
                g.push(x);
                g
            },
        };
        groups.insert(key, group);
        proof {
            if ref_fn_det(key_fn) && obeys_key_model::<K>() {
                lemma_ref_fn_answer(key_fn, x, k0);
                let nd = done.push(x);
                assert(nd[done.len() as int] == x);
                assert forall|k: K| #[trigger] groups@.contains_key(k) <==> is_key_of(nd, key_fn, k) by {
                    if is_key_of(done, key_fn, k) {
                        let i = choose|i: int| 0 <= i < done.len() && ref_fn_app(key_fn, #[trigger] done[i]) == k;
                        assert(nd[i] == done[i]);
                    }
                    if is_key_of(nd, key_fn, k) && k != k0 {
                        let i = choose|i: int| 0 <= i < nd.len() && ref_fn_app(key_fn, #[trigger] nd[i]) == k;
                        assert(nd[i] == done[i]);
                    }
                }
                assert forall|k: K| #[trigger]
                    groups@.contains_key(k) implies groups@[k]@ == nd.filter(has_key(key_fn, k)) by {
                    done.lemma_filter_push(x, has_key(key_fn, k));
                    if k == k0 {
                        if !old_groups.contains_key(k) {
                            assert(!is_key_of(done, key_fn, k));
                            assert forall|i: int| 0 <= i < done.len() implies !(#[trigger] has_key(key_fn, k)(done[i])) by {}
                            done.lemma_all_neg_filter_empty(has_key(key_fn, k));
                        }
                    }
                }
            }
            done = done.push(x);
        }
    }
    assert(done =~= all0);
    groups
}

/// How many elements of `s` equal `x`.
pub open spec fn occurrences<U>(s: Seq<U>, x: U) -> nat {
    s.filter(|y: U| y == x).len()
}

/// Count how often each output occurs.
pub fn frequencies<T, U: Eq + Hash, X: Transducer<T, U>>(transducer: &X, source: Vec<T>) -> (r:
    HashMap<U, usize>)
    requires
        transducer.callable(),
    ensures
        transducer.lawful() && obeys_key_model::<U>() ==> {
            let outs = outputs(*transducer, source@);
            &&& forall|x: U| #[trigger] r@.contains_key(x) <==> outs.contains(x)
            &&& forall|x: U| #[trigger] r@.contains_key(x) ==> r@[x] == occurrences(outs, x)
        },
{
    let all = to_vec(transducer, source);
    let ghost all0 = all@;
    let total = all.len();
    assert(all0.len() == total);
    let mut rev = reversed(all);
    let ghost mut done: Seq<U> = Seq::empty();
    let mut counts: HashMap<U, usize> = HashMap::new();
    assert(done + rev@.reverse() =~= all0);
    while rev.len() > 0
        invariant
            done + rev@.reverse() == all0,
            all0.len() <= usize::MAX,
            obeys_key_model::<U>() ==> {
                &&& forall|x: U| #[trigger] counts@.contains_key(x) <==> done.contains(x)
                &&& forall|x: U| #[trigger]
                    counts@.contains_key(x) ==> counts@[x] == occurrences(done, x)
            },
        decreases rev.len(),
    {
        let ghost before = rev@;
        let x = rev.pop().unwrap();
        proof {
            lemma_consume(done, before, x);
            done.lemma_filter_push(x, |y: U| y == x);
            assert(done.filter(|y: U| y == x).len() <= done.len()) by {
                done.lemma_filter_len(|y: U| y == x);
            }
            assert(done.len() < all0.len());
        }
        let c: usize = match counts.get(&x) {
            Some(c) => *c,
            None => 0,
        };
        let ghost old_counts = counts@;
        proof {
            if obeys_key_model::<U>() {
                if !old_counts.contains_key(x) {
                    assert forall|i: int| 0 <= i < done.len() implies !((|y: U| y == x)(done[i])) by {
                        assert(done.contains(done[i]));
                    }
                    done.lemma_all_neg_filter_empty(|y: U| y == x);
                }
                assert(c == occurrences(done, x));
            }
        }
        let ghost xg = x;
        counts.insert(x, c.saturating_add(1));
        proof {
            if obeys_key_model::<U>() {
                let nd = done.push(xg);
                assert(nd[done.len() as int] == xg);
                assert forall|y: U| #[trigger] counts@.contains_key(y) <==> nd.contains(y) by {
                    if nd.contains(y) && y != xg {
                        let i = choose|i: int| 0 <= i < nd.len() && nd[i] == y;
                        assert(done[i] == y);
                    }
                    if done.contains(y) {
                        let i = choose|i: int| 0 <= i < done.len() && done[i] == y;
                        assert(nd[i] == y);
                    }
                }
                assert forall|y: U| #[trigger] counts@.contains_key(y) implies counts@[y] == occurrences(nd, y) by {
                    done.lemma_filter_push(xg, |z: U| z == y);
                }
            }
            done = done.push(xg);
        }
    }
    assert(done =~= all0);
    counts
}

/// The last `n` outputs (all of them when there are fewer).
pub fn take_last<T, U, X: Transducer<T, U>>(transducer: &X, source: Vec<T>, n: usize) -> (r: Vec<U>)
    requires
        transducer.callable(),
    ensures
        transducer.lawful() ==> {
            let outs = outputs(*transducer, source@);
            r@ == if outs.len() <= n {
                outs
            } else {
                outs.skip(outs.len() - n)
            }
        },
{
    let mut all = to_vec(transducer, source);
    if all.len() <= n {
        all
    } else {
        let at = all.len() - n;
        all.split_off(at)
    }
}

/// All outputs but the last `n` (none when there are at most `n`).
pub fn drop_last<T, U, X: Transducer<T, U>>(transducer: &X, source: Vec<T>, n: usize) -> (r: Vec<U>)
    requires
        transducer.callable(),
    ensures
        transducer.lawful() ==> {
            let outs = outputs(*transducer, source@);
            r@ == if n >= outs.len() {
                Seq::empty()
            } else {
                outs.take(outs.len() - n)
            }
        },
{
    let mut all = to_vec(transducer, source);
    if n >= all.len() {
        Vec::new()
    } else {
        let keep = all.len() - n;
        all.truncate(keep);
        all
    }
}

/// The outputs in reverse order.
pub fn reverse<T, U, X: Transducer<T, U>>(transducer: &X, source: Vec<T>) -> (r: Vec<U>)
    requires
        transducer.callable(),
    ensures
        transducer.lawful() ==> r@ == outputs(*transducer, source@).reverse(),
{
    let all = to_vec(transducer, source);
    reversed(all)
}


/// The sum of the values of `s`.
pub open spec fn sum_of<U: Numeric>(s: Seq<U>) -> int
    decreases s.len(),
{
    if s.len() == 0 {
        0
    } else {
        sum_of(s.drop_last()) + s.last().value()
    }
}

/// The product of the values of `s`.
pub open spec fn product_of<U: Numeric>(s: Seq<U>) -> int
    decreases s.len(),
{
    if s.len() == 0 {
        1
    } else {
        product_of(s.drop_last()) * s.last().value()
    }
}

/// Every running sum of `s` is representable.
pub open spec fn sums_fit<U: Numeric>(s: Seq<U>) -> bool {
    forall|i: int| 0 <= i <= s.len() ==> U::fits(#[trigger] sum_of(s.take(i)))
}

/// Every running product of `s` is representable.
pub open spec fn products_fit<U: Numeric>(s: Seq<U>) -> bool {
    forall|i: int| 0 <= i <= s.len() ==> U::fits(#[trigger] product_of(s.take(i)))
}

/// Sum the outputs (zero for none). Every running sum must fit the type, as
/// the addition would overflow otherwise.
pub fn sum<T, U: Numeric, X: Transducer<T, U>>(transducer: &X, source: Vec<T>) -> (r: U)
    requires
        transducer.callable(),
        transducer.lawful() ==> sums_fit(outputs(*transducer, source@)),
    ensures
        transducer.lawful() ==> r.value() == sum_of(outputs(*transducer, source@)),
{
    let ghost src = source@;
    let all = to_vec(transducer, source);
    let mut acc = U::zero();
    let mut i: usize = 0;
    assert(all@.take(0) =~= Seq::<U>::empty());
    while i < all.len()
        invariant
            i <= all.len(),
            transducer.lawful() ==> all@ == outputs(*transducer, src),
            transducer.lawful() ==> sums_fit(all@),
            acc.value() == sum_of(all@.take(i as int)),
        decreases all.len() - i,
    {
        assert(all@.take(i + 1).drop_last() =~= all@.take(i as int));
        match acc.add_checked(all[i]) {
            Some(v) => {
                acc = v;
            },
            None => {
                proof {
                    if transducer.lawful() {
                        assert(U::fits(sum_of(all@.take(i + 1))));
                    }
                }
                return acc;
            },
        }
        i += 1;
    }
    assert(all@.take(i as int) =~= all@);
    acc
}

/// Multiply the outputs together (one for none). Every running product must
/// fit the type, as the multiplication would overflow otherwise.
pub fn product<T, U: Numeric, X: Transducer<T, U>>(transducer: &X, source: Vec<T>) -> (r: U)
    requires
        transducer.callable(),
        transducer.lawful() ==> products_fit(outputs(*transducer, source@)),
    ensures
        transducer.lawful() ==> r.value() == product_of(outputs(*transducer, source@)),
{
    let ghost src = source@;
    let all = to_vec(transducer, source);
    let mut acc = U::one();
    let mut i: usize = 0;
    assert(all@.take(0) =~= Seq::<U>::empty());
    while i < all.len()
        invariant
            i <= all.len(),
            transducer.lawful() ==> all@ == outputs(*transducer, src),
            transducer.lawful() ==> products_fit(all@),
            acc.value() == product_of(all@.take(i as int)),
        decreases all.len() - i,
    {
        assert(all@.take(i + 1).drop_last() =~= all@.take(i as int));
        match acc.mul_checked(all[i]) {
            Some(v) => {
                acc = v;
            },
            None => {
                proof {
                    if transducer.lawful() {
                        assert(U::fits(product_of(all@.take(i + 1))));
                    }
                }
                return acc;
            },
        }
        i += 1;
    }
    assert(all@.take(i as int) =~= all@);
    acc
}

/// The views of a sequence of vectors.
pub open spec fn group_views<U>(gs: Seq<Vec<U>>) -> Seq<Seq<U>> {
    gs.map_values(|g: Vec<U>| g@)
}

/// The first element of group `i` has another key than that of group `i - 1`.
pub open spec fn differs_from_previous<U, K, F: Fn(&U) -> K>(gs: Seq<Seq<U>>, f: F, i: int) -> bool {
    ref_fn_app(f, gs[i][0]) != ref_fn_app(f, gs[i - 1][0])
}

/// `gs` is a sequence of maximal runs of equal keys: every group is
/// non-empty, all its elements have one key, and neighbouring groups have
/// different keys.
pub open spec fn runs_by_key<U, K, F: Fn(&U) -> K>(gs: Seq<Seq<U>>, f: F) -> bool {
    &&& forall|i: int| 0 <= i < gs.len() ==> #[trigger] gs[i].len() > 0
    &&& forall|i: int, j: int|
        0 <= i < gs.len() && 0 <= j < gs[i].len() ==> ref_fn_app(f, #[trigger] gs[i][j])
            == ref_fn_app(f, gs[i][0])
    &&& forall|i: int| 1 <= i < gs.len() ==> #[trigger] differs_from_previous(gs, f, i)
}

/// Closing the group `cur`, all of one key and of another key than the last
/// group of `gs`, keeps `gs` a sequence of maximal runs and appends `cur` to
/// what they hold.
proof fn lemma_close_group<U, K, F: Fn(&U) -> K>(gs: Seq<Seq<U>>, cur: Seq<U>, f: F)
    requires
        runs_by_key(gs, f),
        cur.len() > 0,
        forall|j: int| 0 <= j < cur.len() ==> ref_fn_app(f, #[trigger] cur[j]) == ref_fn_app(f, cur[0]),
        gs.len() > 0 ==> ref_fn_app(f, gs.last()[0]) != ref_fn_app(f, cur[0]),
    ensures
        runs_by_key(gs.push(cur), f),
        gs.push(cur).flatten() == gs.flatten() + cur,
{
    let gs1 = gs.push(cur);
    gs.lemma_flatten_push(cur);
    assert forall|i: int| 1 <= i < gs1.len() implies #[trigger] differs_from_previous(gs1, f, i) by {
        if i < gs.len() {
            assert(differs_from_previous(gs, f, i));
        }
    }
    assert forall|i: int, j: int|
        0 <= i < gs1.len() && 0 <= j < gs1[i].len() implies ref_fn_app(f, #[trigger] gs1[i][j])
            == ref_fn_app(f, gs1[i][0]) by {
        if i < gs.len() {
            assert(gs1[i] == gs[i]);
        }
    }
}

/// The chunks that a run of `chunker` over `source` emits, in order: each
/// full chunk of its size, taken by its elements; a partial tail is dropped.
pub fn to_vec_chunked<T>(chunker: &Chunk<T>, source: Vec<T>) -> (r: Vec<Vec<T>>)
    requires
        chunker.size() > 0,
    ensures
        group_views(r@) == chunks_of(source@, chunker.size() as nat),
{
    let ghost src = source@;
    let mut rev = reversed(source);
    let ghost mut done: Seq<T> = Seq::empty();
    let mut buffer = chunker.init();
    let mut result: Vec<Vec<T>> = Vec::new();
    proof {
        assert(done + rev@.reverse() =~= src);
        assert(group_views(result@) =~= Seq::<Seq<T>>::empty());
    }
    while rev.len() > 0
        invariant
            done + rev@.reverse() == src,
            chunker.size() > 0,
            buffer@ == chunk_run(*chunker, Seq::empty(), done).0,
            group_views(result@) == chunk_run(*chunker, Seq::empty(), done).1,
        decreases rev.len(),
    {
        let ghost before = rev@;
        let x = rev.pop().unwrap();
        proof {
            lemma_consume(done, before, x);
            lemma_chunk_run_push(*chunker, Seq::empty(), done, x);
        }
        let ghost res0 = result@;
        let (mut out, _) = chunker.step(&mut buffer, x);
        result.append(&mut out);
        proof {
            let (b1, cs) = chunk_run(*chunker, Seq::empty(), done);
            match chunker.chunk_step(b1, x).1 {
                Some(ch) => {
                    assert(group_views(result@) =~= group_views(res0).push(ch));
                },
                None => {
                    assert(group_views(result@) =~= group_views(res0));
                },
            }
            done = done.push(x);
        }
    }
    proof {
        assert(done =~= src);
        law_chunk_outputs(*chunker, src);
    }
    result
}

/// Group consecutive outputs with equal keys.
pub fn partition_by<T, U, K: Eq, X: Transducer<T, U>, F: Fn(&U) -> K>(
    transducer: &X,
    source: Vec<T>,
    key_fn: F,
) -> (r: Vec<Vec<U>>)
    requires
        transducer.callable(),
        ref_fn_total(key_fn),
    ensures
        transducer.lawful() && ref_fn_det(key_fn) && obeys_concrete_eq::<K>() ==> {
            &&& group_views(r@).flatten() == outputs(*transducer, source@)
            &&& runs_by_key(group_views(r@), key_fn)
        },
{
    let ghost src = source@;
    let all = to_vec(transducer, source);
    let ghost all0 = all@;
    let mut rev = reversed(all);
    let ghost mut done: Seq<U> = Seq::empty();
    let mut groups: Vec<Vec<U>> = Vec::new();
    let mut current: Vec<U> = Vec::new();
    let mut current_key: Option<K> = None;
    proof {
        reveal(obeys_concrete_eq);
        assert(done + rev@.reverse() =~= all0);
        assert(group_views(groups@) =~= Seq::<Seq<U>>::empty());
        assert(Seq::<Seq<U>>::empty().flatten() =~= Seq::<U>::empty());
    }
    while rev.len() > 0
        invariant
            done + rev@.reverse() == all0,
            ref_fn_total(key_fn),
            ref_fn_det(key_fn) && obeys_concrete_eq::<K>() ==> {
                let gs = group_views(groups@);
                &&& gs.flatten() + current@ == done
                &&& runs_by_key(gs, key_fn)
                &&& current_key is None <==> current@.len() == 0
                &&& current@.len() == 0 ==> gs.len() == 0
                &&& current_key matches Some(k) ==> {
                    &&& forall|j: int|
                        0 <= j < current@.len() ==> ref_fn_app(key_fn, #[trigger] current@[j]) == k
                    &&& gs.len() > 0 ==> ref_fn_app(key_fn, gs.last()[0]) != k
                }
            },
        decreases rev.len(),
    {
        let ghost before = rev@;
        let x = rev.pop().unwrap();
        proof {
            lemma_consume(done, before, x);
            reveal(obeys_concrete_eq);
        }
        let key = key_fn(&x);
        proof {
            if ref_fn_det(key_fn) {
                lemma_ref_fn_answer(key_fn, x, key);
            }
        }
        let ghost gs0 = group_views(groups@);
        let ghost cur0 = current@;
        let same = match &current_key {
            None => false,
            Some(k) => key.eq(k),
        };
        if same {
            current.push(x);
            proof {
                if ref_fn_det(key_fn) && obeys_concrete_eq::<K>() {
                    assert(gs0.flatten() + current@ =~= (gs0.flatten() + cur0).push(x));
                }
            }
        } else {
            let ghost key0 = current_key;
            if current.len() > 0 {
                let finished = current;
                groups.push(finished);
                current = Vec::new();
                proof {
                    if ref_fn_det(key_fn) && obeys_concrete_eq::<K>() {
                        assert(group_views(groups@) =~= gs0.push(cur0));
                        lemma_close_group(gs0, cur0, key_fn);
                    }
                }
            }
            current.push(x);
            current_key = Some(key);
            proof {
                if ref_fn_det(key_fn) && obeys_concrete_eq::<K>() {
                    let gs1 = group_views(groups@);
                    assert(current@ =~= seq![x]);
                    if key0 is None {
                        assert(gs1 =~= Seq::<Seq<U>>::empty());
                        assert(Seq::<Seq<U>>::empty().flatten() =~= Seq::<U>::empty());
                        assert(done =~= Seq::<U>::empty());
                    }
                    assert(gs1.flatten() + current@ =~= done.push(x));
                }
            }
        }
        proof {
            done = done.push(x);
        }
    }
    if current.len() > 0 {
        let ghost gs0 = group_views(groups@);
        let ghost cur0 = current@;
        groups.push(current);
        proof {
            if ref_fn_det(key_fn) && obeys_concrete_eq::<K>() {
                assert(group_views(groups@) =~= gs0.push(cur0));
                lemma_close_group(gs0, cur0, key_fn);
            }
        }
    } else {
        proof {
            if ref_fn_det(key_fn) && obeys_concrete_eq::<K>() {
                assert(group_views(groups@).flatten() + current@ =~= group_views(groups@).flatten());
            }
        }
    }
    assert(done =~= all0);
    groups
}


/// `m` occurs in `s` at least as often as every element of `s`.
pub open spec fn is_most_frequent<U>(s: Seq<U>, m: U) -> bool {
    &&& s.contains(m)
    &&& forall|y: U| s.contains(y) ==> occurrences(s, y) <= occurrences(s, m)
}

/// A most frequent output (`None` when there is none). Among outputs of
/// equal, highest frequency, the one that occurs first is returned.
pub fn mode<T, U: Eq + Hash + Clone, X: Transducer<T, U>>(transducer: &X, source: Vec<T>) -> (r:
    Option<U>)
    requires
        transducer.callable(),
    ensures
        transducer.lawful() && obeys_key_model::<U>() && clone_faithful::<U>() ==> {
            let outs = outputs(*transducer, source@);
            match r {
                None => outs.len() == 0,
                Some(m) => is_most_frequent(outs, m),
            }
        },
{
    let ghost src = source@;
    let mut all = to_vec(transducer, source);
    let n = all.len();
    if n == 0 {
        return None;
    }
    let mut counts: HashMap<U, usize> = HashMap::new();
    let mut i: usize = 0;
    while i < n
        invariant
            i <= n,
            n == all.len(),
            obeys_key_model::<U>() && clone_faithful::<U>() ==> {
                &&& forall|x: U| #[trigger] counts@.contains_key(x) <==> all@.take(i as int).contains(x)
                &&& forall|x: U| #[trigger]
                    counts@.contains_key(x) ==> counts@[x] == occurrences(all@.take(i as int), x)
            },
        decreases n - i,
    {
        let ghost done = all@.take(i as int);
        let x = all[i].clone();
        let c: usize = match counts.get(&x) {
            Some(c) => *c,
            None => 0,
        };
        let ghost old_counts = counts@;
        proof {
            if obeys_key_model::<U>() && clone_faithful::<U>() {
                assert(cloned(all@[i as int], x));
                assert(x == all@[i as int]);
                assert(all@.take(i + 1) =~= done.push(x));
                done.lemma_filter_push(x, |y: U| y == x);
                done.lemma_filter_len(|y: U| y == x);
                if !old_counts.contains_key(x) {
                    assert forall|j: int| 0 <= j < done.len() implies !((|y: U| y == x)(done[j])) by {
                        assert(done.contains(done[j]));
                    }
                    done.lemma_all_neg_filter_empty(|y: U| y == x);
                }
            }
        }
        let ghost xg = x;
        counts.insert(x, c.saturating_add(1));
        proof {
            if obeys_key_model::<U>() && clone_faithful::<U>() {
                let nd = done.push(xg);
                assert(nd[done.len() as int] == xg);
                assert forall|y: U| #[trigger] counts@.contains_key(y) <==> nd.contains(y) by {
                    if nd.contains(y) && y != xg {
                        let j = choose|j: int| 0 <= j < nd.len() && nd[j] == y;
                        assert(done[j] == y);
                    }
                    if done.contains(y) {
                        let j = choose|j: int| 0 <= j < done.len() && done[j] == y;
                        assert(nd[j] == y);
                    }
                }
                assert forall|y: U| #[trigger] counts@.contains_key(y) implies counts@[y] == occurrences(nd, y) by {
                    done.lemma_filter_push(xg, |z: U| z == y);
                }
            }
        }
        i += 1;
    }
    let ghost all0 = all@;
    proof {
        assert(all0.take(n as int) =~= all0);
    }
    let mut best: usize = 0;
    let mut best_count: usize = match counts.get(&all[0]) {
        Some(c) => *c,
        None => 0,
    };
    proof {
        if obeys_key_model::<U>() && clone_faithful::<U>() {
            assert(all0.contains(all0[0]));
        }
    }
    let mut j: usize = 1;
    while j < n
        invariant
            1 <= j <= n,
            n == all.len(),
            all@ == all0,
            best < n,
            obeys_key_model::<U>() && clone_faithful::<U>() ==> {
                &&& forall|x: U| #[trigger] counts@.contains_key(x) <==> all0.contains(x)
                &&& forall|x: U| #[trigger] counts@.contains_key(x) ==> counts@[x] == occurrences(all0, x)
                &&& best_count == occurrences(all0, all0[best as int])
                &&& forall|k: int| 0 <= k < j ==> occurrences(all0, #[trigger] all0[k]) <= best_count
            },
        decreases n - j,
    {
        let c: usize = match counts.get(&all[j]) {
            Some(c) => *c,
            None => 0,
        };
        proof {
            if obeys_key_model::<U>() && clone_faithful::<U>() {
                assert(all0.contains(all0[j as int]));
            }
        }
        if c > best_count {
            best = j;
            best_count = c;
        }
        j += 1;
    }
    proof {
        if obeys_key_model::<U>() && clone_faithful::<U>() {
            assert(all0.contains(all0[best as int]));
            assert forall|y: U| all0.contains(y) implies occurrences(all0, y) <= occurrences(all0, all0[best as int]) by {
                let k = choose|k: int| 0 <= k < all0.len() && all0[k] == y;
                assert(occurrences(all0, all0[k]) <= best_count);
            }
        }
    }
    let m = all.swap_remove(best);
    Some(m)
}


/// A machine index as a mathematical integer.
pub open spec fn idx(n: usize) -> int {
    n as int
}

/// The first `n` elements of `s`.
pub open spec fn first_n<A>(s: Seq<A>, n: nat) -> Seq<A> {
    s.take(n as int)
}

} // verus!
