//! What the conditional, repeating, separating and deduplicating transducers
//! output over a whole source, stated of the inputs alone: the conditional
//! ones transform each input once, `RepeatEach` repeats each input its number
//! of times, `Interpose` puts the separator between neighbours, `Unique`
//! drops an input equal to the one before it, and `UniqueBy` keeps the first
//! input of each key.

use crate::fnspec::{fn1_app, pred_app, ref_fn_app};
use crate::logic::{IfElse, Unless, When};
use crate::transducer::{halts, lemma_run_append, lemma_run_single, outputs, run, Transducer};
use crate::transforms::{Interpose, RepeatEach, Tap, Unique, UniqueBy};
use std::hash::Hash;
use vstd::prelude::*;

verus! {

/// A transducer whose every step keeps its state and outputs `g` of the
/// input outputs `g` of each input, in order, and never ends the run.
proof fn lemma_pointwise<In, Out, X: Transducer<In, Out>>(
    t: X,
    g: spec_fn(In) -> Out,
    s: <X::State as View>::V,
    xs: Seq<In>,
)
    requires
        forall|s2: <X::State as View>::V, x: In| #[trigger] t.step_spec(s2, x) == (s2, seq![g(x)], false),
    ensures
        run(t, s, xs).1 == xs.map_values(g),
        !run(t, s, xs).2,
    decreases xs.len(),
{
    if xs.len() > 0 {
        assert(t.step_spec(s, xs[0]) == (s, seq![g(xs[0])], false));
        lemma_pointwise(t, g, s, xs.drop_first());
        assert(xs.map_values(g) =~= seq![g(xs[0])] + xs.drop_first().map_values(g));
    } else {
        assert(xs.map_values(g) =~= Seq::<Out>::empty());
    }
}

/// `When` transforms exactly the inputs that satisfy its predicate, each
/// once, and passes the others on unchanged.
pub proof fn law_when_outputs<P: Fn(&T) -> bool, F: Fn(T) -> T, T: Clone>(
    w: When<P, F, T>,
    xs: Seq<T>,
)
    ensures
        outputs(w, xs) == xs.map_values(
            |x: T|
                if pred_app(w.pred(), x) {
                    fn1_app(w.func(), x)
                } else {
                    x
                },
        ),
{
    lemma_pointwise(
        w,
        |x: T|
            if pred_app(w.pred(), x) {
                fn1_app(w.func(), x)
            } else {
                x
            },
        (),
        xs,
    );
}

/// `Unless` transforms exactly the inputs that fail its predicate, each
/// once, and passes the others on unchanged.
pub proof fn law_unless_outputs<P: Fn(&T) -> bool, F: Fn(T) -> T, T: Clone>(
    u: Unless<P, F, T>,
    xs: Seq<T>,
)
    ensures
        outputs(u, xs) == xs.map_values(
            |x: T|
                if pred_app(u.pred(), x) {
                    x
                } else {
                    fn1_app(u.func(), x)
                },
        ),
{
    lemma_pointwise(
        u,
        |x: T|
            if pred_app(u.pred(), x) {
                x
            } else {
                fn1_app(u.func(), x)
            },
        (),
        xs,
    );
}

/// `IfElse` applies its first transform to the inputs that satisfy its
/// predicate and its second to the others, each once.
pub proof fn law_if_else_outputs<P: Fn(&T) -> bool, F1: Fn(T) -> T, F2: Fn(T) -> T, T: Clone>(
    c: IfElse<P, F1, F2, T>,
    xs: Seq<T>,
)
    ensures
        outputs(c, xs) == xs.map_values(
            |x: T|
                if pred_app(c.pred(), x) {
                    fn1_app(c.on_true(), x)
                } else {
                    fn1_app(c.on_false(), x)
                },
        ),
{
    lemma_pointwise(
        c,
        |x: T|
            if pred_app(c.pred(), x) {
                fn1_app(c.on_true(), x)
            } else {
                fn1_app(c.on_false(), x)
            },
        (),
        xs,
    );
}

/// `Tap` outputs its inputs unchanged.
pub proof fn law_tap_outputs<F: Fn(&T), T>(t: Tap<F, T>, xs: Seq<T>)
    ensures
        outputs(t, xs) == xs,
{
    lemma_pointwise(t, |x: T| x, (), xs);
    assert(xs.map_values(|x: T| x) =~= xs);
}

/// Running over `xs` and then `x`.
proof fn lemma_run_push<In, Out, X: Transducer<In, Out>>(
    t: X,
    s: <X::State as View>::V,
    xs: Seq<In>,
    x: In,
)
    ensures
        run(t, s, xs.push(x)) == ({
            let (s1, o1, h1) = run(t, s, xs);
            if h1 {
                (s1, o1, true)
            } else {
                let (s2, o2, h2) = t.step_spec(s1, x);
                (s2, o1 + o2, h2)
            }
        }),
{
    lemma_run_append(t, s, xs, seq![x]);
    assert(xs + seq![x] =~= xs.push(x));
    let (s1, o1, h1) = run(t, s, xs);
    lemma_run_single(t, s1, x);
}

/// `RepeatEach(n)` outputs each input `n` times, in order: `n` outputs per
/// input, the output at `i` being the input at `i / n`.
pub proof fn law_repeat_each_outputs<T: Clone>(r: RepeatEach<T>, xs: Seq<T>)
    ensures
        outputs(r, xs).len() == r.times() * xs.len(),
        !halts(r, xs),
        forall|i: int|
            0 <= i < outputs(r, xs).len() ==> #[trigger] outputs(r, xs)[i] == xs[i / (
            r.times() as int)],
    decreases xs.len(),
{
    let n = r.times() as int;
    if xs.len() > 0 {
        let init = xs.drop_last();
        let x = xs.last();
        assert(init.push(x) =~= xs);
        law_repeat_each_outputs(r, init);
        lemma_run_push(r, (), init, x);
        let prev = outputs(r, init);
        let out = outputs(r, xs);
        let l = init.len() as int;
        let (s1, o1, h1) = run(r, (), init);
        assert(!h1);
        assert(r.step_spec((), x).1 =~= Seq::new(n as nat, |i: int| x));
        assert(out == prev + Seq::new(n as nat, |i: int| x));
        assert(out.len() == n * l + n);
        assert(n * l + n == n * (l + 1)) by (nonlinear_arith);
        assert forall|i: int| 0 <= i < out.len() implies #[trigger] out[i] == xs[i / n] by {
            assert(n > 0) by (nonlinear_arith)
                requires
                    0 <= i < n * (l + 1),
                    l >= 0,
            ;
            if i < n * l {
                assert(out[i] == prev[i]);
                assert(0 <= i / n < l) by (nonlinear_arith)
                    requires
                        0 <= i < n * l,
                        n > 0,
                ;
                assert(xs[i / n] == init[i / n]);
            } else {
                assert(i / n == l) by (nonlinear_arith)
                    requires
                        n * l <= i < n * l + n,
                        n > 0,
                ;
                assert(out[i] == x);
            }
        }
    } else {
        assert(outputs(r, xs) == Seq::<T>::empty());
    }
}

/// `xs` with every element equal to the one just before it dropped.
pub open spec fn without_repeats<T>(xs: Seq<T>) -> Seq<T>
    decreases xs.len(),
{
    if xs.len() == 0 {
        Seq::empty()
    } else {
        let kept = without_repeats(xs.drop_last());
        if xs.len() >= 2 && xs[xs.len() - 2] == xs.last() {
            kept
        } else {
            kept.push(xs.last())
        }
    }
}

/// A run of `Unique` from the start remembers the last input.
proof fn lemma_unique_outputs<T: PartialEq + Clone>(u: Unique<T>, xs: Seq<T>)
    ensures
        run(u, None, xs).1 == without_repeats(xs),
        run(u, None, xs).0 == if xs.len() == 0 {
            None
        } else {
            Some(xs.last())
        },
        !run(u, None, xs).2,
    decreases xs.len(),
{
    if xs.len() > 0 {
        let init = xs.drop_last();
        let x = xs.last();
        assert(init.push(x) =~= xs);
        lemma_unique_outputs(u, init);
        lemma_run_push(u, None, init, x);
        if init.len() > 0 {
            assert(xs[xs.len() - 2] == init.last());
        }
    }
}

/// `Unique` drops exactly the inputs equal to the input just before them.
pub proof fn law_unique_outputs<T: PartialEq + Clone>(u: Unique<T>, xs: Seq<T>)
    ensures
        outputs(u, xs) == without_repeats(xs),
{
    lemma_unique_outputs(u, xs);
}

/// Whether an element before position `i` of `xs` has the key of `xs[i]`.
pub open spec fn key_seen_before<T, K, F: Fn(&T) -> K>(f: F, xs: Seq<T>, i: int) -> bool {
    exists|j: int| 0 <= j < i && ref_fn_app(f, xs[j]) == ref_fn_app(f, #[trigger] xs[i])
}

/// The elements of `xs` whose key no earlier element has, in order.
pub open spec fn first_of_each_key<T, K, F: Fn(&T) -> K>(f: F, xs: Seq<T>) -> Seq<T>
    decreases xs.len(),
{
    if xs.len() == 0 {
        Seq::empty()
    } else {
        let kept = first_of_each_key(f, xs.drop_last());
        if key_seen_before(f, xs, xs.len() - 1) {
            kept
        } else {
            kept.push(xs.last())
        }
    }
}

/// The keys of the elements of `xs`.
pub open spec fn keys_of<T, K, F: Fn(&T) -> K>(f: F, xs: Seq<T>) -> Set<K> {
    Set::new(|k: K| exists|j: int| 0 <= j < xs.len() && ref_fn_app(f, xs[j]) == k)
}

/// A run of `UniqueBy` from the start has seen the keys of the inputs.
proof fn lemma_unique_by_run<F: Fn(&T) -> K, T, K: Eq + Hash>(u: UniqueBy<F, T, K>, xs: Seq<T>)
    ensures
        run(u, Set::empty(), xs).0 == keys_of(u.key_fn(), xs),
        run(u, Set::empty(), xs).1 == first_of_each_key(u.key_fn(), xs),
        !run(u, Set::empty(), xs).2,
    decreases xs.len(),
{
    let f = u.key_fn();
    if xs.len() > 0 {
        let init = xs.drop_last();
        let x = xs.last();
        assert(init.push(x) =~= xs);
        lemma_unique_by_run(u, init);
        lemma_run_push(u, Set::empty(), init, x);
        let k = ref_fn_app(f, x);
        let seen = keys_of(f, init);
        assert(seen.contains(k) == key_seen_before(f, xs, xs.len() - 1)) by {
            if seen.contains(k) {
                let j = choose|j: int| 0 <= j < init.len() && ref_fn_app(f, init[j]) == k;
                assert(xs[j] == init[j]);
            }
            if key_seen_before(f, xs, xs.len() - 1) {
                let j = choose|j: int|
                    0 <= j < xs.len() - 1 && #[trigger] ref_fn_app(f, xs[j]) == ref_fn_app(
                        f,
                        xs[xs.len() - 1],
                    );
                assert(init[j] == xs[j]);
            }
        }
        assert(keys_of(f, xs) =~= seen.insert(k)) by {
            assert forall|k2: K| keys_of(f, xs).contains(k2) implies seen.insert(k).contains(k2) by {
                let j = choose|j: int| 0 <= j < xs.len() && ref_fn_app(f, xs[j]) == k2;
                if j < init.len() {
                    assert(xs[j] == init[j]);
                }
            }
            assert forall|k2: K| seen.insert(k).contains(k2) implies keys_of(f, xs).contains(k2) by {
                if k2 == k {
                    assert(ref_fn_app(f, xs[xs.len() - 1]) == k2);
                } else {
                    let j = choose|j: int| 0 <= j < init.len() && ref_fn_app(f, init[j]) == k2;
                    assert(xs[j] == init[j]);
                }
            }
        }
        if seen.contains(k) {
            assert(seen.insert(k) =~= seen);
        }
    } else {
        assert(keys_of(f, xs) =~= Set::<K>::empty());
    }
}

/// `UniqueBy` outputs exactly the inputs whose key no earlier input has, in
/// order.
pub proof fn law_unique_by_outputs<F: Fn(&T) -> K, T, K: Eq + Hash>(
    u: UniqueBy<F, T, K>,
    xs: Seq<T>,
)
    ensures
        outputs(u, xs) == first_of_each_key(u.key_fn(), xs),
{
    lemma_unique_by_run(u, xs);
}

/// `xs` with `sep` between each two neighbours.
pub open spec fn separated<T>(xs: Seq<T>, sep: T) -> Seq<T>
    decreases xs.len(),
{
    if xs.len() <= 1 {
        xs
    } else {
        separated(xs.drop_last(), sep) + seq![sep, xs.last()]
    }
}

/// A run of `Interpose` from the start.
proof fn lemma_interpose_run<T: Clone>(t: Interpose<T>, xs: Seq<T>)
    ensures
        run(t, true, xs).1 == separated(xs, t.separator()),
        run(t, true, xs).0 == (xs.len() == 0),
        !run(t, true, xs).2,
    decreases xs.len(),
{
    if xs.len() > 0 {
        let init = xs.drop_last();
        let x = xs.last();
        assert(init.push(x) =~= xs);
        lemma_interpose_run(t, init);
        lemma_run_push(t, true, init, x);
        if init.len() == 0 {
            assert(xs =~= seq![x]);
            assert(Seq::<T>::empty() + seq![x] =~= xs);
        }
    }
}

/// `Interpose` outputs the inputs with its separator between each two
/// neighbours.
pub proof fn law_interpose_outputs<T: Clone>(t: Interpose<T>, xs: Seq<T>)
    ensures
        outputs(t, xs) == separated(xs, t.separator()),
{
    lemma_interpose_run(t, xs);
}

} // verus!
