//! Laws that relate the library's operations to each other: what the basic
//! transducers mean over a whole source, how their compositions fuse and
//! commute, how `take_last` and `drop_last` split the outputs, what a
//! partition keeps, and where the minimum and maximum of a sequence lie.

use crate::collectors::{fails, passes};
use crate::fnspec::{fn1_app, pred_app, ref2_app};
use crate::ranking::{ascending, lemma_ascending_total, max_fold, min_fold, total_order};
use crate::transducer::{halts, lemma_compose_outputs, outputs, run, Compose, Transducer};
use crate::transforms::{Chunk, Drop, DropWhile, Filter, FlatMap, MapFn, Reject, Scan, Take, TakeWhile, Unique};
use std::cmp::Ordering;
use vstd::laws_cmp::obeys_cmp;
use vstd::prelude::*;
use vstd::std_specs::cmp::OrdSpec;

verus! {

broadcast use vstd::seq_lib::group_seq_properties;

/// A map outputs `f` applied to each input, in order.
pub proof fn law_map_outputs<F: Fn(In) -> Out, In, Out>(m: MapFn<F, In, Out>, xs: Seq<In>)
    ensures
        outputs(m, xs) == xs.map_values(|x: In| fn1_app(m.func(), x)),
    decreases xs.len(),
{
    if xs.len() > 0 {
        law_map_outputs(m, xs.drop_first());
        assert(xs.map_values(|x: In| fn1_app(m.func(), x)) =~= seq![fn1_app(m.func(), xs[0])]
            + xs.drop_first().map_values(|x: In| fn1_app(m.func(), x)));
    } else {
        assert(xs.map_values(|x: In| fn1_app(m.func(), x)) =~= Seq::<Out>::empty());
    }
}

/// A filter outputs the inputs that satisfy its predicate, in order.
pub proof fn law_filter_outputs<P: Fn(&T) -> bool, T>(f: Filter<P, T>, xs: Seq<T>)
    ensures
        outputs(f, xs) == xs.filter(passes(f.pred())),
    decreases xs.len(),
{
    reveal_with_fuel(Seq::filter, 1);
    if xs.len() > 0 {
        law_filter_outputs(f, xs.drop_first());
        assert(xs =~= seq![xs[0]] + xs.drop_first());
        xs.drop_first().lemma_filter_prepend(xs[0], passes(f.pred()));
        let (s1, o1, h1) = f.step_spec((), xs[0]);
        let (s2, o2, h2) = run(f, s1, xs.drop_first());
        assert(o1 + o2 =~= (if pred_app(f.pred(), xs[0]) {
            seq![xs[0]]
        } else {
            Seq::empty()
        }) + xs.drop_first().filter(passes(f.pred())));
    }
}

/// A reject outputs the inputs that do not satisfy its predicate, in order:
/// rejecting with `p` is filtering with the negation of `p`.
pub proof fn law_reject_outputs<P: Fn(&T) -> bool, T>(r: Reject<P, T>, xs: Seq<T>)
    ensures
        outputs(r, xs) == xs.filter(fails(r.pred())),
    decreases xs.len(),
{
    reveal_with_fuel(Seq::filter, 1);
    if xs.len() > 0 {
        law_reject_outputs(r, xs.drop_first());
        assert(xs =~= seq![xs[0]] + xs.drop_first());
        xs.drop_first().lemma_filter_prepend(xs[0], fails(r.pred()));
        let (s1, o1, h1) = r.step_spec((), xs[0]);
        let (s2, o2, h2) = run(r, s1, xs.drop_first());
        assert(o1 + o2 =~= (if !pred_app(r.pred(), xs[0]) {
            seq![xs[0]]
        } else {
            Seq::empty()
        }) + xs.drop_first().filter(fails(r.pred())));
    }
}

/// From `c` inputs taken so far, a take outputs the next inputs up to its
/// limit.
proof fn lemma_take_run<T>(t: Take<T>, c: usize, xs: Seq<T>)
    requires
        c < t.limit(),
    ensures
        run(t, c, xs).1 == xs.take(
            if t.limit() - c < xs.len() {
                t.limit() - c
            } else {
                xs.len() as int
            },
        ),
    decreases xs.len(),
{
    if xs.len() > 0 {
        let (s1, o1, h1) = t.step_spec(c, xs[0]);
        if !h1 {
            lemma_take_run(t, (c + 1) as usize, xs.drop_first());
            let (s2, o2, h2) = run(t, s1, xs.drop_first());
            let k = if t.limit() - c < xs.len() {
                t.limit() - c
            } else {
                xs.len() as int
            };
            assert(o1 + o2 =~= xs.take(k));
        } else {
            assert(o1 =~= xs.take(1));
        }
    }
}

/// Take outputs the first `n` inputs (all of them when there are fewer) and
/// then ends the run.
pub proof fn law_take_outputs<T>(t: Take<T>, xs: Seq<T>)
    ensures
        outputs(t, xs) == xs.take(
            if t.limit() < xs.len() {
                t.limit() as int
            } else {
                xs.len() as int
            },
        ),
{
    if t.limit() > 0 {
        lemma_take_run(t, 0, xs);
    } else if xs.len() > 0 {
        assert(outputs(t, xs) =~= Seq::<T>::empty());
        assert(xs.take(0) =~= Seq::<T>::empty());
    } else {
        assert(xs.take(0) =~= Seq::<T>::empty());
    }
}

/// Dropping the last `n` outputs and taking the last `n` split the outputs:
/// together, in this order, they are all of them.
pub proof fn law_drop_last_take_last<A>(s: Seq<A>, n: nat)
    ensures
        (if n >= s.len() {
            Seq::empty()
        } else {
            s.take(s.len() - n)
        }) + (if s.len() <= n {
            s
        } else {
            s.skip(s.len() - n)
        }) == s,
{
    if n >= s.len() {
        assert(Seq::<A>::empty() + s =~= s);
    } else {
        assert(s.take(s.len() - n) + s.skip(s.len() - n) =~= s);
    }
}

/// Under a lawful `Ord`, the minimum of a non-empty sequence is one of its
/// elements and no element is smaller.
pub proof fn law_min_is_least<U: Ord>(s: Seq<U>)
    requires
        obeys_cmp::<U>(),
        s.len() > 0,
    ensures
        s.contains(min_fold(s)),
        forall|i: int| 0 <= i < s.len() ==> min_fold(s).cmp_spec(&s[i]) != Ordering::Greater,
    decreases s.len(),
{
    lemma_ascending_total::<U>();
    let asc = ascending::<U>();
    if s.len() == 1 {
        assert(s[0] == s[0]);
        assert(asc(s[0], s[0]) != Ordering::Greater) by {
            if asc(s[0], s[0]) == Ordering::Greater {
                assert(asc(s[0], s[0]) == Ordering::Less);
            }
        }
    } else {
        let rest = s.drop_last();
        law_min_is_least(rest);
        let m = min_fold(rest);
        let x = s.last();
        assert(s[s.len() - 1] == x);
        assert forall|i: int| 0 <= i < s.len() implies min_fold(s).cmp_spec(&s[i]) != Ordering::Greater by {
            if i < s.len() - 1 {
                assert(s[i] == rest[i]);
                assert(asc(m, rest[i]) != Ordering::Greater);
                if asc(m, x) == Ordering::Greater {
                    assert(asc(x, m) == Ordering::Less);
                }
            } else {
                if asc(m, x) == Ordering::Greater {
                    if asc(x, x) == Ordering::Greater {
                        assert(asc(x, x) == Ordering::Less);
                    }
                }
            }
        }
        if m.cmp_spec(&x) != Ordering::Greater {
            let j = choose|j: int| 0 <= j < rest.len() && rest[j] == m;
            assert(s[j] == m);
        }
    }
}

/// Under a lawful `Ord`, the maximum of a non-empty sequence is one of its
/// elements and no element is greater.
pub proof fn law_max_is_greatest<U: Ord>(s: Seq<U>)
    requires
        obeys_cmp::<U>(),
        s.len() > 0,
    ensures
        s.contains(max_fold(s)),
        forall|i: int| 0 <= i < s.len() ==> s[i].cmp_spec(&max_fold(s)) != Ordering::Greater,
    decreases s.len(),
{
    lemma_ascending_total::<U>();
    let asc = ascending::<U>();
    if s.len() == 1 {
        assert(asc(s[0], s[0]) != Ordering::Greater) by {
            if asc(s[0], s[0]) == Ordering::Greater {
                assert(asc(s[0], s[0]) == Ordering::Less);
            }
        }
    } else {
        let rest = s.drop_last();
        law_max_is_greatest(rest);
        let m = max_fold(rest);
        let x = s.last();
        assert(s[s.len() - 1] == x);
        assert forall|i: int| 0 <= i < s.len() implies s[i].cmp_spec(&max_fold(s)) != Ordering::Greater by {
            if i < s.len() - 1 {
                assert(s[i] == rest[i]);
                assert(asc(rest[i], m) != Ordering::Greater);
                if asc(m, x) != Ordering::Greater {
                    assert(asc(rest[i], x) != Ordering::Greater);
                }
            } else {
                if asc(m, x) == Ordering::Greater {
                    assert(asc(x, m) == Ordering::Less);
                } else if asc(x, x) == Ordering::Greater {
                    assert(asc(x, x) == Ordering::Less);
                }
            }
        }
        if m.cmp_spec(&x) == Ordering::Greater {
            let j = choose|j: int| 0 <= j < rest.len() && rest[j] == m;
            assert(s[j] == m);
        }
    }
}

/// From `c` inputs dropped so far, a drop outputs what comes after the rest
/// of the first `limit` inputs.
proof fn lemma_drop_run<T>(d: Drop<T>, c: usize, xs: Seq<T>)
    requires
        c <= d.limit(),
    ensures
        run(d, c, xs).1 == xs.skip(
            if d.limit() - c < xs.len() {
                d.limit() - c
            } else {
                xs.len() as int
            },
        ),
        !run(d, c, xs).2,
    decreases xs.len(),
{
    if xs.len() > 0 {
        let (s1, o1, h1) = d.step_spec(c, xs[0]);
        lemma_drop_run(d, s1, xs.drop_first());
        let (s2, o2, h2) = run(d, s1, xs.drop_first());
        if c < d.limit() {
            assert(o1 + o2 =~= o2);
            let k = if d.limit() - c < xs.len() {
                d.limit() - c
            } else {
                xs.len() as int
            };
            assert(o2 =~= xs.skip(k));
        } else {
            assert(o1 + o2 =~= xs);
            assert(xs.skip(0) =~= xs);
        }
    } else {
        assert(xs.skip(0) =~= xs);
    }
}

/// A drop outputs the inputs after the first `n` (none when there are no
/// more) and never ends the run.
pub proof fn law_drop_outputs<T>(d: Drop<T>, xs: Seq<T>)
    ensures
        outputs(d, xs) == xs.skip(
            if d.limit() < xs.len() {
                d.limit() as int
            } else {
                xs.len() as int
            },
        ),
{
    lemma_drop_run(d, 0, xs);
}

/// Dropping `n` and then taking `m` outputs the `m` inputs after the first
/// `n`.
pub proof fn law_drop_then_take<T>(c: Compose<Drop<T>, Take<T>, T, T, T>, xs: Seq<T>)
    ensures
        outputs(c, xs) == ({
            let rest = xs.skip(
                if c.first().limit() < xs.len() {
                    c.first().limit() as int
                } else {
                    xs.len() as int
                },
            );
            rest.take(
                if c.second().limit() < rest.len() {
                    c.second().limit() as int
                } else {
                    rest.len() as int
                },
            )
        }),
{
    lemma_compose_outputs(c, xs);
    law_drop_outputs(c.first(), xs);
    law_take_outputs(c.second(), outputs(c.first(), xs));
}

/// The number of leading elements of `xs` that satisfy `p`.
pub open spec fn leading<T>(p: spec_fn(T) -> bool, xs: Seq<T>) -> nat
    decreases xs.len(),
{
    if xs.len() == 0 {
        0
    } else if p(xs[0]) {
        1 + leading(p, xs.drop_first())
    } else {
        0
    }
}

/// The leading run of `p` is as long as it is: each of its elements
/// satisfies `p`, and the element after it, if any, does not.
pub proof fn lemma_leading<T>(p: spec_fn(T) -> bool, xs: Seq<T>)
    ensures
        leading(p, xs) <= xs.len(),
        forall|i: int| 0 <= i < leading(p, xs) ==> p(#[trigger] xs[i]),
        leading(p, xs) < xs.len() ==> !p(xs[leading(p, xs) as int]),
    decreases xs.len(),
{
    if xs.len() > 0 && p(xs[0]) {
        lemma_leading(p, xs.drop_first());
        assert forall|i: int| 0 <= i < leading(p, xs) implies p(#[trigger] xs[i]) by {
            if i > 0 {
                assert(xs[i] == xs.drop_first()[i - 1]);
            }
        }
    }
}

/// A take-while outputs the leading inputs that satisfy its predicate, each
/// of which satisfies it, and ends the run at the first that does not.
pub proof fn law_take_while_outputs<P: Fn(&T) -> bool, T>(t: TakeWhile<P, T>, xs: Seq<T>)
    ensures
        outputs(t, xs) == xs.take(leading(passes(t.pred()), xs) as int),
        forall|i: int|
            0 <= i < outputs(t, xs).len() ==> pred_app(t.pred(), #[trigger] outputs(t, xs)[i]),
        halts(t, xs) == (leading(passes(t.pred()), xs) < xs.len()),
    decreases xs.len(),
{
    lemma_leading(passes(t.pred()), xs);
    if xs.len() > 0 {
        let (s1, o1, h1) = t.step_spec((), xs[0]);
        if !h1 {
            law_take_while_outputs(t, xs.drop_first());
            let (s2, o2, h2) = run(t, s1, xs.drop_first());
            assert(o1 + o2 =~= xs.take(leading(passes(t.pred()), xs) as int));
        } else {
            assert(xs.take(0) =~= Seq::<T>::empty());
        }
    } else {
        assert(xs.take(0) =~= Seq::<T>::empty());
    }
    assert forall|i: int| 0 <= i < outputs(t, xs).len() implies pred_app(
        t.pred(),
        #[trigger] outputs(t, xs)[i],
    ) by {
        assert(outputs(t, xs)[i] == xs[i]);
        assert(passes(t.pred())(xs[i]));
    }
}

/// A drop-while that has stopped dropping lets every input through.
proof fn lemma_drop_while_passing<P: Fn(&T) -> bool, T>(d: DropWhile<P, T>, xs: Seq<T>)
    ensures
        run(d, false, xs).1 == xs,
        !run(d, false, xs).2,
    decreases xs.len(),
{
    if xs.len() > 0 {
        lemma_drop_while_passing(d, xs.drop_first());
        assert(seq![xs[0]] + xs.drop_first() =~= xs);
    }
}

/// A drop-while outputs the inputs after the leading ones that satisfy its
/// predicate, and never ends the run.
pub proof fn law_drop_while_outputs<P: Fn(&T) -> bool, T>(d: DropWhile<P, T>, xs: Seq<T>)
    ensures
        outputs(d, xs) == xs.skip(leading(passes(d.pred()), xs) as int),
        !halts(d, xs),
    decreases xs.len(),
{
    lemma_leading(passes(d.pred()), xs);
    if xs.len() > 0 {
        if pred_app(d.pred(), xs[0]) {
            law_drop_while_outputs(d, xs.drop_first());
            let (s1, o1, h1) = d.step_spec(true, xs[0]);
            assert(o1 + outputs(d, xs.drop_first()) =~= outputs(d, xs.drop_first()));
            assert(xs.drop_first().skip(leading(passes(d.pred()), xs.drop_first()) as int)
                =~= xs.skip(leading(passes(d.pred()), xs) as int));
        } else {
            lemma_drop_while_passing(d, xs.drop_first());
            assert(seq![xs[0]] + xs.drop_first() =~= xs);
            assert(xs.skip(0) =~= xs);
        }
    } else {
        assert(xs.skip(0) =~= xs);
    }
}

/// Mapping with `f` and then with `g` maps with `g` after `f`.
pub proof fn law_map_fusion<F: Fn(A) -> B, G: Fn(B) -> C, A, B, C>(
    c: Compose<MapFn<F, A, B>, MapFn<G, B, C>, A, B, C>,
    xs: Seq<A>,
)
    ensures
        outputs(c, xs) == xs.map_values(
            |x: A| fn1_app(c.second().func(), fn1_app(c.first().func(), x)),
        ),
{
    lemma_compose_outputs(c, xs);
    law_map_outputs(c.first(), xs);
    law_map_outputs(c.second(), outputs(c.first(), xs));
    assert(outputs(c, xs) =~= xs.map_values(
        |x: A| fn1_app(c.second().func(), fn1_app(c.first().func(), x)),
    ));
}

/// Filtering twice keeps what satisfies both predicates.
proof fn lemma_filter_filter<T>(s: Seq<T>, a: spec_fn(T) -> bool, b: spec_fn(T) -> bool)
    ensures
        s.filter(a).filter(b) == s.filter(|x: T| a(x) && b(x)),
    decreases s.len(),
{
    reveal_with_fuel(Seq::filter, 1);
    if s.len() > 0 {
        lemma_filter_filter(s.drop_first(), a, b);
        assert(s =~= seq![s[0]] + s.drop_first());
        s.drop_first().lemma_filter_prepend(s[0], a);
        s.drop_first().lemma_filter_prepend(s[0], |x: T| a(x) && b(x));
        s.drop_first().filter(a).lemma_filter_prepend(s[0], b);
    } else {
        assert(s.filter(a) =~= Seq::<T>::empty());
    }
}

/// Filtering with `p` and then with `q` keeps the inputs that satisfy both.
pub proof fn law_filter_composition<P: Fn(&T) -> bool, Q: Fn(&T) -> bool, T>(
    c: Compose<Filter<P, T>, Filter<Q, T>, T, T, T>,
    xs: Seq<T>,
)
    ensures
        outputs(c, xs) == xs.filter(
            |x: T| pred_app(c.first().pred(), x) && pred_app(c.second().pred(), x),
        ),
{
    lemma_compose_outputs(c, xs);
    law_filter_outputs(c.first(), xs);
    law_filter_outputs(c.second(), outputs(c.first(), xs));
    lemma_filter_filter(xs, passes(c.first().pred()), passes(c.second().pred()));
    assert((|x: T| passes(c.first().pred())(x) && passes(c.second().pred())(x)) =~= (|x: T|
        pred_app(c.first().pred(), x) && pred_app(c.second().pred(), x)));
}

/// Mapping then filtering is filtering on the mapped value then mapping.
proof fn lemma_map_filter<A, B>(s: Seq<A>, f: spec_fn(A) -> B, q: spec_fn(B) -> bool)
    ensures
        s.map_values(f).filter(q) == s.filter(|x: A| q(f(x))).map_values(f),
    decreases s.len(),
{
    reveal_with_fuel(Seq::filter, 1);
    if s.len() > 0 {
        lemma_map_filter(s.drop_first(), f, q);
        assert(s =~= seq![s[0]] + s.drop_first());
        assert(s.map_values(f) =~= seq![f(s[0])] + s.drop_first().map_values(f));
        s.drop_first().map_values(f).lemma_filter_prepend(f(s[0]), q);
        s.drop_first().lemma_filter_prepend(s[0], |x: A| q(f(x)));
        let t = s.drop_first().filter(|x: A| q(f(x)));
        assert((seq![s[0]] + t).map_values(f) =~= seq![f(s[0])] + t.map_values(f));
    } else {
        assert(s.map_values(f) =~= Seq::<B>::empty());
        assert(s.filter(|x: A| q(f(x))) =~= Seq::<A>::empty());
    }
}

/// Mapping with `f` and then keeping what satisfies `q` gives what keeping
/// the inputs whose image satisfies `q` and then mapping gives, when the
/// second pipeline's predicate `r` and map `g` are `q` after `f` and `f`.
pub proof fn law_map_filter_interchange<
    F: Fn(A) -> B,
    Q: Fn(&B) -> bool,
    R: Fn(&A) -> bool,
    G: Fn(A) -> B,
    A,
    B,
>(
    c1: Compose<MapFn<F, A, B>, Filter<Q, B>, A, B, B>,
    c2: Compose<Filter<R, A>, MapFn<G, A, B>, A, A, B>,
    xs: Seq<A>,
)
    requires
        forall|x: A| #[trigger] fn1_app(c2.second().func(), x) == fn1_app(c1.first().func(), x),
        forall|x: A|
            #[trigger] pred_app(c2.first().pred(), x) == pred_app(
                c1.second().pred(),
                fn1_app(c1.first().func(), x),
            ),
    ensures
        outputs(c1, xs) == outputs(c2, xs),
{
    let f = |x: A| fn1_app(c1.first().func(), x);
    let g = |x: A| fn1_app(c2.second().func(), x);
    lemma_compose_outputs(c1, xs);
    lemma_compose_outputs(c2, xs);
    law_map_outputs(c1.first(), xs);
    law_filter_outputs(c1.second(), outputs(c1.first(), xs));
    law_filter_outputs(c2.first(), xs);
    law_map_outputs(c2.second(), outputs(c2.first(), xs));
    lemma_map_filter(xs, f, passes(c1.second().pred()));
    assert((|x: A| passes(c1.second().pred())(f(x))) =~= passes(c2.first().pred()));
    let kept = xs.filter(passes(c2.first().pred()));
    assert(kept.map_values(f) =~= kept.map_values(g));
}

/// A flat map outputs, in order, everything its function returns for each
/// input.
pub proof fn law_flat_map_outputs<F: Fn(In) -> Vec<Out>, In, Out>(
    m: FlatMap<F, In, Out>,
    xs: Seq<In>,
)
    ensures
        outputs(m, xs) == xs.map_values(|x: In| fn1_app(m.func(), x)@).flatten(),
    decreases xs.len(),
{
    let ys = xs.map_values(|x: In| fn1_app(m.func(), x)@);
    if xs.len() > 0 {
        law_flat_map_outputs(m, xs.drop_first());
        assert(ys.drop_first() =~= xs.drop_first().map_values(|x: In| fn1_app(m.func(), x)@));
        assert(ys.first() == fn1_app(m.func(), xs[0])@);
    } else {
        assert(ys =~= Seq::<Seq<Out>>::empty());
    }
}

/// After having let `last` through, a unique outputs no two equal inputs in
/// a row, and its first output differs from `last`.
proof fn lemma_unique_run<T: PartialEq + Clone>(u: Unique<T>, last: Option<T>, xs: Seq<T>)
    ensures
        ({
            let o = run(u, last, xs).1;
            &&& forall|i: int| 1 <= i < o.len() ==> o[i - 1] != #[trigger] o[i]
            &&& o.len() > 0 ==> last != Some(o[0])
            &&& o.len() > 0 ==> run(u, last, xs).0 == Some(o.last())
            &&& o.len() == 0 ==> run(u, last, xs).0 == last
        }),
    decreases xs.len(),
{
    if xs.len() > 0 {
        let (s1, o1, h1) = u.step_spec(last, xs[0]);
        lemma_unique_run(u, s1, xs.drop_first());
        let (s2, o2, h2) = run(u, s1, xs.drop_first());
        let o = o1 + o2;
        assert forall|i: int| 1 <= i < o.len() implies o[i - 1] != #[trigger] o[i] by {
            if o1.len() == 1 && i == 1 {
                assert(o[0] == xs[0]);
                assert(o[1] == o2[0]);
            } else if o1.len() == 1 {
                assert(o[i - 1] == o2[i - 2]);
                assert(o[i] == o2[i - 1]);
            } else {
                assert(o[i - 1] == o2[i - 1]);
            }
        }
        if o2.len() > 0 {
            assert(o.last() == o2.last());
        }
    }
}

/// A unique never outputs two equal inputs in a row.
pub proof fn law_unique_no_repeats<T: PartialEq + Clone>(u: Unique<T>, xs: Seq<T>)
    ensures
        forall|i: int|
            1 <= i < outputs(u, xs).len() ==> outputs(u, xs)[i - 1] != #[trigger] outputs(u, xs)[i],
{
    lemma_unique_run(u, None, xs);
}

/// Folding `ys` from the left with `f`, starting from `acc`.
pub open spec fn fold_ref2<S, T, F: Fn(&S, &T) -> S>(f: F, acc: S, ys: Seq<T>) -> S
    decreases ys.len(),
{
    if ys.len() == 0 {
        acc
    } else {
        fold_ref2(f, ref2_app(f, acc, ys[0]), ys.drop_first())
    }
}

/// From accumulator `acc`, a scan outputs, for each input, the fold of the
/// inputs up to and including it.
proof fn lemma_scan_run<F: Fn(&S, &T) -> S, T, S: Clone>(sc: Scan<F, T, S>, acc: S, xs: Seq<T>)
    ensures
        run(sc, acc, xs).1.len() == xs.len(),
        forall|i: int|
            0 <= i < xs.len() ==> #[trigger] run(sc, acc, xs).1[i] == fold_ref2(
                sc.func(),
                acc,
                xs.take(i + 1),
            ),
    decreases xs.len(),
{
    if xs.len() > 0 {
        let n = ref2_app(sc.func(), acc, xs[0]);
        let rest = xs.drop_first();
        lemma_scan_run(sc, n, rest);
        let o = run(sc, acc, xs).1;
        let (s1, o1, h1) = sc.step_spec(acc, xs[0]);
        assert(s1 == n && o1 == seq![n] && !h1);
        assert(o == o1 + run(sc, n, rest).1);
        assert forall|i: int| 0 <= i < xs.len() implies #[trigger] o[i] == fold_ref2(
            sc.func(),
            acc,
            xs.take(i + 1),
        ) by {
            let t = xs.take(i + 1);
            assert(t[0] == xs[0]);
            assert(t.drop_first() =~= rest.take(i));
            assert(fold_ref2(sc.func(), acc, t) == fold_ref2(sc.func(), n, rest.take(i)));
            let r = run(sc, n, rest).1;
            if i == 0 {
                assert(rest.take(0) =~= Seq::<T>::empty());
                assert(o[0] == n);
            } else {
                assert(o[i] == r[i - 1]);
                assert(r[i - 1] == fold_ref2(sc.func(), n, rest.take(i - 1 + 1)));
            }
        }
    }
}

/// A scan outputs one accumulator per input: for the input at `i`, the fold
/// of the inputs up to and including it from the initial accumulator.
pub proof fn law_scan_outputs<F: Fn(&S, &T) -> S, T, S: Clone>(sc: Scan<F, T, S>, xs: Seq<T>)
    ensures
        outputs(sc, xs).len() == xs.len(),
        forall|i: int|
            0 <= i < xs.len() ==> #[trigger] outputs(sc, xs)[i] == fold_ref2(
                sc.func(),
                sc.initial(),
                xs.take(i + 1),
            ),
{
    lemma_scan_run(sc, sc.initial(), xs);
}

/// Partitioning by `p` loses and repeats nothing: the part that satisfies `p`
/// and the part that does not are together as long as what was split, and
/// each part holds only what belongs in it.
pub proof fn law_partition_total<U, P: Fn(&U) -> bool>(s: Seq<U>, p: P)
    ensures
        s.filter(passes(p)).len() + s.filter(fails(p)).len() == s.len(),
        forall|i: int|
            0 <= i < s.filter(passes(p)).len() ==> pred_app(p, #[trigger] s.filter(passes(p))[i]),
        forall|i: int|
            0 <= i < s.filter(fails(p)).len() ==> !pred_app(p, #[trigger] s.filter(fails(p))[i]),
    decreases s.len(),
{
    broadcast use vstd::seq_lib::group_filter_ensures;

    reveal_with_fuel(Seq::filter, 1);
    if s.len() > 0 {
        law_partition_total(s.drop_first(), p);
        assert(s =~= seq![s[0]] + s.drop_first());
        s.drop_first().lemma_filter_prepend(s[0], passes(p));
        s.drop_first().lemma_filter_prepend(s[0], fails(p));
    }
    assert forall|i: int| 0 <= i < s.filter(passes(p)).len() implies pred_app(
        p,
        #[trigger] s.filter(passes(p))[i],
    ) by {
        assert(passes(p)(s.filter(passes(p))[i]));
    }
    assert forall|i: int| 0 <= i < s.filter(fails(p)).len() implies !pred_app(
        p,
        #[trigger] s.filter(fails(p))[i],
    ) by {
        assert(fails(p)(s.filter(fails(p))[i]));
    }
}

/// The full chunks of `n` elements of `t`, in order.
pub open spec fn chunks_of<T>(t: Seq<T>, n: nat) -> Seq<Seq<T>>
    decreases t.len(),
{
    if n == 0 || t.len() < n {
        Seq::empty()
    } else {
        seq![t.take(n as int)] + chunks_of(t.skip(n as int), n)
    }
}

/// What is left of `t` after its full chunks of `n` elements.
pub open spec fn rest_of<T>(t: Seq<T>, n: nat) -> Seq<T>
    decreases t.len(),
{
    if n == 0 || t.len() < n {
        t
    } else {
        rest_of(t.skip(n as int), n)
    }
}

/// The steps of a chunk transducer over `xs` from the gathered elements `b`,
/// each chunk taken by its elements: the elements gathered at the end, and
/// the chunks emitted.
pub open spec fn chunk_run<T>(c: Chunk<T>, b: Seq<T>, xs: Seq<T>) -> (Seq<T>, Seq<Seq<T>>)
    decreases xs.len(),
{
    if xs.len() == 0 {
        (b, Seq::empty())
    } else {
        let (b1, e) = c.chunk_step(b, xs[0]);
        let (b2, cs) = chunk_run(c, b1, xs.drop_first());
        (
            b2,
            match e {
                Some(ch) => seq![ch] + cs,
                None => cs,
            },
        )
    }
}

/// Chunking `xs` and then `x` is chunking `xs` and taking one more step.
pub proof fn lemma_chunk_run_push<T>(c: Chunk<T>, b: Seq<T>, xs: Seq<T>, x: T)
    ensures
        chunk_run(c, b, xs.push(x)) == ({
            let (b1, cs) = chunk_run(c, b, xs);
            let (b2, e) = c.chunk_step(b1, x);
            (
                b2,
                match e {
                    Some(ch) => cs.push(ch),
                    None => cs,
                },
            )
        }),
    decreases xs.len(),
{
    let ys = xs.push(x);
    assert(ys.len() > 0);
    assert(ys[0] == if xs.len() == 0 { x } else { xs[0] });
    let (b1, e1) = c.chunk_step(b, ys[0]);
    let rest = chunk_run(c, b1, ys.drop_first());
    assert(chunk_run(c, b, ys) == (
        rest.0,
        match e1 {
            Some(ch) => seq![ch] + rest.1,
            None => rest.1,
        },
    ));
    if xs.len() == 0 {
        assert(ys.drop_first() =~= Seq::<T>::empty());
        assert(rest == (b1, Seq::<Seq<T>>::empty()));
        assert(chunk_run(c, b, xs) == (b, Seq::<Seq<T>>::empty()));
        match e1 {
            Some(ch) => {
                assert(seq![ch] + Seq::<Seq<T>>::empty() =~= Seq::<Seq<T>>::empty().push(ch));
            },
            None => {},
        }
    } else {
        assert(ys.drop_first() =~= xs.drop_first().push(x));
        lemma_chunk_run_push(c, b1, xs.drop_first(), x);
        let (b3, cs) = chunk_run(c, b1, xs.drop_first());
        let (b4, e) = c.chunk_step(b3, x);
        match e1 {
            Some(ch1) => {
                match e {
                    Some(ch) => {
                        assert(seq![ch1] + cs.push(ch) =~= (seq![ch1] + cs).push(ch));
                    },
                    None => {},
                }
            },
            None => {},
        }
    }
}

/// Chunking from fewer than a chunk's worth gathered chunks what was
/// gathered followed by the inputs.
proof fn lemma_chunk_run<T>(c: Chunk<T>, b: Seq<T>, xs: Seq<T>)
    requires
        c.size() > 0,
        b.len() < c.size(),
    ensures
        chunk_run(c, b, xs) == (rest_of(b + xs, c.size() as nat), chunks_of(b + xs, c.size() as nat)),
    decreases xs.len(),
{
    let n = c.size() as nat;
    if xs.len() == 0 {
        assert(b + xs =~= b);
    } else {
        let b1 = b.push(xs[0]);
        assert(b + xs =~= b1 + xs.drop_first());
        if b1.len() == n {
            lemma_chunk_run(c, Seq::empty(), xs.drop_first());
            let t = b + xs;
            assert(t.take(n as int) =~= b1);
            assert(t.skip(n as int) =~= xs.drop_first());
            assert(Seq::<T>::empty() + xs.drop_first() =~= xs.drop_first());
        } else {
            lemma_chunk_run(c, b1, xs.drop_first());
        }
    }
}

/// The chunks of `t` are each of `n` elements, fewer than `n` are left, and
/// the chunks followed by what is left are `t`.
pub proof fn lemma_chunks_of<T>(t: Seq<T>, n: nat)
    requires
        n > 0,
    ensures
        forall|i: int| 0 <= i < chunks_of(t, n).len() ==> (#[trigger] chunks_of(t, n)[i]).len() == n,
        rest_of(t, n).len() < n,
        chunks_of(t, n).flatten() + rest_of(t, n) == t,
    decreases t.len(),
{
    if t.len() < n {
        assert(chunks_of(t, n).flatten() =~= Seq::<T>::empty());
        assert(Seq::<T>::empty() + t =~= t);
    } else {
        let r = t.skip(n as int);
        lemma_chunks_of(r, n);
        let cs = chunks_of(t, n);
        assert(cs.drop_first() =~= chunks_of(r, n));
        assert(cs.flatten() == t.take(n as int) + chunks_of(r, n).flatten());
        assert(t.take(n as int) + chunks_of(r, n).flatten() + rest_of(r, n) =~= t);
        assert forall|i: int| 0 <= i < cs.len() implies (#[trigger] cs[i]).len() == n by {
            if i > 0 {
                assert(cs[i] == chunks_of(r, n)[i - 1]);
            }
        }
    }
}

/// A chunk transducer of size `n` emits, in order, the full chunks of `n`
/// inputs and drops a partial tail: the chunks it emits over `xs`, each of
/// `n` elements, followed by what it still holds (fewer than `n`), are `xs`.
pub proof fn law_chunk_outputs<T>(c: Chunk<T>, xs: Seq<T>)
    requires
        c.size() > 0,
    ensures
        chunk_run(c, Seq::empty(), xs).1 == chunks_of(xs, c.size() as nat),
        chunk_run(c, Seq::empty(), xs).0 == rest_of(xs, c.size() as nat),
        forall|i: int|
            0 <= i < chunk_run(c, Seq::empty(), xs).1.len() ==> (#[trigger] chunk_run(
                c,
                Seq::empty(),
                xs,
            ).1[i]).len() == c.size(),
        chunk_run(c, Seq::empty(), xs).1.flatten() + chunk_run(c, Seq::empty(), xs).0 == xs,
{
    lemma_chunk_run(c, Seq::empty(), xs);
    assert(Seq::<T>::empty() + xs =~= xs);
    lemma_chunks_of(xs, c.size() as nat);
}

/// Rejecting with `p` outputs what filtering with a predicate `q` that
/// answers the opposite of `p` outputs.
pub proof fn law_reject_is_filter_of_negation<P: Fn(&T) -> bool, Q: Fn(&T) -> bool, T>(
    r: Reject<P, T>,
    f: Filter<Q, T>,
    xs: Seq<T>,
)
    requires
        forall|x: T| #[trigger] pred_app(f.pred(), x) == !pred_app(r.pred(), x),
    ensures
        outputs(r, xs) == outputs(f, xs),
{
    law_reject_outputs(r, xs);
    law_filter_outputs(f, xs);
    assert(fails(r.pred()) =~= passes(f.pred()));
}

} // verus!
