//! Collectors that order the outputs: minimum and maximum (by value or by a
//! key), sorting by a key or a comparator, and the greatest `k`.
//!
//! Orders are taken from `Ord` (its `cmp`) or from a comparator closure.
//! Results are stated over the order's spec (`cmp_spec`, or the comparator's
//! answers) and hold when the order is lawful.

use crate::collectors::{first_n, idx, lemma_consume, to_vec};
use crate::fnspec::{ref2_app, ref2_det, ref2_total, ref_fn_app, ref_fn_det, ref_fn_total};
use crate::transducer::{outputs, reversed, Transducer};
use std::cmp::Ordering;
use vstd::laws_cmp::obeys_cmp;
use vstd::prelude::*;
use vstd::std_specs::cmp::{OrdSpec, PartialEqSpec, PartialOrdSpec};

verus! {

broadcast use vstd::seq_lib::group_to_multiset_ensures;

/// The minimum of a non-empty `s` under `cmp`, keeping the earliest of equal
/// candidates: a later element replaces the candidate only if the candidate
/// compares greater.
pub open spec fn min_fold<U: Ord>(s: Seq<U>) -> U
    decreases s.len(),
{
    if s.len() <= 1 {
        s[0]
    } else {
        let m = min_fold(s.drop_last());
        if m.cmp_spec(&s.last()) == Ordering::Greater {
            s.last()
        } else {
            m
        }
    }
}

/// The maximum of a non-empty `s` under `cmp`, keeping the latest of equal
/// candidates: a later element replaces the candidate unless the candidate
/// compares greater.
pub open spec fn max_fold<U: Ord>(s: Seq<U>) -> U
    decreases s.len(),
{
    if s.len() <= 1 {
        s[0]
    } else {
        let m = max_fold(s.drop_last());
        if m.cmp_spec(&s.last()) == Ordering::Greater {
            m
        } else {
            s.last()
        }
    }
}

/// The element of a non-empty `s` with the least key, keeping the earliest
/// of equal keys.
pub open spec fn min_by_fold<U, K: Ord, F: Fn(&U) -> K>(s: Seq<U>, f: F) -> U
    decreases s.len(),
{
    if s.len() <= 1 {
        s[0]
    } else {
        let m = min_by_fold(s.drop_last(), f);
        if ref_fn_app(f, m).cmp_spec(&ref_fn_app(f, s.last())) == Ordering::Greater {
            s.last()
        } else {
            m
        }
    }
}

/// The element of a non-empty `s` with the greatest key, keeping the latest
/// of equal keys.
pub open spec fn max_by_fold<U, K: Ord, F: Fn(&U) -> K>(s: Seq<U>, f: F) -> U
    decreases s.len(),
{
    if s.len() <= 1 {
        s[0]
    } else {
        let m = max_by_fold(s.drop_last(), f);
        if ref_fn_app(f, m).cmp_spec(&ref_fn_app(f, s.last())) == Ordering::Greater {
            m
        } else {
            s.last()
        }
    }
}

/// The smallest output (the first of equal smallest ones).
pub fn min<T, U: Ord, X: Transducer<T, U>>(transducer: &X, source: Vec<T>) -> (r: Option<U>)
    requires
        transducer.callable(),
    ensures
        transducer.lawful() && U::obeys_cmp_spec() ==> r == {
            let outs = outputs(*transducer, source@);
            if outs.len() == 0 {
                None
            } else {
                Some(min_fold(outs))
            }
        },
{
    let ghost src = source@;
    let all = to_vec(transducer, source);
    let ghost all0 = all@;
    if all.len() == 0 {
        return None;
    }
    let mut rev = reversed(all);
    let ghost before = rev@;
    let mut best = rev.pop().unwrap();
    let ghost mut done: Seq<U> = seq![best];
    proof {
        lemma_consume(Seq::<U>::empty(), before, best);
        assert(Seq::<U>::empty().push(best) =~= done);
        assert(Seq::<U>::empty() + before.reverse() =~= all0);
    }
    while rev.len() > 0
        invariant
            done + rev@.reverse() == all0,
            done.len() > 0,
            U::obeys_cmp_spec() ==> best == min_fold(done),
        decreases rev.len(),
    {
        let ghost before = rev@;
        let x = rev.pop().unwrap();
        proof {
            lemma_consume(done, before, x);
            assert(done.push(x).drop_last() =~= done);
        }
        let o = best.cmp(&x);
        match o {
            Ordering::Greater => {
                best = x;
            },
            _ => {},
        }
        proof {
            done = done.push(x);
        }
    }
    assert(done =~= all0);
    Some(best)
}

/// The greatest output (the last of equal greatest ones).
pub fn max<T, U: Ord, X: Transducer<T, U>>(transducer: &X, source: Vec<T>) -> (r: Option<U>)
    requires
        transducer.callable(),
    ensures
        transducer.lawful() && U::obeys_cmp_spec() ==> r == {
            let outs = outputs(*transducer, source@);
            if outs.len() == 0 {
                None
            } else {
                Some(max_fold(outs))
            }
        },
{
    let ghost src = source@;
    let all = to_vec(transducer, source);
    let ghost all0 = all@;
    if all.len() == 0 {
        return None;
    }
    let mut rev = reversed(all);
    let ghost before = rev@;
    let mut best = rev.pop().unwrap();
    let ghost mut done: Seq<U> = seq![best];
    proof {
        lemma_consume(Seq::<U>::empty(), before, best);
        assert(Seq::<U>::empty().push(best) =~= done);
        assert(Seq::<U>::empty() + before.reverse() =~= all0);
    }
    while rev.len() > 0
        invariant
            done + rev@.reverse() == all0,
            done.len() > 0,
            U::obeys_cmp_spec() ==> best == max_fold(done),
        decreases rev.len(),
    {
        let ghost before = rev@;
        let x = rev.pop().unwrap();
        proof {
            lemma_consume(done, before, x);
            assert(done.push(x).drop_last() =~= done);
        }
        let o = best.cmp(&x);
        match o {
            Ordering::Greater => {},
            _ => {
                best = x;
            },
        }
        proof {
            done = done.push(x);
        }
    }
    assert(done =~= all0);
    Some(best)
}

/// The output with the smallest key (the first of equal smallest keys).
pub fn min_by<T, U, K: Ord, X: Transducer<T, U>, F: Fn(&U) -> K>(
    transducer: &X,
    source: Vec<T>,
    key_fn: F,
) -> (r: Option<U>)
    requires
        transducer.callable(),
        ref_fn_total(key_fn),
    ensures
        transducer.lawful() && ref_fn_det(key_fn) && K::obeys_cmp_spec() ==> r == {
            let outs = outputs(*transducer, source@);
            if outs.len() == 0 {
                None
            } else {
                Some(min_by_fold(outs, key_fn))
            }
        },
{
    let ghost src = source@;
    let all = to_vec(transducer, source);
    let ghost all0 = all@;
    if all.len() == 0 {
        return None;
    }
    let mut rev = reversed(all);
    let ghost before = rev@;
    let mut best = rev.pop().unwrap();
    let mut best_key = key_fn(&best);
    let ghost mut done: Seq<U> = seq![best];
    proof {
        lemma_consume(Seq::<U>::empty(), before, best);
        assert(Seq::<U>::empty().push(best) =~= done);
        assert(Seq::<U>::empty() + before.reverse() =~= all0);
    }
    while rev.len() > 0
        invariant
            done + rev@.reverse() == all0,
            done.len() > 0,
            ref_fn_total(key_fn),
            ref_fn_det(key_fn) ==> best_key == ref_fn_app(key_fn, best),
            ref_fn_det(key_fn) && K::obeys_cmp_spec() ==> best == min_by_fold(done, key_fn),
        decreases rev.len(),
    {
        let ghost before = rev@;
        let x = rev.pop().unwrap();
        proof {
            lemma_consume(done, before, x);
            assert(done.push(x).drop_last() =~= done);
        }
        let k = key_fn(&x);
        let o = best_key.cmp(&k);
        match o {
            Ordering::Greater => {
                best = x;
                best_key = k;
            },
            _ => {},
        }
        proof {
            done = done.push(x);
        }
    }
    assert(done =~= all0);
    Some(best)
}

/// The output with the greatest key (the last of equal greatest keys).
pub fn max_by<T, U, K: Ord, X: Transducer<T, U>, F: Fn(&U) -> K>(
    transducer: &X,
    source: Vec<T>,
    key_fn: F,
) -> (r: Option<U>)
    requires
        transducer.callable(),
        ref_fn_total(key_fn),
    ensures
        transducer.lawful() && ref_fn_det(key_fn) && K::obeys_cmp_spec() ==> r == {
            let outs = outputs(*transducer, source@);
            if outs.len() == 0 {
                None
            } else {
                Some(max_by_fold(outs, key_fn))
            }
        },
{
    let ghost src = source@;
    let all = to_vec(transducer, source);
    let ghost all0 = all@;
    if all.len() == 0 {
        return None;
    }
    let mut rev = reversed(all);
    let ghost before = rev@;
    let mut best = rev.pop().unwrap();
    let mut best_key = key_fn(&best);
    let ghost mut done: Seq<U> = seq![best];
    proof {
        lemma_consume(Seq::<U>::empty(), before, best);
        assert(Seq::<U>::empty().push(best) =~= done);
        assert(Seq::<U>::empty() + before.reverse() =~= all0);
    }
    while rev.len() > 0
        invariant
            done + rev@.reverse() == all0,
            done.len() > 0,
            ref_fn_total(key_fn),
            ref_fn_det(key_fn) ==> best_key == ref_fn_app(key_fn, best),
            ref_fn_det(key_fn) && K::obeys_cmp_spec() ==> best == max_by_fold(done, key_fn),
        decreases rev.len(),
    {
        let ghost before = rev@;
        let x = rev.pop().unwrap();
        proof {
            lemma_consume(done, before, x);
            assert(done.push(x).drop_last() =~= done);
        }
        let k = key_fn(&x);
        let o = best_key.cmp(&k);
        match o {
            Ordering::Greater => {},
            _ => {
                best = x;
                best_key = k;
            },
        }
        proof {
            done = done.push(x);
        }
    }
    assert(done =~= all0);
    Some(best)
}


/// `s` is in order under `rel`: no element compares greater than a later one.
pub open spec fn sorted_by<A>(s: Seq<A>, rel: spec_fn(A, A) -> Ordering) -> bool {
    forall|i: int, j: int|
        #![trigger s[i], s[j]]
        0 <= i < j < s.len() ==> rel(s[i], s[j]) != Ordering::Greater
}

/// `rel` orders totally: `a` is greater than `b` exactly when `b` is less than
/// `a`, and being at most is transitive.
pub open spec fn total_order<A>(rel: spec_fn(A, A) -> Ordering) -> bool {
    &&& forall|a: A, b: A| #[trigger]
        rel(a, b) == Ordering::Greater <==> rel(b, a) == Ordering::Less
    &&& forall|a: A, b: A, c: A|
        #![trigger rel(a, b), rel(b, c)]
        rel(a, b) != Ordering::Greater && rel(b, c) != Ordering::Greater ==> rel(a, c)
            != Ordering::Greater
}

/// Every answer of the comparator `f` is the one that `rel` gives.
pub open spec fn answers_as<A, F: Fn(&A, &A) -> Ordering>(
    f: F,
    rel: spec_fn(A, A) -> Ordering,
) -> bool {
    forall|a: A, b: A, o: Ordering| #[trigger] call_ensures(f, (&a, &b), o) ==> o == rel(a, b)
}

/// The order of `Ord`.
pub open spec fn ascending<A: Ord>() -> spec_fn(A, A) -> Ordering {
    |a: A, b: A| a.cmp_spec(&b)
}

/// The reverse of the order of `Ord`.
pub open spec fn descending<A: Ord>() -> spec_fn(A, A) -> Ordering {
    |a: A, b: A| b.cmp_spec(&a)
}

/// The order that compares keys under `f`.
pub open spec fn by_key<U, K: Ord, F: Fn(&U) -> K>(f: F) -> spec_fn(U, U) -> Ordering {
    |a: U, b: U| ref_fn_app(f, a).cmp_spec(&ref_fn_app(f, b))
}

/// The order that a comparator closure gives.
pub open spec fn by_comparator<U, F: Fn(&U, &U) -> Ordering>(f: F) -> spec_fn(U, U) -> Ordering {
    |a: U, b: U| ref2_app(f, a, b)
}

/// A lawful `Ord` is a total order.
pub proof fn lemma_ascending_total<A: Ord>()
    requires
        obeys_cmp::<A>(),
    ensures
        total_order(ascending::<A>()),
{
    reveal(vstd::laws_cmp::obeys_partial_cmp_spec_properties);
    reveal(vstd::laws_cmp::obeys_cmp_partial_ord);
    reveal(vstd::laws_cmp::obeys_cmp_ord);
    reveal(vstd::laws_eq::obeys_eq_spec_properties);
    let rel = ascending::<A>();
    assert forall|a: A, b: A| #[trigger]
        rel(a, b) == Ordering::Greater <==> rel(b, a) == Ordering::Less by {
        assert(a.partial_cmp_spec(&b) == Some(a.cmp_spec(&b)));
        assert(b.partial_cmp_spec(&a) == Some(b.cmp_spec(&a)));
    }
    assert forall|a: A, b: A, c: A|
        #![trigger rel(a, b), rel(b, c)]
        rel(a, b) != Ordering::Greater && rel(b, c) != Ordering::Greater implies rel(a, c)
            != Ordering::Greater by {
        assert(a.partial_cmp_spec(&b) == Some(a.cmp_spec(&b)));
        assert(b.partial_cmp_spec(&a) == Some(b.cmp_spec(&a)));
        assert(b.partial_cmp_spec(&c) == Some(b.cmp_spec(&c)));
        assert(c.partial_cmp_spec(&b) == Some(c.cmp_spec(&b)));
        assert(a.partial_cmp_spec(&c) == Some(a.cmp_spec(&c)));
        assert(c.partial_cmp_spec(&a) == Some(c.cmp_spec(&a)));
        if a.cmp_spec(&c) == Ordering::Greater {
            if a.cmp_spec(&b) == Ordering::Equal && b.cmp_spec(&c) == Ordering::Equal {
                assert(a.eq_spec(&b));
                assert(b.eq_spec(&c));
                assert(a.eq_spec(&c));
            } else if a.cmp_spec(&b) == Ordering::Equal {
                assert(c.partial_cmp_spec(&a) == Some(Ordering::Less));
                assert(b.partial_cmp_spec(&c) == Some(Ordering::Less));
                assert(b.partial_cmp_spec(&a) == Some(Ordering::Less));
            } else if b.cmp_spec(&c) == Ordering::Equal {
                assert(c.partial_cmp_spec(&a) == Some(Ordering::Less));
                assert(a.partial_cmp_spec(&b) == Some(Ordering::Less));
                assert(c.partial_cmp_spec(&b) == Some(Ordering::Less));
            } else {
                assert(a.partial_cmp_spec(&b) == Some(Ordering::Less));
                assert(b.partial_cmp_spec(&c) == Some(Ordering::Less));
            }
        }
    }
}

/// Reversing a total order gives a total order.
pub proof fn lemma_reversed_total<A: Ord>()
    requires
        obeys_cmp::<A>(),
    ensures
        total_order(descending::<A>()),
{
    lemma_ascending_total::<A>();
    let asc = ascending::<A>();
    let rel = descending::<A>();
    assert forall|a: A, b: A| #[trigger]
        rel(a, b) == Ordering::Greater <==> rel(b, a) == Ordering::Less by {
        assert(asc(b, a) == Ordering::Greater <==> asc(a, b) == Ordering::Less);
    }
    assert forall|a: A, b: A, c: A|
        #![trigger rel(a, b), rel(b, c)]
        rel(a, b) != Ordering::Greater && rel(b, c) != Ordering::Greater implies rel(a, c)
            != Ordering::Greater by {
        assert(asc(c, b) != Ordering::Greater && asc(b, a) != Ordering::Greater ==> asc(c, a)
            != Ordering::Greater);
    }
}

/// Ordering by keys under a lawful `Ord` is a total order.
pub proof fn lemma_by_key_total<U, K: Ord, F: Fn(&U) -> K>(f: F)
    requires
        obeys_cmp::<K>(),
    ensures
        total_order(by_key(f)),
{
    lemma_ascending_total::<K>();
    let asc = ascending::<K>();
    let rel = by_key(f);
    assert forall|a: U, b: U| #[trigger]
        rel(a, b) == Ordering::Greater <==> rel(b, a) == Ordering::Less by {
        let (ka, kb) = (ref_fn_app(f, a), ref_fn_app(f, b));
        assert(asc(ka, kb) == Ordering::Greater <==> asc(kb, ka) == Ordering::Less);
    }
    assert forall|a: U, b: U, c: U|
        #![trigger rel(a, b), rel(b, c)]
        rel(a, b) != Ordering::Greater && rel(b, c) != Ordering::Greater implies rel(a, c)
            != Ordering::Greater by {
        let (ka, kb, kc) = (ref_fn_app(f, a), ref_fn_app(f, b), ref_fn_app(f, c));
        assert(asc(ka, kb) != Ordering::Greater && asc(kb, kc) != Ordering::Greater ==> asc(
            ka,
            kc,
        ) != Ordering::Greater);
    }
}

/// The key function behind `f` may be called on every argument.
pub open spec fn keys_total<U, K, F: Fn(&U) -> K>(f: &F) -> bool {
    ref_fn_total(*f)
}

/// A call of the key function behind `f` on `a` may return `k`.
pub open spec fn gives_key<U, K, F: Fn(&U) -> K>(f: &F, a: U, k: K) -> bool {
    call_ensures(*f, (&a,), k)
}

/// `r` arranges the elements of `v` as `perm` says, `r[k]` being `v[perm[k]]`
/// for distinct positions `perm[k]`, and stably under `rel`: of two elements
/// of `r` that compare equal, the first came first in `v`.
pub open spec fn stable_arrangement<A>(
    v: Seq<A>,
    r: Seq<A>,
    perm: Seq<int>,
    rel: spec_fn(A, A) -> Ordering,
) -> bool {
    &&& r.len() == v.len()
    &&& perm.len() == r.len()
    &&& forall|k: int| 0 <= k < r.len() ==> 0 <= #[trigger] perm[k] < v.len() && r[k] == v[perm[k]]
    &&& forall|k1: int, k2: int|
        #![trigger perm[k1], perm[k2]]
        0 <= k1 < k2 < r.len() ==> perm[k1] != perm[k2]
    &&& forall|k1: int, k2: int|
        #![trigger r[k1], r[k2]]
        0 <= k1 < k2 < r.len() && rel(r[k1], r[k2]) == Ordering::Equal ==> perm[k1] < perm[k2]
}

/// Sort `v` with the comparator `f` by insertion: stable, and each element
/// is placed after every earlier one that does not compare greater.
fn insertion_sort<A, F: Fn(&A, &A) -> Ordering>(
    v: Vec<A>,
    f: &F,
    rel: Ghost<spec_fn(A, A) -> Ordering>,
) -> (r: Vec<A>)
    requires
        ref2_total(*f),
    ensures
        r@.to_multiset() == v@.to_multiset(),
        answers_as(*f, rel@) && total_order(rel@) ==> sorted_by(r@, rel@),
        answers_as(*f, rel@) && total_order(rel@) ==> exists|perm: Seq<int>|
            stable_arrangement(v@, r@, perm, rel@),
{
    let ghost v0 = v@;
    let ghost valid = answers_as(*f, rel@) && total_order(rel@);
    let mut rev = reversed(v);
    let ghost mut done: Seq<A> = Seq::empty();
    let ghost mut perm: Seq<int> = Seq::empty();
    let mut out: Vec<A> = Vec::new();
    proof {
        assert(done + rev@.reverse() =~= v0);
        assert(out@ =~= done);
    }
    while rev.len() > 0
        invariant
            done + rev@.reverse() == v0,
            out@.to_multiset() == done.to_multiset(),
            ref2_total(*f),
            valid == (answers_as(*f, rel@) && total_order(rel@)),
            valid ==> sorted_by(out@, rel@),
            valid ==> stable_arrangement(done, out@, perm, rel@),
        decreases rev.len(),
    {
        let ghost before = rev@;
        let x = rev.pop().unwrap();
        proof {
            lemma_consume(done, before, x);
        }
        let mut p: usize = out.len();
        loop
            invariant
                p <= out.len(),
                ref2_total(*f),
                valid == (answers_as(*f, rel@) && total_order(rel@)),
                valid ==> forall|k: int| p <= k < out.len() ==> rel@(#[trigger] out@[k], x)
                    == Ordering::Greater,
            ensures
                p <= out.len(),
                valid ==> forall|k: int| p <= k < out.len() ==> rel@(#[trigger] out@[k], x)
                    == Ordering::Greater,
                valid && p > 0 ==> rel@(out@[p - 1], x) != Ordering::Greater,
            decreases p,
        {
            if p == 0 {
                break;
            }
            let o = f(&out[p - 1], &x);
            match o {
                Ordering::Greater => {
                    p = p - 1;
                },
                _ => {
                    break;
                },
            }
        }
        let ghost old_out = out@;
        out.insert(p, x);
        proof {
            vstd::seq_lib::to_multiset_insert(old_out, idx(p), x);
            vstd::seq_lib::to_multiset_build(done, x);
            if valid {
                let n = out@;
                let t: int = done.len() - 0;
                let d2 = done.push(x);
                let np = perm.insert(idx(p), t);
                assert forall|k: int| 0 <= k < n.len() implies 0 <= #[trigger] np[k] < d2.len() && n[k]
                    == d2[np[k]] by {
                    if k < p {
                        assert(np[k] == perm[k] && n[k] == old_out[k]);
                    } else if k > p {
                        assert(np[k] == perm[k - 1] && n[k] == old_out[k - 1]);
                    }
                }
                assert forall|k1: int, k2: int| 0 <= k1 < k2 < n.len() implies #[trigger] np[k1]
                    != #[trigger] np[k2] by {
                    if k1 < p && k2 < p {
                        assert(np[k1] == perm[k1] && np[k2] == perm[k2]);
                    } else if k1 < p && k2 == p {
                        assert(np[k1] == perm[k1]);
                    } else if k1 < p {
                        assert(np[k1] == perm[k1] && np[k2] == perm[k2 - 1]);
                    } else if k1 == p {
                        assert(np[k2] == perm[k2 - 1]);
                    } else {
                        assert(np[k1] == perm[k1 - 1] && np[k2] == perm[k2 - 1]);
                    }
                }
                assert forall|k1: int, k2: int|
                    0 <= k1 < k2 < n.len() && rel@(#[trigger] n[k1], #[trigger] n[k2])
                        == Ordering::Equal implies np[k1] < np[k2] by {
                    if k1 < p && k2 < p {
                        assert(np[k1] == perm[k1] && np[k2] == perm[k2]);
                        assert(n[k1] == old_out[k1] && n[k2] == old_out[k2]);
                    } else if k1 < p && k2 == p {
                        assert(np[k1] == perm[k1]);
                        assert(n[k1] == old_out[k1]);
                    } else if k1 < p {
                        assert(np[k1] == perm[k1] && np[k2] == perm[k2 - 1]);
                        assert(n[k1] == old_out[k1] && n[k2] == old_out[k2 - 1]);
                    } else if k1 == p {
                        assert(n[k1] == x && n[k2] == old_out[k2 - 1]);
                        assert(rel@(old_out[k2 - 1], x) == Ordering::Greater);
                    } else {
                        assert(np[k1] == perm[k1 - 1] && np[k2] == perm[k2 - 1]);
                        assert(n[k1] == old_out[k1 - 1] && n[k2] == old_out[k2 - 1]);
                    }
                }
                perm = np;
                assert forall|i: int, j: int| 0 <= i < j < n.len() implies #[trigger] rel@(n[i], n[j])
                    != Ordering::Greater by {
                    if j < p {
                        assert(n[i] == old_out[i] && n[j] == old_out[j]);
                    } else if j == p {
                        assert(n[j] == x);
                        assert(n[i] == old_out[i]);
                        if i < p - 1 {
                            assert(rel@(old_out[i], old_out[p - 1]) != Ordering::Greater);
                        }
                    } else if i < p {
                        assert(n[i] == old_out[i] && n[j] == old_out[j - 1]);
                    } else if i == p {
                        assert(n[i] == x && n[j] == old_out[j - 1]);
                        assert(rel@(old_out[j - 1], x) == Ordering::Greater);
                    } else {
                        assert(n[i] == old_out[i - 1] && n[j] == old_out[j - 1]);
                    }
                }
            }
            done = done.push(x);
        }
    }
    assert(done =~= v0);
    out
}

/// The outputs sorted with a comparator; equal elements keep their order.
pub fn sort_with<T, U, X: Transducer<T, U>, F: Fn(&U, &U) -> Ordering>(
    transducer: &X,
    source: Vec<T>,
    comparator: F,
) -> (r: Vec<U>)
    requires
        transducer.callable(),
        ref2_total(comparator),
    ensures
        transducer.lawful() ==> r@.to_multiset() == outputs(*transducer, source@).to_multiset(),
        transducer.lawful() && ref2_det(comparator) && total_order(by_comparator(comparator))
            ==> sorted_by(r@, by_comparator(comparator)),
        transducer.lawful() && ref2_det(comparator) && total_order(by_comparator(comparator))
            ==> exists|perm: Seq<int>|
            stable_arrangement(
                outputs(*transducer, source@),
                r@,
                perm,
                by_comparator(comparator),
            ),
{
    let all = to_vec(transducer, source);
    let ghost rel = by_comparator(comparator);
    proof {
        if ref2_det(comparator) {
            assert forall|a: U, b: U, o: Ordering| #[trigger]
                call_ensures(comparator, (&a, &b), o) implies o == rel(a, b) by {}
        }
    }
    insertion_sort(all, &comparator, Ghost(rel))
}

/// The outputs sorted by a key; equal keys keep their order. The key function
/// is called on both sides of each comparison.
pub fn sort_by<T, U, K: Ord, X: Transducer<T, U>, F: Fn(&U) -> K>(
    transducer: &X,
    source: Vec<T>,
    key_fn: F,
) -> (r: Vec<U>)
    requires
        transducer.callable(),
        ref_fn_total(key_fn),
    ensures
        transducer.lawful() ==> r@.to_multiset() == outputs(*transducer, source@).to_multiset(),
        transducer.lawful() && ref_fn_det(key_fn) && obeys_cmp::<K>() ==> sorted_by(
            r@,
            by_key(key_fn),
        ),
        transducer.lawful() && ref_fn_det(key_fn) && obeys_cmp::<K>() ==> exists|perm: Seq<int>|
            stable_arrangement(outputs(*transducer, source@), r@, perm, by_key(key_fn)),
{
    let all = to_vec(transducer, source);
    let kf = &key_fn;
    let compare = |a: &U, b: &U| -> (o: Ordering)
        requires
            keys_total(kf),
        ensures
            exists|ka: K, kb: K|
                {
                    &&& gives_key(kf, *a, ka)
                    &&& gives_key(kf, *b, kb)
                    &&& K::obeys_cmp_spec() ==> o == ka.cmp_spec(&kb)
                },
        {
            let ka = kf(a);
            let kb = kf(b);
            let o = ka.cmp(&kb);
            proof {
                assert(gives_key(kf, *a, ka));
                assert(gives_key(kf, *b, kb));
                assert(gives_key(kf, *a, ka) && gives_key(kf, *b, kb) && (K::obeys_cmp_spec() ==> o
                    == ka.cmp_spec(&kb)));
            }
            o
        };
    let ghost rel = by_key(key_fn);
    proof {
        if ref_fn_det(key_fn) && obeys_cmp::<K>() {
            lemma_by_key_total(key_fn);
            assert forall|a: U, b: U, o: Ordering| #[trigger]
                call_ensures(compare, (&a, &b), o) implies o == rel(a, b) by {
                reveal(vstd::laws_cmp::obeys_cmp_ord);
                let (ka, kb) = choose|ka: K, kb: K|
                    {
                        &&& gives_key(kf, a, ka)
                        &&& gives_key(kf, b, kb)
                        &&& K::obeys_cmp_spec() ==> o == ka.cmp_spec(&kb)
                    };
                crate::collectors::lemma_ref_fn_answer(key_fn, a, ka);
                crate::collectors::lemma_ref_fn_answer(key_fn, b, kb);
            }
        }
    }
    insertion_sort(all, &compare, Ghost(rel))
}

/// The `k` greatest outputs, greatest first (all of them when there are at
/// most `k`).
pub fn top_k<T, U: Ord, X: Transducer<T, U>>(transducer: &X, source: Vec<T>, k: usize) -> (r: Vec<
    U,
>)
    requires
        transducer.callable(),
    ensures
        transducer.lawful() && k < outputs(*transducer, source@).len() ==> r@.len() == k,
        transducer.lawful() && k >= outputs(*transducer, source@).len() ==> r@.len() == outputs(
            *transducer,
            source@,
        ).len(),
        transducer.lawful() && obeys_cmp::<U>() ==> exists|s: Seq<U>|
            {
                &&& s.to_multiset() == outputs(*transducer, source@).to_multiset()
                &&& sorted_by(s, descending::<U>())
                &&& r@ == first_n(s, r@.len())
            },
{
    let all = to_vec(transducer, source);
    let compare = |a: &U, b: &U| -> (o: Ordering)
        ensures
            U::obeys_cmp_spec() ==> o == b.cmp_spec(a),
        {
            b.cmp(a)
        };
    let ghost rel = descending::<U>();
    proof {
        if obeys_cmp::<U>() {
            reveal(vstd::laws_cmp::obeys_cmp_ord);
            lemma_reversed_total::<U>();
            assert forall|a: U, b: U, o: Ordering| #[trigger]
                call_ensures(compare, (&a, &b), o) implies o == rel(a, b) by {}
        }
    }
    let ghost all0 = all@;
    let mut sorted = insertion_sort(all, &compare, Ghost(rel));
    let ghost s = sorted@;
    proof {
        vstd::seq_lib::to_multiset_len(s);
        vstd::seq_lib::to_multiset_len(all0);
    }
    if k < sorted.len() {
        sorted.truncate(k);
    }
    proof {
        assert(sorted@ =~= first_n(s, sorted@.len()));
        if transducer.lawful() && obeys_cmp::<U>() {
            assert(s.to_multiset() == all0.to_multiset() && sorted_by(s, descending::<U>())
                && sorted@ == first_n(s, sorted@.len()));
        }
    }
    sorted
}

} // verus!
