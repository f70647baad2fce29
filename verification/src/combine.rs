//! Helpers on plain sequences that sit beside the transducers: zipping,
//! round-robin merging, set-like operations, and generators.

use crate::collectors::{group_views, idx, lemma_consume};
use crate::fnspec::{clone_faithful, fn2_total, ref_fn_app, ref_fn_det, ref_fn_total};
use crate::transducer::reversed;
use std::collections::HashSet;
use std::hash::Hash;
use vstd::prelude::*;
use vstd::std_specs::hash::obeys_key_model;

verus! {

broadcast use vstd::std_specs::hash::group_hash_axioms, vstd::seq_lib::group_seq_properties;

/// The smaller of two lengths.
pub open spec fn min_len(a: nat, b: nat) -> nat {
    if a < b {
        a
    } else {
        b
    }
}

/// The larger of two lengths.
pub open spec fn max_len(a: nat, b: nat) -> nat {
    if a < b {
        b
    } else {
        a
    }
}

/// Pair the elements of two vectors position by position; stops at the end of
/// the shorter one.
pub fn zip<T, U>(iter_a: Vec<T>, iter_b: Vec<U>) -> (r: Vec<(T, U)>)
    ensures
        r@.len() == min_len(iter_a@.len(), iter_b@.len()),
        forall|i: int| 0 <= i < r@.len() ==> #[trigger] r@[i] == (iter_a@[i], iter_b@[i]),
{
    let ghost a0 = iter_a@;
    let ghost b0 = iter_b@;
    let mut ra = reversed(iter_a);
    let mut rb = reversed(iter_b);
    let mut result: Vec<(T, U)> = Vec::new();
    assert(ra@.reverse() =~= a0);
    assert(rb@.reverse() =~= b0);
    while ra.len() > 0 && rb.len() > 0
        invariant
            result@.len() + ra@.len() == a0.len(),
            result@.len() + rb@.len() == b0.len(),
            forall|k: int| 0 <= k < ra@.len() ==> #[trigger] ra@[k] == a0[a0.len() - 1 - k],
            forall|k: int| 0 <= k < rb@.len() ==> #[trigger] rb@[k] == b0[b0.len() - 1 - k],
            forall|i: int| 0 <= i < result@.len() ==> #[trigger] result@[i] == (a0[i], b0[i]),
        decreases ra.len(),
    {
        let ghost n = result@.len();
        let x = ra.pop().unwrap();
        let y = rb.pop().unwrap();
        proof {
            assert(x == a0[a0.len() - 1 - ra@.len()]);
            assert(y == b0[b0.len() - 1 - rb@.len()]);
        }
        result.push((x, y));
        proof {
            assert forall|k: int| 0 <= k < ra@.len() implies #[trigger] ra@[k] == a0[a0.len() - 1 - k] by {}
        }
    }
    result
}

/// Combine the elements of two vectors position by position with `combine`;
/// stops at the end of the shorter one.
pub fn zip_with<T, U, V, F: Fn(T, U) -> V>(iter_a: Vec<T>, iter_b: Vec<U>, combine: F) -> (r: Vec<
    V,
>)
    requires
        fn2_total(combine),
    ensures
        r@.len() == min_len(iter_a@.len(), iter_b@.len()),
        forall|i: int|
            0 <= i < r@.len() ==> call_ensures(combine, (iter_a@[i], iter_b@[i]), #[trigger] r@[i]),
{
    let ghost a0 = iter_a@;
    let ghost b0 = iter_b@;
    let mut ra = reversed(iter_a);
    let mut rb = reversed(iter_b);
    let mut result: Vec<V> = Vec::new();
    assert(ra@.reverse() =~= a0);
    assert(rb@.reverse() =~= b0);
    while ra.len() > 0 && rb.len() > 0
        invariant
            fn2_total(combine),
            result@.len() + ra@.len() == a0.len(),
            result@.len() + rb@.len() == b0.len(),
            forall|k: int| 0 <= k < ra@.len() ==> #[trigger] ra@[k] == a0[a0.len() - 1 - k],
            forall|k: int| 0 <= k < rb@.len() ==> #[trigger] rb@[k] == b0[b0.len() - 1 - k],
            forall|i: int|
                0 <= i < result@.len() ==> call_ensures(combine, (a0[i], b0[i]), #[trigger] result@[i]),
        decreases ra.len(),
    {
        let x = ra.pop().unwrap();
        let y = rb.pop().unwrap();
        proof {
            assert(x == a0[a0.len() - 1 - ra@.len()]);
            assert(y == b0[b0.len() - 1 - rb@.len()]);
        }
        let v = combine(x, y);
        result.push(v);
        proof {
            assert forall|k: int| 0 <= k < ra@.len() implies #[trigger] ra@[k] == a0[a0.len() - 1 - k] by {}
        }
    }
    result
}

/// Pair the elements of two vectors position by position until both end;
/// the shorter one is padded with clones of its fill value.
pub fn zip_longest<T: Clone, U: Clone>(iter_a: Vec<T>, iter_b: Vec<U>, fill_a: T, fill_b: U) -> (r:
    Vec<(T, U)>)
    ensures
        r@.len() == max_len(iter_a@.len(), iter_b@.len()),
        forall|i: int|
            0 <= i < r@.len() ==> {
                &&& (i < iter_a@.len() ==> (#[trigger] r@[i]).0 == iter_a@[i])
                &&& (i >= iter_a@.len() ==> cloned(fill_a, r@[i].0))
                &&& (i < iter_b@.len() ==> r@[i].1 == iter_b@[i])
                &&& (i >= iter_b@.len() ==> cloned(fill_b, r@[i].1))
            },
{
    let ghost a0 = iter_a@;
    let ghost b0 = iter_b@;
    let mut ra = reversed(iter_a);
    let mut rb = reversed(iter_b);
    let mut result: Vec<(T, U)> = Vec::new();
    assert(ra@.reverse() =~= a0);
    assert(rb@.reverse() =~= b0);
    while ra.len() > 0 || rb.len() > 0
        invariant
            ra@.len() <= a0.len(),
            rb@.len() <= b0.len(),
            ra@.len() > 0 ==> result@.len() + ra@.len() == a0.len(),
            ra@.len() == 0 ==> result@.len() >= a0.len(),
            rb@.len() > 0 ==> result@.len() + rb@.len() == b0.len(),
            rb@.len() == 0 ==> result@.len() >= b0.len(),
            result@.len() <= max_len(a0.len(), b0.len()),
            forall|k: int| 0 <= k < ra@.len() ==> #[trigger] ra@[k] == a0[a0.len() - 1 - k],
            forall|k: int| 0 <= k < rb@.len() ==> #[trigger] rb@[k] == b0[b0.len() - 1 - k],
            forall|i: int|
                0 <= i < result@.len() ==> {
                    &&& (i < a0.len() ==> (#[trigger] result@[i]).0 == a0[i])
                    &&& (i >= a0.len() ==> cloned(fill_a, result@[i].0))
                    &&& (i < b0.len() ==> result@[i].1 == b0[i])
                    &&& (i >= b0.len() ==> cloned(fill_b, result@[i].1))
                },
        decreases ra@.len() + rb@.len(),
    {
        let x = if ra.len() > 0 {
            let x = ra.pop().unwrap();
            proof {
                assert(x == a0[a0.len() - 1 - ra@.len()]);
            }
            x
        } else {
            fill_a.clone()
        };
        let y = if rb.len() > 0 {
            let y = rb.pop().unwrap();
            proof {
                assert(y == b0[b0.len() - 1 - rb@.len()]);
            }
            y
        } else {
            fill_b.clone()
        };
        result.push((x, y));
        proof {
            assert forall|k: int| 0 <= k < ra@.len() implies #[trigger] ra@[k] == a0[a0.len() - 1 - k] by {}
            assert forall|k: int| 0 <= k < rb@.len() implies #[trigger] rb@[k] == b0[b0.len() - 1 - k] by {}
        }
    }
    result
}

/// `n` clones of `value`.
pub fn repeat<T: Clone>(value: T, n: usize) -> (r: Vec<T>)
    ensures
        r@.len() == n,
        forall|i: int| 0 <= i < n ==> cloned(value, #[trigger] r@[i]),
{
    let mut result: Vec<T> = Vec::new();
    let mut i: usize = 0;
    while i < n
        invariant
            i <= n,
            result@.len() == i,
            forall|j: int| 0 <= j < i ==> cloned(value, #[trigger] result@[j]),
        decreases n - i,
    {
        let c = value.clone();
        result.push(c);
        i += 1;
    }
    result
}

/// The numbers from `start` towards `end` (exclusive) in steps of `step`.
pub open spec fn range_seq(start: int, end: int, step: int) -> Seq<int>
    decreases (if step > 0 && start < end {
        end - start
    } else if step < 0 && start > end {
        start - end
    } else {
        0
    }),
{
    if step > 0 && start < end {
        seq![start] + range_seq(start + step, end, step)
    } else if step < 0 && start > end {
        seq![start] + range_seq(start + step, end, step)
    } else {
        Seq::empty()
    }
}

/// How far `a` is below `b` (zero when it is not).
pub open spec fn gap(a: int, b: int) -> int {
    if a < b {
        b - a
    } else {
        0
    }
}

/// The values of a vector of `i32` as integers.
pub open spec fn int_values(v: Seq<i32>) -> Seq<int> {
    v.map_values(|x: i32| x as int)
}

/// The numbers from `start` up to `end` (exclusive) in steps of `step`, or
/// down to it when `step` is negative. A zero step never ends, so it is
/// ruled out.
pub fn range(start: i32, end: i32, step: i32) -> (r: Vec<i32>)
    requires
        step != 0,
    ensures
        int_values(r@) == range_seq(start as int, end as int, step as int),
{
    let mut result: Vec<i32> = Vec::new();
    let mut current: i64 = start as i64;
    let ghost target = range_seq(start as int, end as int, step as int);
    proof {
        assert(int_values(result@) + range_seq(current as int, end as int, step as int) =~= target);
    }
    if step > 0 {
        while current < end as i64
            invariant
                step > 0,
                start <= current,
                current <= i32::MAX as i64 + i32::MAX as i64,
                int_values(result@) + range_seq(current as int, end as int, step as int) == target,
            decreases gap(current as int, end as int),
        {
            let ghost before = int_values(result@);
            result.push(current as i32);
            proof {
                assert(int_values(result@) =~= before.push(current as int));
                assert(int_values(result@) + range_seq(current + step, end as int, step as int)
                    =~= before + range_seq(current as int, end as int, step as int));
            }
            current = current + step as i64;
        }
    } else {
        while current > end as i64
            invariant
                step < 0,
                current <= start,
                current >= i32::MIN as i64 + i32::MIN as i64,
                int_values(result@) + range_seq(current as int, end as int, step as int) == target,
            decreases gap(end as int, current as int),
        {
            let ghost before = int_values(result@);
            result.push(current as i32);
            proof {
                assert(int_values(result@) =~= before.push(current as int));
                assert(int_values(result@) + range_seq(current + step, end as int, step as int)
                    =~= before + range_seq(current as int, end as int, step as int));
            }
            current = current + step as i64;
        }
    }
    assert(int_values(result@) =~= int_values(result@) + Seq::<int>::empty());
    result
}

/// What `f` generates from `seed` in at most `limit` steps: each step applies
/// `f` to the last value, and the generation ends at the first `None`.
pub open spec fn unfold_seq<T, F: Fn(&T) -> Option<T>>(f: F, seed: T, limit: nat) -> Seq<T>
    decreases limit,
{
    if limit == 0 {
        Seq::empty()
    } else {
        match ref_fn_app(f, seed) {
            None => Seq::empty(),
            Some(next) => seq![next] + unfold_seq(f, next, (limit - 1) as nat),
        }
    }
}

/// Generate values by applying `f` to the previous one, starting from `seed`,
/// until `f` returns `None` or `limit` values were generated.
pub fn unfold<T: Clone, F: Fn(&T) -> Option<T>>(seed: T, f: F, limit: usize) -> (r: Vec<T>)
    requires
        ref_fn_total(f),
    ensures
        r@.len() <= limit,
        ref_fn_det(f) && clone_faithful::<T>() ==> r@ == unfold_seq(f, seed, limit as nat),
{
    let mut result: Vec<T> = Vec::new();
    let mut current = seed;
    let mut count: usize = 0;
    proof {
        assert(result@ + unfold_seq(f, current, limit as nat) =~= unfold_seq(f, seed, limit as nat));
    }
    while count < limit
        invariant
            count <= limit,
            result@.len() == count,
            ref_fn_total(f),
            ref_fn_det(f) && clone_faithful::<T>() ==> result@ + unfold_seq(
                f,
                current,
                (limit - count) as nat,
            ) == unfold_seq(f, seed, limit as nat),
        decreases limit - count,
    {
        let ghost cur = current;
        match f(&current) {
            Some(next) => {
                proof {
                    if ref_fn_det(f) {
                        crate::collectors::lemma_ref_fn_answer(f, cur, Some(next));
                    }
                }
                let c = next.clone();
                proof {
                    if clone_faithful::<T>() {
                        assert(cloned(next, c));
                    }
                }
                let ghost before = result@;
                result.push(c);
                current = next;
                count += 1;
                proof {
                    if ref_fn_det(f) && clone_faithful::<T>() {
                        assert(result@ + unfold_seq(f, current, (limit - count) as nat) =~= before
                            + unfold_seq(f, cur, (limit - count + 1) as nat));
                    }
                }
            },
            None => {
                proof {
                    if ref_fn_det(f) {
                        crate::collectors::lemma_ref_fn_answer(f, cur, None);
                        assert(result@ + Seq::<T>::empty() =~= result@);
                    }
                }
                return result;
            },
        }
    }
    proof {
        assert(result@ + Seq::<T>::empty() =~= result@);
    }
    result
}

/// Membership in `s`, as a spec predicate.
pub open spec fn member_of<T>(s: Seq<T>) -> spec_fn(T) -> bool {
    |x: T| s.contains(x)
}

/// Absence from `s`, as a spec predicate.
pub open spec fn absent_from<T>(s: Seq<T>) -> spec_fn(T) -> bool {
    |x: T| !s.contains(x)
}

/// The elements of `s` in order, each kept only at its first occurrence.
pub open spec fn first_occurrences<T>(s: Seq<T>) -> Seq<T>
    decreases s.len(),
{
    if s.len() == 0 {
        s
    } else {
        let p = first_occurrences(s.drop_last());
        if s.drop_last().contains(s.last()) {
            p
        } else {
            p.push(s.last())
        }
    }
}

/// Collect the elements of `v` into a hash set.
fn to_set<T: Eq + Hash>(v: Vec<T>) -> (r: HashSet<T>)
    ensures
        obeys_key_model::<T>() ==> forall|x: T| #[trigger] r@.contains(x) <==> v@.contains(x),
{
    let ghost v0 = v@;
    let mut rev = reversed(v);
    let ghost mut done: Seq<T> = Seq::empty();
    let mut set: HashSet<T> = HashSet::new();
    assert(done + rev@.reverse() =~= v0);
    while rev.len() > 0
        invariant
            done + rev@.reverse() == v0,
            obeys_key_model::<T>() ==> forall|x: T| #[trigger] set@.contains(x) <==> done.contains(x),
        decreases rev.len(),
    {
        let ghost before = rev@;
        let x = rev.pop().unwrap();
        proof {
            lemma_consume(done, before, x);
        }
        let ghost xg = x;
        set.insert(x);
        proof {
            if obeys_key_model::<T>() {
                let nd = done.push(xg);
                assert forall|y: T| #[trigger] set@.contains(y) <==> nd.contains(y) by {
                    if nd.contains(y) && y != xg {
                        let i = choose|i: int| 0 <= i < nd.len() && nd[i] == y;
                        assert(done[i] == y);
                    }
                    if done.contains(y) {
                        let i = choose|i: int| 0 <= i < done.len() && done[i] == y;
                        assert(nd[i] == y);
                    }
                    if y == xg {
                        assert(nd[done.len() as int] == xg);
                    }
                }
            }
            done = done.push(xg);
        }
    }
    assert(done =~= v0);
    set
}

/// Keep the elements of `v` that the set does (`keep_present`) or does not
/// contain, in order.
fn filter_by_set<T: Eq + Hash>(v: Vec<T>, set: &HashSet<T>, keep_present: bool) -> (r: Vec<T>)
    ensures
        obeys_key_model::<T>() ==> r@ == v@.filter(
            |x: T| set@.contains(x) == keep_present,
        ),
{
    let ghost v0 = v@;
    let ghost pred = |x: T| set@.contains(x) == keep_present;
    let mut rev = reversed(v);
    let ghost mut done: Seq<T> = Seq::empty();
    let mut result: Vec<T> = Vec::new();
    assert(done + rev@.reverse() =~= v0);
    reveal_with_fuel(Seq::filter, 1);
    while rev.len() > 0
        invariant
            done + rev@.reverse() == v0,
            pred == (|x: T| set@.contains(x) == keep_present),
            obeys_key_model::<T>() ==> result@ == done.filter(pred),
        decreases rev.len(),
    {
        let ghost before = rev@;
        let x = rev.pop().unwrap();
        proof {
            lemma_consume(done, before, x);
            done.lemma_filter_push(x, pred);
        }
        let present = set.contains(&x);
        proof {
            done = done.push(x);
        }
        if present == keep_present {
            result.push(x);
        }
    }
    assert(done =~= v0);
    result
}

/// The elements of `iter_a` that also occur in `iter_b`, in the order of
/// `iter_a` and with its repetitions.
pub fn intersection<T: Eq + Hash + Clone>(iter_a: Vec<T>, iter_b: Vec<T>) -> (r: Vec<T>)
    ensures
        obeys_key_model::<T>() ==> r@ == iter_a@.filter(member_of(iter_b@)),
{
    let ghost a0 = iter_a@;
    let ghost b0 = iter_b@;
    let set_b = to_set(iter_b);
    let r = filter_by_set(iter_a, &set_b, true);
    proof {
        if obeys_key_model::<T>() {
            assert((|x: T| set_b@.contains(x) == true) =~= member_of(b0));
        }
    }
    r
}

/// The elements of `iter_a` that do not occur in `iter_b`, in the order of
/// `iter_a` and with its repetitions.
pub fn difference<T: Eq + Hash + Clone>(iter_a: Vec<T>, iter_b: Vec<T>) -> (r: Vec<T>)
    ensures
        obeys_key_model::<T>() ==> r@ == iter_a@.filter(absent_from(iter_b@)),
{
    let ghost b0 = iter_b@;
    let set_b = to_set(iter_b);
    let r = filter_by_set(iter_a, &set_b, false);
    proof {
        if obeys_key_model::<T>() {
            assert((|x: T| set_b@.contains(x) == false) =~= absent_from(b0));
        }
    }
    r
}


/// Keep the first occurrence of each element of `v`, in order.
fn dedup<T: Eq + Hash + Clone>(v: Vec<T>) -> (r: Vec<T>)
    ensures
        obeys_key_model::<T>() && clone_faithful::<T>() ==> r@ == first_occurrences(v@),
{
    let ghost v0 = v@;
    let mut rev = reversed(v);
    let ghost mut done: Seq<T> = Seq::empty();
    let mut seen: HashSet<T> = HashSet::new();
    let mut result: Vec<T> = Vec::new();
    assert(done + rev@.reverse() =~= v0);
    while rev.len() > 0
        invariant
            done + rev@.reverse() == v0,
            obeys_key_model::<T>() && clone_faithful::<T>() ==> {
                &&& forall|x: T| #[trigger] seen@.contains(x) <==> done.contains(x)
                &&& result@ == first_occurrences(done)
            },
        decreases rev.len(),
    {
        let ghost before = rev@;
        let x = rev.pop().unwrap();
        proof {
            lemma_consume(done, before, x);
        }
        let c = x.clone();
        proof {
            if clone_faithful::<T>() {
                assert(cloned(x, c));
            }
        }
        let fresh = seen.insert(c);
        proof {
            if obeys_key_model::<T>() && clone_faithful::<T>() {
                let nd = done.push(x);
                assert(nd.drop_last() =~= done);
                assert forall|y: T| #[trigger] seen@.contains(y) <==> nd.contains(y) by {
                    if nd.contains(y) && y != x {
                        let i = choose|i: int| 0 <= i < nd.len() && nd[i] == y;
                        assert(done[i] == y);
                    }
                    if done.contains(y) {
                        let i = choose|i: int| 0 <= i < done.len() && done[i] == y;
                        assert(nd[i] == y);
                    }
                    if y == x {
                        assert(nd[done.len() as int] == x);
                    }
                }
            }
            done = done.push(x);
        }
        if fresh {
            result.push(x);
        }
    }
    assert(done =~= v0);
    result
}

/// The distinct elements of `iter_a` and then of `iter_b`, each at its first
/// occurrence.
pub fn union<T: Eq + Hash + Clone>(iter_a: Vec<T>, iter_b: Vec<T>) -> (r: Vec<T>)
    ensures
        obeys_key_model::<T>() && clone_faithful::<T>() ==> r@ == first_occurrences(
            iter_a@ + iter_b@,
        ),
{
    let mut all = iter_a;
    let mut rest = iter_b;
    all.append(&mut rest);
    dedup(all)
}

/// The distinct elements that occur in exactly one of the two vectors: first
/// those of `iter_a`, then those of `iter_b`, each at its first occurrence.
pub fn symmetric_difference<T: Eq + Hash + Clone>(iter_a: Vec<T>, iter_b: Vec<T>) -> (r: Vec<T>)
    ensures
        obeys_key_model::<T>() && clone_faithful::<T>() ==> r@ == first_occurrences(
            iter_a@.filter(absent_from(iter_b@)) + iter_b@.filter(absent_from(iter_a@)),
        ),
{
    let ghost a0 = iter_a@;
    let ghost b0 = iter_b@;
    let copy_a = iter_a.clone();
    let copy_b = iter_b.clone();
    proof {
        if clone_faithful::<T>() {
            assert(copy_a@ =~= a0);
            assert(copy_b@ =~= b0);
        }
    }
    let set_a = to_set(copy_a);
    let set_b = to_set(copy_b);
    let mut left = filter_by_set(iter_a, &set_b, false);
    let mut right = filter_by_set(iter_b, &set_a, false);
    proof {
        if obeys_key_model::<T>() && clone_faithful::<T>() {
            assert((|x: T| set_b@.contains(x) == false) =~= absent_from(b0));
            assert((|x: T| set_a@.contains(x) == false) =~= absent_from(a0));
        }
    }
    left.append(&mut right);
    dedup(left)
}

/// The element at position `k` of each sequence of `ss` that is long enough,
/// in the order of `ss`.
pub open spec fn column<T>(ss: Seq<Seq<T>>, k: int) -> Seq<T>
    decreases ss.len(),
{
    if ss.len() == 0 {
        Seq::empty()
    } else {
        column(ss.drop_last(), k) + if k < ss.last().len() {
            seq![ss.last()[k]]
        } else {
            Seq::empty()
        }
    }
}

/// The first `n` rounds of taking one element from each sequence in turn.
pub open spec fn rounds<T>(ss: Seq<Seq<T>>, n: nat) -> Seq<T>
    decreases n,
{
    if n == 0 {
        Seq::empty()
    } else {
        rounds(ss, (n - 1) as nat) + column(ss, n - 1)
    }
}

/// The length of the longest sequence of `ss`.
pub open spec fn longest<T>(ss: Seq<Seq<T>>) -> nat
    decreases ss.len(),
{
    if ss.len() == 0 {
        0
    } else {
        max_len(longest(ss.drop_last()), ss.last().len())
    }
}

/// Interleave the sequences of `ss` round by round until all are exhausted.
pub open spec fn round_robin<T>(ss: Seq<Seq<T>>) -> Seq<T> {
    rounds(ss, longest(ss))
}

/// What is left of `s` after `k` rounds, reversed.
pub open spec fn left_after<T>(s: Seq<T>, k: int) -> Seq<T> {
    if k < s.len() {
        s.skip(k).reverse()
    } else {
        Seq::empty()
    }
}

/// Interleave the vectors in round-robin fashion: one element from each in
/// turn, skipping those that are exhausted, until all are.
pub fn merge<T>(iterators: Vec<Vec<T>>) -> (r: Vec<T>)
    ensures
        r@ == round_robin(group_views(iterators@)),
{
    let ghost ss = group_views(iterators@);
    let n_streams = iterators.len();
    let mut longest_len: usize = 0;
    let mut i: usize = 0;
    while i < n_streams
        invariant
            i <= n_streams,
            n_streams == iterators@.len(),
            ss == group_views(iterators@),
            longest_len == longest(ss.take(i as int)),
        decreases n_streams - i,
    {
        assert(ss.take(i + 1).drop_last() =~= ss.take(i as int));
        let l = iterators[i].len();
        if l > longest_len {
            longest_len = l;
        }
        i += 1;
    }
    assert(ss.take(n_streams as int) =~= ss);
    let mut outer = reversed(iterators);
    let mut iters: Vec<Vec<T>> = Vec::new();
    proof {
        assert(forall|t: int| 0 <= t < outer@.len() ==> #[trigger] outer@[t]@ == ss[ss.len() - 1 - t]);
    }
    while outer.len() > 0
        invariant
            ss.len() == n_streams,
            iters@.len() + outer@.len() == n_streams,
            forall|t: int| 0 <= t < outer@.len() ==> #[trigger] outer@[t]@ == ss[ss.len() - 1 - t],
            forall|j: int| 0 <= j < iters@.len() ==> #[trigger] iters@[j]@ == left_after(ss[j], 0),
        decreases outer.len(),
    {
        let inner = outer.pop().unwrap();
        let ghost j = iters@.len();
        proof {
            assert(inner@ == ss[j as int]);
            assert(inner@.skip(0) =~= inner@);
        }
        let rev_inner = reversed(inner);
        iters.push(rev_inner);
    }
    let mut result: Vec<T> = Vec::new();
    let mut k: usize = 0;
    while k < longest_len
        invariant
            k <= longest_len,
            longest_len == longest(ss),
            ss.len() == n_streams,
            iters@.len() == n_streams,
            forall|j: int| 0 <= j < iters@.len() ==> #[trigger] iters@[j]@ == left_after(ss[j], idx(k)),
            result@ == rounds(ss, k as nat),
        decreases longest_len - k,
    {
        let mut pending = reversed(iters);
        let mut next: Vec<Vec<T>> = Vec::new();
        let ghost start = result@;
        proof {
            assert(ss.take(0) =~= Seq::<Seq<T>>::empty());
            assert(start + column(ss.take(0), idx(k)) =~= start);
        }
        while pending.len() > 0
            invariant
                ss.len() == n_streams,
                next@.len() + pending@.len() == n_streams,
                forall|t: int| 0 <= t < pending@.len() ==> #[trigger] pending@[t]@ == left_after(ss[ss.len() - 1 - t], idx(k)),
                forall|j: int| 0 <= j < next@.len() ==> #[trigger] next@[j]@ == left_after(ss[j], idx(k) + 1),
                result@ == start + column(ss.take(next@.len() as int), idx(k)),
            decreases pending.len(),
        {
            let mut it = pending.pop().unwrap();
            let ghost j = next@.len() as int;
            let ghost s = ss[j];
            proof {
                assert(it@ == left_after(s, idx(k)));
                assert(ss.take(j + 1).drop_last() =~= ss.take(j));
                assert(ss.take(j + 1).last() == s);
            }
            if it.len() > 0 {
                let x = it.pop().unwrap();
                proof {
                    assert(s.skip(idx(k)).reverse().last() == s[idx(k)]);
                    assert(s.skip(idx(k)).reverse().drop_last() =~= left_after(s, idx(k) + 1));
                }
                result.push(x);
            } else {
                proof {
                    assert(left_after(s, idx(k) + 1) =~= Seq::<T>::empty());
                    assert(result@ + Seq::<T>::empty() =~= result@);
                }
            }
            proof {
                assert(result@ == start + column(ss.take(j + 1), idx(k)));
            }
            next.push(it);
        }
        proof {
            assert(ss.take(n_streams as int) =~= ss);
        }
        iters = next;
        k += 1;
    }
    result
}

/// The vector repeated `n` times, as clones of its elements.
pub fn cycle<T: Clone>(vec: Vec<T>, n: usize) -> (r: Vec<T>)
    ensures
        r@.len() == vec@.len() * n,
        forall|j: int| 0 <= j < r@.len() ==> cloned(vec@[j % vec@.len() as int], #[trigger] r@[j]),
{
    let len = vec.len();
    let mut result: Vec<T> = Vec::new();
    let mut round: usize = 0;
    while round < n
        invariant
            round <= n,
            len == vec@.len(),
            result@.len() == len * round,
            forall|j: int| 0 <= j < result@.len() ==> cloned(vec@[j % len as int], #[trigger] result@[j]),
        decreases n - round,
    {
        let mut i: usize = 0;
        while i < len
            invariant
                i <= len,
                len == vec@.len(),
                result@.len() == len * round + i,
                forall|j: int| 0 <= j < result@.len() ==> cloned(vec@[j % len as int], #[trigger] result@[j]),
            decreases len - i,
        {
            let c = vec[i].clone();
            let ghost at = result@.len() as int;
            proof {
                vstd::arithmetic::div_mod::lemma_fundamental_div_mod_converse(at, len as int, round as int, i as int);
                vstd::arithmetic::mul::lemma_mul_is_commutative(round as int, len as int);
            }
            result.push(c);
            i += 1;
        }
        proof {
            vstd::arithmetic::mul::lemma_mul_is_distributive_add(len as int, round as int, 1);
        }
        round += 1;
    }
    result
}

/// Every pair of an element of `iter_a` with one of `iter_b`, as clones, in
/// the order of `iter_a` and then of `iter_b`.
pub fn cartesian_product<T: Clone, U: Clone>(iter_a: Vec<T>, iter_b: Vec<U>) -> (r: Vec<(T, U)>)
    ensures
        r@.len() == iter_a@.len() * iter_b@.len(),
        forall|k: int|
            0 <= k < r@.len() ==> {
                &&& cloned(iter_a@[k / iter_b@.len() as int], (#[trigger] r@[k]).0)
                &&& cloned(iter_b@[k % iter_b@.len() as int], r@[k].1)
            },
{
    let la = iter_a.len();
    let lb = iter_b.len();
    let mut result: Vec<(T, U)> = Vec::new();
    let mut i: usize = 0;
    while i < la
        invariant
            i <= la,
            la == iter_a@.len(),
            lb == iter_b@.len(),
            result@.len() == i * lb,
            forall|k: int|
                0 <= k < result@.len() ==> {
                    &&& cloned(iter_a@[k / lb as int], (#[trigger] result@[k]).0)
                    &&& cloned(iter_b@[k % lb as int], result@[k].1)
                },
        decreases la - i,
    {
        let mut j: usize = 0;
        while j < lb
            invariant
                i < la,
                j <= lb,
                la == iter_a@.len(),
                lb == iter_b@.len(),
                result@.len() == i * lb + j,
                forall|k: int|
                    0 <= k < result@.len() ==> {
                        &&& cloned(iter_a@[k / lb as int], (#[trigger] result@[k]).0)
                        &&& cloned(iter_b@[k % lb as int], result@[k].1)
                    },
            decreases lb - j,
        {
            let x = iter_a[i].clone();
            let y = iter_b[j].clone();
            let ghost at = result@.len() as int;
            proof {
                vstd::arithmetic::div_mod::lemma_fundamental_div_mod_converse(at, lb as int, i as int, j as int);
            }
            result.push((x, y));
            j += 1;
        }
        proof {
            vstd::arithmetic::mul::lemma_mul_is_distributive_add_other_way(lb as int, i as int, 1);
        }
        i += 1;
    }
    result
}

} // verus!
