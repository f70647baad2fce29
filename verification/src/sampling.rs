//! Uniform random sampling of the outputs with a reservoir (Algorithm R).
//!
//! The random draws come from `rand`'s thread-local generator. What is proved
//! holds for every sequence of draws: the sample has the right size, holds
//! only outputs (with no more repetitions than they have), is all of the
//! outputs when there are no more of them than the sample's capacity, and is
//! what Algorithm R keeps for draws that each lie below the number of outputs
//! seen so far, as handed to the generator.

use crate::collectors::lemma_consume;
use crate::combine::min_len;
use crate::transducer::{outputs, reversed, Run, Transducer};
use rand::rngs::ThreadRng;
use rand::Rng;
use vstd::prelude::*;

verus! {

broadcast use vstd::multiset::group_multiset_axioms, vstd::seq_lib::group_to_multiset_ensures;

/// The random number generator of `rand` that is local to the thread.
#[verifier::external_type_specification]
#[verifier::external_body]
pub struct ExThreadRng(ThreadRng);

/// `rand::thread_rng`: a handle to the thread's random number generator.
/// Nothing is claimed of it. (`rand` panics here only if the operating
/// system cannot seed the generator.)
#[verifier::external_body]
fn thread_generator() -> ThreadRng {
    rand::thread_rng()
}

/// `Rng::gen_range(0..bound)` on the thread's generator: a number below
/// `bound`, which must be positive (`rand` panics on an empty range). Which
/// number is drawn is left open.
#[verifier::external_body]
fn random_below(rng: &mut ThreadRng, bound: usize) -> (r: usize)
    requires
        bound > 0,
    ensures
        r < bound,
{
    rng.gen_range(0..bound)
}

/// Offer `x` to a full reservoir with the random `draw`: it replaces the
/// element at position `draw` when that position exists, and is dropped
/// otherwise.
pub fn reservoir_offer<U>(reservoir: &mut Vec<U>, draw: usize, x: U)
    ensures
        final(reservoir)@ == if draw < old(reservoir)@.len() {
            old(reservoir)@.update(draw as int, x)
        } else {
            old(reservoir)@
        },
{
    if draw < reservoir.len() {
        reservoir[draw] = x;
    }
}

/// Algorithm R over `outs` with reservoir capacity `n` and draws `d`: each
/// element is appended while the reservoir is short; after that, the element
/// at position `i` replaces slot `d[i]` when that slot exists and is dropped
/// otherwise.
pub open spec fn algorithm_r<U>(outs: Seq<U>, n: nat, d: Seq<nat>) -> Seq<U>
    decreases outs.len(),
{
    if outs.len() == 0 {
        Seq::empty()
    } else {
        let prev = algorithm_r(outs.drop_last(), n, d);
        let i = outs.len() - 1;
        if prev.len() < n {
            prev.push(outs.last())
        } else if d[i] < prev.len() {
            prev.update(d[i] as int, outs.last())
        } else {
            prev
        }
    }
}

/// Algorithm R reads only the draws at the positions of its elements.
proof fn lemma_algorithm_r_draws<U>(outs: Seq<U>, n: nat, d1: Seq<nat>, d2: Seq<nat>)
    requires
        forall|i: int| 0 <= i < outs.len() ==> d1[i] == d2[i],
    ensures
        algorithm_r(outs, n, d1) == algorithm_r(outs, n, d2),
    decreases outs.len(),
{
    if outs.len() > 0 {
        lemma_algorithm_r_draws(outs.drop_last(), n, d1, d2);
        assert(d1[outs.len() - 1] == d2[outs.len() - 1]);
    }
}

/// Sample `n` outputs uniformly at random (all of them when there are at
/// most `n`). Whatever the draws, the sample is what Algorithm R keeps for
/// some draws in which the draw for the element at position `i` (counted
/// from zero, once the reservoir is full) is at most `i`. The outputs are
/// sampled as the run produces them: besides the sample, only the outputs of
/// one input are held at a time.
pub fn reservoir_sample<T, U: Clone, X: Transducer<T, U>>(transducer: &X, source: Vec<T>, n: usize) -> (r: Vec<U>)
    requires
        transducer.callable(),
    ensures
        transducer.lawful() ==> {
            let outs = outputs(*transducer, source@);
            &&& r@.len() == min_len(outs.len(), n as nat)
            &&& r@.to_multiset().subset_of(outs.to_multiset())
            &&& outs.len() <= n ==> r@ == outs
            &&& exists|d: Seq<nat>|
                {
                    &&& d.len() == outs.len()
                    &&& forall|i: int| n <= i < outs.len() ==> #[trigger] d[i] <= i
                    &&& r@ == algorithm_r(outs, n as nat, d)
                }
        },
{
    let ghost src = source@;
    let mut run = Run::new(transducer, source);
    let mut rng = thread_generator();
    let mut reservoir: Vec<U> = Vec::new();
    let mut seen: usize = 0;
    let ghost mut done: Seq<U> = Seq::empty();
    let ghost mut draws: Seq<nat> = Seq::empty();
    loop
        invariant
            run.inv(),
            run.transducer() == *transducer,
            run.source() == src,
            src == source@,
            done == run.produced(),
            done.len() <= usize::MAX ==> seen == done.len(),
            done.len() > usize::MAX ==> seen == usize::MAX,
            reservoir@.len() == min_len(done.len(), n as nat),
            reservoir@.to_multiset().subset_of(done.to_multiset()),
            done.len() <= n ==> reservoir@ == done,
            draws.len() == done.len(),
            forall|i: int| n <= i < draws.len() ==> #[trigger] draws[i] <= i,
            reservoir@ == algorithm_r(done, n as nat, draws),
        decreases run.remaining(),
    {
        match run.next_batch() {
            Some(batch) => {
                let ghost all = done + batch@;
                let mut rest = reversed(batch);
                proof {
                    assert(done + rest@.reverse() =~= all);
                }
                while rest.len() > 0
                    invariant
                        done + rest@.reverse() == all,
                        done.len() <= usize::MAX ==> seen == done.len(),
                        done.len() > usize::MAX ==> seen == usize::MAX,
                        reservoir@.len() == min_len(done.len(), n as nat),
                        reservoir@.to_multiset().subset_of(done.to_multiset()),
                        done.len() <= n ==> reservoir@ == done,
                        draws.len() == done.len(),
                        forall|i: int| n <= i < draws.len() ==> #[trigger] draws[i] <= i,
                        reservoir@ == algorithm_r(done, n as nat, draws),
                    decreases rest.len(),
                {
                    let ghost before = rest@;
                    let x = rest.pop().unwrap();
                    proof {
                        lemma_consume(done, before, x);
                    }
                    if seen < usize::MAX {
                        seen = seen + 1;
                    }
                    let ghost old_res = reservoir@;
                    let ghost mut draw: nat = 0;
                    if reservoir.len() < n {
                        reservoir.push(x);
                    } else {
                        let j = random_below(&mut rng, seen);
                        proof {
                            draw = j as nat;
                            if j < old_res.len() {
                                assert(old_res.update(j as int, x) =~= old_res.remove(j as int).insert(
                                    j as int,
                                    x,
                                ));
                                vstd::seq_lib::to_multiset_remove(old_res, j as int);
                                vstd::seq_lib::to_multiset_insert(old_res.remove(j as int), j as int, x);
                            }
                        }
                        reservoir_offer(&mut reservoir, j, x);
                    }
                    proof {
                        let d2 = draws.push(draw);
                        lemma_algorithm_r_draws(done, n as nat, draws, d2);
                        assert(done.push(x).drop_last() =~= done);
                        done = done.push(x);
                        draws = d2;
                    }
                }
                proof {
                    assert(rest@.reverse() =~= Seq::<U>::empty());
                    assert(done =~= all);
                }
            },
            None => {
                return reservoir;
            },
        }
    }
}

} // verus!
