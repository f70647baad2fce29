//! Applying transducers lazily to vectors, and a small builder for one-stage
//! pipelines.
//!
//! `transduce` turns a vector into a `TransducedIterator` that hands out the
//! transducer's outputs one at a time, consuming inputs only as they are
//! needed. What it has handed out is always a prefix of the outputs of the
//! whole run, and all of them once it is exhausted.

use crate::collectors::to_vec;
use crate::transducer::{is_prefix, lemma_pop_reverse, outputs, reversed, Compose, Identity, Run, Transducer};
use crate::transforms::{Filter, MapFn, Take};
use vstd::prelude::*;

verus! {

/// Lazily applying a transducer to a sequence of inputs.
pub trait TransduceExt<In>: Sized {
    /// The inputs.
    spec fn inputs(&self) -> Seq<In>;

    /// An iterator over the outputs of `transducer` on these inputs.
    fn transduce<'a, Out, X: Transducer<In, Out>>(self, transducer: &'a X) -> (r:
        TransducedIterator<'a, X, In, Out>)
        requires
            transducer.callable(),
        ensures
            r.inv(),
            r.transducer() == *transducer,
            r.source() == self.inputs(),
            r.handed() == Seq::<Out>::empty(),
    ;
}

impl<In> TransduceExt<In> for Vec<In> {
    open spec fn inputs(&self) -> Seq<In> {
        self@
    }

    fn transduce<'a, Out, X: Transducer<In, Out>>(self, transducer: &'a X) -> (r:
        TransducedIterator<'a, X, In, Out>) {
        TransducedIterator {
            run: Run::new(transducer, self),
            buffer: Vec::new(),
            handed: Ghost(Seq::empty()),
        }
    }
}

/// The outputs of a transducer over a source, handed out one at a time.
pub struct TransducedIterator<'a, X: Transducer<In, Out>, In, Out> {
    run: Run<'a, X, In, Out>,
    buffer: Vec<Out>,
    handed: Ghost<Seq<Out>>,
}

impl<'a, X: Transducer<In, Out>, In, Out> TransducedIterator<'a, X, In, Out> {
    /// The transducer being applied.
    pub closed spec fn transducer(&self) -> X {
        self.run.transducer()
    }

    /// The inputs.
    pub closed spec fn source(&self) -> Seq<In> {
        self.run.source()
    }

    /// The outputs handed out so far.
    pub closed spec fn handed(&self) -> Seq<Out> {
        self.handed@
    }

    /// How many inputs are left to consume.
    pub closed spec fn pending_inputs(&self) -> nat {
        self.run.remaining()
    }

    /// How many outputs are buffered, computed but not handed out yet.
    pub closed spec fn buffered(&self) -> nat {
        self.buffer@.len()
    }

    /// Whether this iterator has less work left than `other`: fewer inputs
    /// to consume, or as many and fewer buffered outputs.
    pub open spec fn less_work_than(&self, other: &Self) -> bool {
        ||| self.pending_inputs() < other.pending_inputs()
        ||| self.pending_inputs() == other.pending_inputs() && self.buffered() < other.buffered()
    }

    /// The iterator's internal consistency.
    pub closed spec fn inv(&self) -> bool {
        &&& self.run.inv()
        &&& self.handed@ + self.buffer@.reverse() == self.run.produced()
    }

    /// The next output, or `None` once there are no more; then everything
    /// handed out is all the outputs of the run.
    pub fn next(&mut self) -> (r: Option<Out>)
        requires
            old(self).inv(),
        ensures
            final(self).inv(),
            final(self).transducer() == old(self).transducer(),
            final(self).source() == old(self).source(),
            old(self).transducer().lawful() ==> is_prefix(
                final(self).handed(),
                outputs(old(self).transducer(), old(self).source()),
            ),
            match r {
                Some(x) => {
                    &&& final(self).handed() == old(self).handed().push(x)
                    &&& final(self).less_work_than(&*old(self))
                },
                None => {
                    &&& final(self).handed() == old(self).handed()
                    &&& old(self).transducer().lawful() ==> final(self).handed() == outputs(
                        old(self).transducer(),
                        old(self).source(),
                    )
                },
            },
    {
        let ghost t0 = self.run.transducer();
        let ghost src0 = self.run.source();
        let ghost handed0 = self.handed@;
        let ghost r0 = self.run.remaining();
        let ghost b0 = self.buffer@.len();
        loop
            invariant
                self.inv(),
                self.run.transducer() == t0,
                self.run.source() == src0,
                self.handed@ == handed0,
                self.run.remaining() < r0 || (self.run.remaining() == r0 && self.buffer@.len() == b0),
                t0 == old(self).transducer(),
                src0 == old(self).source(),
                handed0 == old(self).handed(),
                r0 == old(self).pending_inputs(),
                b0 == old(self).buffered(),
            decreases self.run.remaining(),
        {
            if self.buffer.len() > 0 {
                let ghost before = self.buffer@;
                let x = self.buffer.pop().unwrap();
                proof {
                    lemma_pop_reverse(before);
                    assert(self.handed@.push(x) + self.buffer@.reverse() =~= self.handed@
                        + before.reverse());
                    self.handed@ = self.handed@.push(x);
                    if t0.lawful() {
                        self.run.lemma_produced_prefix();
                        let p = self.run.produced();
                        assert(p.take(self.handed@.len() as int) =~= self.handed@);
                        assert(p.take(self.handed@.len() as int) =~= outputs(t0, src0).take(
                            self.handed@.len() as int,
                        ));
                    }
                }
                return Some(x);
            }
            let ghost produced0 = self.run.produced();
            match self.run.next_batch() {
                Some(batch) => {
                    let ghost b = batch@;
                    self.buffer = reversed(batch);
                    proof {
                        assert(self.buffer@.reverse() =~= b);
                        assert(self.handed@ + self.buffer@.reverse() =~= produced0 + b);
                    }
                },
                None => {
                    proof {
                        assert(self.buffer@.reverse() =~= Seq::<Out>::empty());
                        assert(self.handed@ =~= self.run.produced());
                        if t0.lawful() {
                            assert(outputs(t0, src0).take(self.handed@.len() as int) =~= self.handed@);
                        }
                    }
                    return None;
                },
            }
        }
    }

    /// All the outputs that are left, in order.
    pub fn collect(self) -> (r: Vec<Out>)
        requires
            self.inv(),
        ensures
            self.transducer().lawful() ==> self.handed() + r@ == outputs(
                self.transducer(),
                self.source(),
            ),
    {
        let mut it = self;
        let ghost start = it.handed@;
        let mut result: Vec<Out> = Vec::new();
        loop
            invariant
                it.inv(),
                it.transducer() == self.transducer(),
                it.source() == self.source(),
                it.handed@ == start + result@,
                start == self.handed(),
            decreases it.pending_inputs(), it.buffered(),
        {
            match it.next() {
                Some(x) => {
                    proof {
                        assert(start + result@.push(x) =~= (start + result@).push(x));
                    }
                    result.push(x);
                },
                None => {
                    return result;
                },
            }
        }
    }
}

/// A pipeline built fluently, one stage after another, and run over a
/// vector. It starts as the identity, and each of `map`, `filter` and `take`
/// composes one more stage after the ones before.
pub struct PipelineBuilder<X> {
    transducer: X,
}

impl<X> PipelineBuilder<X> {
    /// The pipeline's transducer.
    pub closed spec fn stage(&self) -> X {
        self.transducer
    }
}

impl<T> PipelineBuilder<Identity<T>> {
    /// An empty pipeline builder.
    pub fn new() -> (r: PipelineBuilder<Identity<T>>) {
        PipelineBuilder { transducer: Identity::new() }
    }
}

impl<X> PipelineBuilder<X> {
    /// Add a map stage.
    pub fn map<A, B, C, F: Fn(B) -> C>(self, f: F) -> (r: PipelineBuilder<
        Compose<X, MapFn<F, B, C>, A, B, C>,
    >) where X: Transducer<A, B>
        ensures
            r.stage().first() == self.stage(),
            r.stage().second().func() == f,
    {
        PipelineBuilder { transducer: self.transducer.compose(MapFn::new(f)) }
    }

    /// Add a filter stage.
    pub fn filter<A, B, P: Fn(&B) -> bool>(self, pred: P) -> (r: PipelineBuilder<
        Compose<X, Filter<P, B>, A, B, B>,
    >) where X: Transducer<A, B>
        ensures
            r.stage().first() == self.stage(),
            r.stage().second().pred() == pred,
    {
        PipelineBuilder { transducer: self.transducer.compose(Filter::new(pred)) }
    }

    /// Add a stage that takes the first `n` values.
    pub fn take<A, B>(self, n: usize) -> (r: PipelineBuilder<Compose<X, Take<B>, A, B, B>>) where
        X: Transducer<A, B>,
        ensures
            r.stage().first() == self.stage(),
            r.stage().second().limit() == n,
    {
        PipelineBuilder { transducer: self.transducer.compose(Take::new(n)) }
    }

    /// Run the pipeline over `source`, collecting its outputs.
    pub fn run<In, Out>(self, source: Vec<In>) -> (r: Vec<Out>) where X: Transducer<In, Out>
        requires
            self.stage().callable(),
        ensures
            self.stage().lawful() ==> r@ == outputs(self.stage(), source@),
    {
        to_vec(&self.transducer, source)
    }
}

} // verus!
