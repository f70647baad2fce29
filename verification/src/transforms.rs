//! Standard transducers: map, filter, take, drop, chunk and the others.
//!
//! Each transducer states its step as a function of its state and input
//! (`step_spec`); stateful ones keep that state in the run, so every run of a
//! transducer starts afresh.

use crate::fnspec::{
    clone_faithful, fn1_app, fn1_det, fn1_total, pred_app, pred_det, pred_total, ref2_app, ref2_det,
    ref2_total, ref_fn_app, ref_fn_det, ref_fn_total,
};
use crate::transducer::Transducer;
use std::collections::HashSet;
use std::hash::Hash;
use std::marker::PhantomData;
use vstd::prelude::*;
use vstd::std_specs::hash::obeys_key_model;

verus! {

broadcast use vstd::std_specs::hash::group_hash_axioms;

/// Map transducer - transforms each value with a function.
pub struct MapFn<F, In, Out> {
    f: F,
    _phantom: PhantomData<(In, Out)>,
}

impl<F: Fn(In) -> Out, In, Out> MapFn<F, In, Out> {
    /// Map each input with `f`.
    pub fn new(f: F) -> (m: Self)
        ensures
            m.func() == f,
    {
        MapFn { f, _phantom: PhantomData }
    }

    /// The mapping function.
    pub closed spec fn func(&self) -> F {
        self.f
    }
}

impl<F: Fn(In) -> Out, In, Out> Transducer<In, Out> for MapFn<F, In, Out> {
    type State = ();

    open spec fn callable(&self) -> bool {
        fn1_total(self.func())
    }

    open spec fn lawful(&self) -> bool {
        fn1_det(self.func())
    }

    open spec fn init_spec(&self) -> () {
        ()
    }

    open spec fn step_spec(&self, s: (), x: In) -> ((), Seq<Out>, bool) {
        ((), seq![fn1_app(self.func(), x)], false)
    }

    fn init(&self) -> (s: ()) {
        ()
    }

    fn step(&self, s: &mut (), x: In) -> (r: (Vec<Out>, bool)) {
        let y = (self.f)(x);
        (vec![y], false)
    }
}

/// Filter transducer - only passes values matching a predicate.
pub struct Filter<P, T> {
    predicate: P,
    _phantom: PhantomData<T>,
}

impl<P: Fn(&T) -> bool, T> Filter<P, T> {
    /// Keep the inputs that satisfy `predicate`.
    pub fn new(predicate: P) -> (r: Self)
        ensures
            r.pred() == predicate,
    {
        Filter { predicate, _phantom: PhantomData }
    }

    /// The predicate.
    pub closed spec fn pred(&self) -> P {
        self.predicate
    }
}

impl<P: Fn(&T) -> bool, T> Transducer<T, T> for Filter<P, T> {
    type State = ();

    open spec fn callable(&self) -> bool {
        pred_total(self.pred())
    }

    open spec fn lawful(&self) -> bool {
        pred_det(self.pred())
    }

    open spec fn init_spec(&self) -> () {
        ()
    }

    open spec fn step_spec(&self, s: (), x: T) -> ((), Seq<T>, bool) {
        if pred_app(self.pred(), x) {
            ((), seq![x], false)
        } else {
            ((), Seq::empty(), false)
        }
    }

    fn init(&self) -> (s: ()) {
        ()
    }

    fn step(&self, s: &mut (), x: T) -> (r: (Vec<T>, bool)) {
        if (self.predicate)(&x) {
            (vec![x], false)
        } else {
            (Vec::new(), false)
        }
    }
}

/// Reject transducer - only passes values NOT matching a predicate.
pub struct Reject<P, T> {
    predicate: P,
    _phantom: PhantomData<T>,
}

impl<P: Fn(&T) -> bool, T> Reject<P, T> {
    /// Drop the inputs that satisfy `predicate`.
    pub fn new(predicate: P) -> (r: Self)
        ensures
            r.pred() == predicate,
    {
        Reject { predicate, _phantom: PhantomData }
    }

    /// The predicate.
    pub closed spec fn pred(&self) -> P {
        self.predicate
    }
}

impl<P: Fn(&T) -> bool, T> Transducer<T, T> for Reject<P, T> {
    type State = ();

    open spec fn callable(&self) -> bool {
        pred_total(self.pred())
    }

    open spec fn lawful(&self) -> bool {
        pred_det(self.pred())
    }

    open spec fn init_spec(&self) -> () {
        ()
    }

    open spec fn step_spec(&self, s: (), x: T) -> ((), Seq<T>, bool) {
        if !pred_app(self.pred(), x) {
            ((), seq![x], false)
        } else {
            ((), Seq::empty(), false)
        }
    }

    fn init(&self) -> (s: ()) {
        ()
    }

    fn step(&self, s: &mut (), x: T) -> (r: (Vec<T>, bool)) {
        if !(self.predicate)(&x) {
            (vec![x], false)
        } else {
            (Vec::new(), false)
        }
    }
}

/// Take transducer - takes the first n elements, then stops.
pub struct Take<T> {
    n: usize,
    _phantom: PhantomData<T>,
}

impl<T> Take<T> {
    /// Take the first `n` inputs.
    pub fn new(n: usize) -> (r: Self)
        ensures
            r.limit() == n,
    {
        Take { n, _phantom: PhantomData }
    }

    /// How many inputs are taken.
    pub closed spec fn limit(&self) -> usize {
        self.n
    }
}

impl<T> Transducer<T, T> for Take<T> {
    /// How many inputs have been taken.
    type State = usize;

    open spec fn callable(&self) -> bool {
        true
    }

    open spec fn lawful(&self) -> bool {
        true
    }

    open spec fn init_spec(&self) -> usize {
        0
    }

    open spec fn step_spec(&self, c: usize, x: T) -> (usize, Seq<T>, bool) {
        if c < self.limit() {
            ((c + 1) as usize, seq![x], c + 1 >= self.limit())
        } else {
            (c, Seq::empty(), true)
        }
    }

    fn init(&self) -> (s: usize) {
        0
    }

    fn step(&self, c: &mut usize, x: T) -> (r: (Vec<T>, bool)) {
        if *c < self.n {
            *c = *c + 1;
            (vec![x], *c >= self.n)
        } else {
            (Vec::new(), true)
        }
    }
}

/// TakeWhile transducer - takes elements while predicate is true, then stops.
pub struct TakeWhile<P, T> {
    predicate: P,
    _phantom: PhantomData<T>,
}

impl<P: Fn(&T) -> bool, T> TakeWhile<P, T> {
    /// Take inputs while they satisfy `predicate`.
    pub fn new(predicate: P) -> (r: Self)
        ensures
            r.pred() == predicate,
    {
        TakeWhile { predicate, _phantom: PhantomData }
    }

    /// The predicate.
    pub closed spec fn pred(&self) -> P {
        self.predicate
    }
}

impl<P: Fn(&T) -> bool, T> Transducer<T, T> for TakeWhile<P, T> {
    type State = ();

    open spec fn callable(&self) -> bool {
        pred_total(self.pred())
    }

    open spec fn lawful(&self) -> bool {
        pred_det(self.pred())
    }

    open spec fn init_spec(&self) -> () {
        ()
    }

    open spec fn step_spec(&self, s: (), x: T) -> ((), Seq<T>, bool) {
        if pred_app(self.pred(), x) {
            ((), seq![x], false)
        } else {
            ((), Seq::empty(), true)
        }
    }

    fn init(&self) -> (s: ()) {
        ()
    }

    fn step(&self, s: &mut (), x: T) -> (r: (Vec<T>, bool)) {
        if (self.predicate)(&x) {
            (vec![x], false)
        } else {
            (Vec::new(), true)
        }
    }
}

/// Drop transducer - skips the first n elements.
pub struct Drop<T> {
    n: usize,
    _phantom: PhantomData<T>,
}

impl<T> Drop<T> {
    /// Skip the first `n` inputs.
    pub fn new(n: usize) -> (r: Self)
        ensures
            r.limit() == n,
    {
        Drop { n, _phantom: PhantomData }
    }

    /// How many inputs are skipped.
    pub closed spec fn limit(&self) -> usize {
        self.n
    }
}

impl<T> Transducer<T, T> for Drop<T> {
    /// How many inputs have been skipped.
    type State = usize;

    open spec fn callable(&self) -> bool {
        true
    }

    open spec fn lawful(&self) -> bool {
        true
    }

    open spec fn init_spec(&self) -> usize {
        0
    }

    open spec fn step_spec(&self, c: usize, x: T) -> (usize, Seq<T>, bool) {
        if c < self.limit() {
            ((c + 1) as usize, Seq::empty(), false)
        } else {
            (c, seq![x], false)
        }
    }

    fn init(&self) -> (s: usize) {
        0
    }

    fn step(&self, c: &mut usize, x: T) -> (r: (Vec<T>, bool)) {
        if *c < self.n {
            *c = *c + 1;
            (Vec::new(), false)
        } else {
            (vec![x], false)
        }
    }
}

/// DropWhile transducer - skips elements while predicate is true.
pub struct DropWhile<P, T> {
    predicate: P,
    _phantom: PhantomData<T>,
}

impl<P: Fn(&T) -> bool, T> DropWhile<P, T> {
    /// Skip inputs while they satisfy `predicate`.
    pub fn new(predicate: P) -> (r: Self)
        ensures
            r.pred() == predicate,
    {
        DropWhile { predicate, _phantom: PhantomData }
    }

    /// The predicate.
    pub closed spec fn pred(&self) -> P {
        self.predicate
    }
}

impl<P: Fn(&T) -> bool, T> Transducer<T, T> for DropWhile<P, T> {
    /// Whether inputs are still being dropped.
    type State = bool;

    open spec fn callable(&self) -> bool {
        pred_total(self.pred())
    }

    open spec fn lawful(&self) -> bool {
        pred_det(self.pred())
    }

    open spec fn init_spec(&self) -> bool {
        true
    }

    open spec fn step_spec(&self, dropping: bool, x: T) -> (bool, Seq<T>, bool) {
        if dropping && pred_app(self.pred(), x) {
            (true, Seq::empty(), false)
        } else {
            (false, seq![x], false)
        }
    }

    fn init(&self) -> (s: bool) {
        true
    }

    fn step(&self, dropping: &mut bool, x: T) -> (r: (Vec<T>, bool)) {
        if *dropping && (self.predicate)(&x) {
            (Vec::new(), false)
        } else {
            *dropping = false;
            (vec![x], false)
        }
    }
}

/// FlatMap transducer - maps each element to a collection and flattens it.
pub struct FlatMap<F, In, Out> {
    f: F,
    _phantom: PhantomData<(In, Out)>,
}

impl<F: Fn(In) -> Vec<Out>, In, Out> FlatMap<F, In, Out> {
    /// Replace each input by the elements of `f(input)`.
    pub fn new(f: F) -> (r: Self)
        ensures
            r.func() == f,
    {
        FlatMap { f, _phantom: PhantomData }
    }

    /// The function.
    pub closed spec fn func(&self) -> F {
        self.f
    }
}

impl<F: Fn(In) -> Vec<Out>, In, Out> Transducer<In, Out> for FlatMap<F, In, Out> {
    type State = ();

    open spec fn callable(&self) -> bool {
        fn1_total(self.func())
    }

    open spec fn lawful(&self) -> bool {
        fn1_det(self.func())
    }

    open spec fn init_spec(&self) -> () {
        ()
    }

    open spec fn step_spec(&self, s: (), x: In) -> ((), Seq<Out>, bool) {
        ((), fn1_app(self.func(), x)@, false)
    }

    fn init(&self) -> (s: ()) {
        ()
    }

    fn step(&self, s: &mut (), x: In) -> (r: (Vec<Out>, bool)) {
        let ys = (self.f)(x);
        (ys, false)
    }
}

/// Tap transducer - performs side effects without transforming values.
pub struct Tap<F, T> {
    f: F,
    _phantom: PhantomData<T>,
}

impl<F: Fn(&T), T> Tap<F, T> {
    /// Call `f` on each input and pass it on.
    pub fn new(f: F) -> (r: Self)
        ensures
            r.func() == f,
    {
        Tap { f, _phantom: PhantomData }
    }

    /// The function called on each input.
    pub closed spec fn func(&self) -> F {
        self.f
    }
}

impl<F: Fn(&T), T> Transducer<T, T> for Tap<F, T> {
    type State = ();

    open spec fn callable(&self) -> bool {
        ref_fn_total(self.func())
    }

    open spec fn lawful(&self) -> bool {
        true
    }

    open spec fn init_spec(&self) -> () {
        ()
    }

    open spec fn step_spec(&self, s: (), x: T) -> ((), Seq<T>, bool) {
        ((), seq![x], false)
    }

    fn init(&self) -> (s: ()) {
        ()
    }

    fn step(&self, s: &mut (), x: T) -> (r: (Vec<T>, bool)) {
        (self.f)(&x);
        (vec![x], false)
    }
}

/// Chunk transducer - groups consecutive elements into fixed-size chunks.
///
/// Only complete chunks are emitted; a final partial chunk is dropped.
pub struct Chunk<T> {
    size: usize,
    _phantom: PhantomData<T>,
}

impl<T: Clone> Chunk<T> {
    /// Chunks of `size` elements; `size` must be positive.
    pub fn new(size: usize) -> (r: Self)
        requires
            size > 0,
        ensures
            r.size() == size,
    {
        Chunk { size, _phantom: PhantomData }
    }
}

impl<T> Chunk<T> {
    /// The chunk size.
    pub closed spec fn size(&self) -> usize {
        self.size
    }
}

/// The elements gathered towards the next chunk.
pub struct ChunkBuffer<T> {
    pub items: Vec<T>,
}

impl<T> View for ChunkBuffer<T> {
    type V = Seq<T>;

    open spec fn view(&self) -> Seq<T> {
        self.items@
    }
}

impl<T> Chunk<T> {
    /// The chunk emitted for input `x` with `buffer` gathered so far, if any,
    /// as its elements.
    pub open spec fn chunk_step(&self, buffer: Seq<T>, x: T) -> (Seq<T>, Option<Seq<T>>) {
        let b = buffer.push(x);
        if b.len() == self.size() {
            (Seq::empty(), Some(b))
        } else {
            (b, None)
        }
    }
}

impl<T> Transducer<T, Vec<T>> for Chunk<T> {
    type State = ChunkBuffer<T>;

    open spec fn callable(&self) -> bool {
        true
    }

    /// A chunk is a fresh vector: `step_spec` cannot name it, so the contracts
    /// that go through `step_spec` do not hold for runs with a `Chunk`;
    /// `step` states its effect through the chunk's view instead.
    open spec fn lawful(&self) -> bool {
        false
    }

    open spec fn init_spec(&self) -> Seq<T> {
        Seq::empty()
    }

    open spec fn step_spec(&self, b: Seq<T>, x: T) -> (Seq<T>, Seq<Vec<T>>, bool) {
        let (b2, c) = self.chunk_step(b, x);
        (b2, Seq::empty(), false)
    }

    fn init(&self) -> (s: ChunkBuffer<T>)
        ensures
            s@ == Seq::<T>::empty(),
    {
        ChunkBuffer { items: Vec::new() }
    }

    fn step(&self, s: &mut ChunkBuffer<T>, x: T) -> (r: (Vec<Vec<T>>, bool))
        ensures
            !r.1,
            final(s)@ == self.chunk_step(old(s)@, x).0,
            match self.chunk_step(old(s)@, x).1 {
                Some(c) => r.0@.len() == 1 && r.0@[0]@ == c,
                None => r.0@.len() == 0,
            },
    {
        s.items.push(x);
        if s.items.len() == self.size {
            let mut chunk: Vec<T> = Vec::new();
            std::mem::swap(&mut chunk, &mut s.items);
            (vec![chunk], false)
        } else {
            (Vec::new(), false)
        }
    }
}

/// Unique transducer - drops an element equal to the one just before it.
pub struct Unique<T> {
    _phantom: PhantomData<T>,
}

impl<T> Unique<T> {
    /// Deduplicate consecutive equal inputs.
    pub fn new() -> Self {
        Unique { _phantom: PhantomData }
    }
}

/// The last element passed on, if any.
pub struct LastSeen<T> {
    pub last: Option<T>,
}

impl<T> View for LastSeen<T> {
    type V = Option<T>;

    open spec fn view(&self) -> Option<T> {
        self.last
    }
}

impl<T: PartialEq + Clone> Transducer<T, T> for Unique<T> {
    type State = LastSeen<T>;

    open spec fn callable(&self) -> bool {
        true
    }

    open spec fn lawful(&self) -> bool {
        vstd::laws_eq::obeys_concrete_eq::<T>() && clone_faithful::<T>()
    }

    open spec fn init_spec(&self) -> Option<T> {
        None
    }

    open spec fn step_spec(&self, last: Option<T>, x: T) -> (Option<T>, Seq<T>, bool) {
        if last == Some(x) {
            (last, Seq::empty(), false)
        } else {
            (Some(x), seq![x], false)
        }
    }

    fn init(&self) -> (s: LastSeen<T>) {
        LastSeen { last: None }
    }

    fn step(&self, s: &mut LastSeen<T>, x: T) -> (r: (Vec<T>, bool)) {
        let same = match &s.last {
            None => false,
            Some(prev) => prev.eq(&x),
        };
        proof {
            if self.lawful() {
                reveal(vstd::laws_eq::obeys_concrete_eq);
            }
        }
        if same {
            (Vec::new(), false)
        } else {
            let c = x.clone();
            proof {
                assert(cloned(x, c));
            }
            s.last = Some(c);
            (vec![x], false)
        }
    }
}

/// UniqueBy transducer - passes an element only if its key was not seen before.
pub struct UniqueBy<F, T, K> {
    key_fn: F,
    _phantom: PhantomData<(T, K)>,
}

impl<F: Fn(&T) -> K, T, K: Eq + Hash> UniqueBy<F, T, K> {
    /// Keep the first input of each key.
    pub fn new(key_fn: F) -> (r: Self)
        ensures
            r.key_fn() == key_fn,
    {
        UniqueBy { key_fn, _phantom: PhantomData }
    }
}

impl<F, T, K> UniqueBy<F, T, K> {
    /// The key function.
    pub closed spec fn key_fn(&self) -> F {
        self.key_fn
    }
}

/// The keys seen so far.
pub struct SeenKeys<K> {
    pub keys: HashSet<K>,
}

impl<K> View for SeenKeys<K> {
    type V = Set<K>;

    open spec fn view(&self) -> Set<K> {
        self.keys@
    }
}

impl<F: Fn(&T) -> K, T, K: Eq + Hash> Transducer<T, T> for UniqueBy<F, T, K> {
    type State = SeenKeys<K>;

    open spec fn callable(&self) -> bool {
        ref_fn_total(self.key_fn())
    }

    open spec fn lawful(&self) -> bool {
        ref_fn_det(self.key_fn()) && obeys_key_model::<K>()
    }

    open spec fn init_spec(&self) -> Set<K> {
        Set::empty()
    }

    open spec fn step_spec(&self, seen: Set<K>, x: T) -> (Set<K>, Seq<T>, bool) {
        let k = ref_fn_app(self.key_fn(), x);
        if seen.contains(k) {
            (seen, Seq::empty(), false)
        } else {
            (seen.insert(k), seq![x], false)
        }
    }

    fn init(&self) -> (s: SeenKeys<K>) {
        SeenKeys { keys: HashSet::new() }
    }

    fn step(&self, s: &mut SeenKeys<K>, x: T) -> (r: (Vec<T>, bool)) {
        let key = (self.key_fn)(&x);
        if s.keys.insert(key) {
            (vec![x], false)
        } else {
            (Vec::new(), false)
        }
    }
}

/// Scan transducer - running accumulation that emits every intermediate value.
pub struct Scan<F, T, S> {
    f: F,
    initial: S,
    _phantom: PhantomData<T>,
}

impl<F: Fn(&S, &T) -> S, T, S: Clone> Scan<F, T, S> {
    /// Accumulate with `f` from `initial`, emitting each new accumulator.
    pub fn new(initial: S, f: F) -> (r: Self)
        ensures
            r.func() == f,
            r.initial() == initial,
    {
        Scan { f, initial, _phantom: PhantomData }
    }
}

impl<F, T, S> Scan<F, T, S> {
    /// The accumulating function.
    pub closed spec fn func(&self) -> F {
        self.f
    }

    /// The initial accumulator.
    pub closed spec fn initial(&self) -> S {
        self.initial
    }
}

/// The accumulator of a scan.
pub struct Accumulator<S> {
    pub value: S,
}

impl<S> View for Accumulator<S> {
    type V = S;

    open spec fn view(&self) -> S {
        self.value
    }
}

impl<F: Fn(&S, &T) -> S, T, S: Clone> Transducer<T, S> for Scan<F, T, S> {
    type State = Accumulator<S>;

    open spec fn callable(&self) -> bool {
        ref2_total(self.func())
    }

    open spec fn lawful(&self) -> bool {
        ref2_det(self.func()) && clone_faithful::<S>()
    }

    open spec fn init_spec(&self) -> S {
        self.initial()
    }

    open spec fn step_spec(&self, acc: S, x: T) -> (S, Seq<S>, bool) {
        let next = ref2_app(self.func(), acc, x);
        (next, seq![next], false)
    }

    fn init(&self) -> (s: Accumulator<S>) {
        let v = self.initial.clone();
        proof {
            assert(cloned(self.initial, v));
        }
        Accumulator { value: v }
    }

    fn step(&self, s: &mut Accumulator<S>, x: T) -> (r: (Vec<S>, bool)) {
        let next = (self.f)(&s.value, &x);
        let c = next.clone();
        proof {
            assert(cloned(next, c));
        }
        s.value = c;
        (vec![next], false)
    }
}

/// Interpose transducer - inserts a separator between elements.
pub struct Interpose<T> {
    separator: T,
}

impl<T: Clone> Interpose<T> {
    /// Put `separator` between consecutive inputs.
    pub fn new(separator: T) -> (r: Self)
        ensures
            r.separator() == separator,
    {
        Interpose { separator }
    }
}

impl<T> Interpose<T> {
    /// The separator.
    pub closed spec fn separator(&self) -> T {
        self.separator
    }
}

impl<T: Clone> Transducer<T, T> for Interpose<T> {
    /// Whether no input has been seen yet.
    type State = bool;

    open spec fn callable(&self) -> bool {
        true
    }

    open spec fn lawful(&self) -> bool {
        clone_faithful::<T>()
    }

    open spec fn init_spec(&self) -> bool {
        true
    }

    open spec fn step_spec(&self, first: bool, x: T) -> (bool, Seq<T>, bool) {
        if first {
            (false, seq![x], false)
        } else {
            (false, seq![self.separator(), x], false)
        }
    }

    fn init(&self) -> (s: bool) {
        true
    }

    fn step(&self, first: &mut bool, x: T) -> (r: (Vec<T>, bool)) {
        if *first {
            *first = false;
            (vec![x], false)
        } else {
            let sep = self.separator.clone();
            proof {
                assert(cloned(self.separator, sep));
            }
            (vec![sep, x], false)
        }
    }
}

/// RepeatEach transducer - repeats each element n times.
pub struct RepeatEach<T> {
    n: usize,
    _phantom: PhantomData<T>,
}

impl<T> RepeatEach<T> {
    /// Emit each input `n` times.
    pub fn new(n: usize) -> (r: Self)
        ensures
            r.times() == n,
    {
        RepeatEach { n, _phantom: PhantomData }
    }

    /// How many times each input is emitted.
    pub closed spec fn times(&self) -> usize {
        self.n
    }
}

impl<T: Clone> Transducer<T, T> for RepeatEach<T> {
    type State = ();

    open spec fn callable(&self) -> bool {
        true
    }

    open spec fn lawful(&self) -> bool {
        clone_faithful::<T>()
    }

    open spec fn init_spec(&self) -> () {
        ()
    }

    open spec fn step_spec(&self, s: (), x: T) -> ((), Seq<T>, bool) {
        ((), Seq::new(self.times() as nat, |i: int| x), false)
    }

    fn init(&self) -> (s: ()) {
        ()
    }

    fn step(&self, s: &mut (), x: T) -> (r: (Vec<T>, bool)) {
        let mut out: Vec<T> = Vec::new();
        let mut i: usize = 0;
        while i < self.n
            invariant
                i <= self.n,
                out@.len() == i,
                clone_faithful::<T>() ==> forall|j: int| 0 <= j < i ==> out@[j] == x,
            decreases self.n - i,
        {
            let c = x.clone();
            proof {
                assert(cloned(x, c));
            }
            out.push(c);
            i = i + 1;
        }
        proof {
            if clone_faithful::<T>() {
                assert(out@ =~= Seq::new(self.times() as nat, |j: int| x));
            }
        }
        (out, false)
    }
}

} // verus!
