//! Optics: composable access to parts of immutable data.
//!
//! - a lens focuses on a part that always exists (`get`, `set`, `over`);
//! - an optional focuses on a part that may be missing;
//! - a prism focuses on one variant of a sum type (`preview`, `review`);
//! - an iso converts losslessly in both directions (`to`, `from`);
//! - a fold reads any number of parts; a traversal reads and rewrites them.
//!
//! Each kind of optic is a trait with a spec model of what it reads and
//! writes, implemented by the optic built from closures and by the optics
//! derived from others (composition, conversion, reversal). A lens is lawful
//! when it obeys the three lens laws:
//!
//! 1. GetPut: `set(s, get(s)) == s`
//! 2. PutGet: `get(set(s, a)) == a`
//! 3. PutPut: `set(set(s, a1), a2) == set(s, a2)`
//!
//! `law_compose_lens` proves that composition keeps them, and the laws of the
//! other optics are proved likewise below.

use crate::fnspec::{
    clone_faithful, fn1_app, fn1_det, fn1_total, ref_fn_app, ref_fn_det, ref_fn_total, refval_app,
    refval_det, refval_total,
};
use std::marker::PhantomData;
use vstd::prelude::*;

verus! {

/// A total focus on a part `A` of a structure `S`.
pub trait LensLike<S, A>: Sized {
    /// Every closure behind the lens may be called on every argument.
    spec fn callable(&self) -> bool;

    /// Every closure behind the lens is deterministic.
    spec fn lawful(&self) -> bool;

    /// The focused part of `s`.
    spec fn view_of(&self, s: S) -> A;

    /// `s` with its focused part replaced by `a`.
    spec fn update(&self, s: S, a: A) -> S;

    /// Extract the focused value.
    fn get(&self, source: &S) -> (r: A)
        requires
            self.callable(),
        ensures
            self.lawful() ==> r == self.view_of(*source),
    ;

    /// Replace the focused value, returning a new structure.
    fn set(&self, source: &S, value: A) -> (r: S)
        requires
            self.callable(),
        ensures
            self.lawful() ==> r == self.update(*source, value),
    ;

    /// Transform the focused value with `f`: `set(source, f(get(source)))`.
    fn over<F: Fn(A) -> A>(&self, source: &S, f: F) -> (r: S)
        requires
            self.callable(),
            fn1_total(f),
        ensures
            self.lawful() && fn1_det(f) ==> r == self.update(
                *source,
                fn1_app(f, self.view_of(*source)),
            ),
    {
        let current = self.get(source);
        let updated = f(current);
        self.set(source, updated)
    }

    /// Focus further with `other`: the composed lens reads and writes the
    /// part that `other` focuses on inside the part this lens focuses on.
    fn compose<L2>(self, other: L2) -> (c: ComposedLens<Self, L2, A>)
        ensures
            c.outer() == self,
            c.inner() == other,
    {
        ComposedLens { outer: self, inner: other, _phantom: PhantomData }
    }

    /// Focus further with `inner` (the same as `compose`).
    fn then<L2>(self, inner: L2) -> (c: ComposedLens<Self, L2, A>)
        ensures
            c.outer() == self,
            c.inner() == inner,
    {
        ComposedLens { outer: self, inner, _phantom: PhantomData }
    }

    /// This lens as a traversal with exactly one focus.
    fn to_traversal(&self) -> (r: LensTraversal<'_, Self, S, A>)
        ensures
            *r.lens() == *self,
    {
        LensTraversal { lens: self, _phantom: PhantomData }
    }

    /// This lens as a fold with exactly one element.
    fn to_fold(&self) -> (r: LensFold<'_, Self, S, A>)
        ensures
            *r.lens() == *self,
    {
        LensFold { lens: self, _phantom: PhantomData }
    }
}

/// The lens laws: GetPut, PutGet and PutPut.
pub open spec fn lens_laws<S, A, L: LensLike<S, A>>(l: L) -> bool {
    &&& forall|s: S| #[trigger] l.update(s, l.view_of(s)) == s
    &&& forall|s: S, a: A| #[trigger] l.view_of(l.update(s, a)) == a
    &&& forall|s: S, a1: A, a2: A| #[trigger] l.update(l.update(s, a1), a2) == l.update(s, a2)
}

/// What `over` does under the lens laws: reading after rewriting with `g`
/// gives `g` of what was read before, and rewriting with the identity
/// changes nothing.
pub proof fn law_lens_over<S, A, L: LensLike<S, A>>(l: L, s: S, g: spec_fn(A) -> A)
    requires
        lens_laws(l),
    ensures
        l.view_of(l.update(s, g(l.view_of(s)))) == g(l.view_of(s)),
        l.update(s, (|a: A| a)(l.view_of(s))) == s,
{
    assert(l.view_of(l.update(s, g(l.view_of(s)))) == g(l.view_of(s)));
    assert(l.update(s, l.view_of(s)) == s);
}

/// A lens given by a getter and a setter closure.
pub struct Lens<S, A, G, T> {
    get_fn: G,
    set_fn: T,
    _phantom: PhantomData<(S, A)>,
}

impl<S, A, G: Fn(&S) -> A, T: Fn(&S, A) -> S> Lens<S, A, G, T> {
    /// Create a lens from a getter and a setter.
    pub fn new(get_fn: G, set_fn: T) -> (r: Self)
        ensures
            r.getter() == get_fn,
            r.setter() == set_fn,
    {
        Lens { get_fn, set_fn, _phantom: PhantomData }
    }
}

impl<S, A, G, T> Lens<S, A, G, T> {
    /// The getter.
    pub closed spec fn getter(&self) -> G {
        self.get_fn
    }

    /// The setter.
    pub closed spec fn setter(&self) -> T {
        self.set_fn
    }
}

impl<S, A, G: Fn(&S) -> A, T: Fn(&S, A) -> S> LensLike<S, A> for Lens<S, A, G, T> {
    open spec fn callable(&self) -> bool {
        ref_fn_total(self.getter()) && refval_total(self.setter())
    }

    open spec fn lawful(&self) -> bool {
        ref_fn_det(self.getter()) && refval_det(self.setter())
    }

    open spec fn view_of(&self, s: S) -> A {
        ref_fn_app(self.getter(), s)
    }

    open spec fn update(&self, s: S, a: A) -> S {
        refval_app(self.setter(), s, a)
    }

    fn get(&self, source: &S) -> (r: A) {
        (self.get_fn)(source)
    }

    fn set(&self, source: &S, value: A) -> (r: S) {
        (self.set_fn)(source, value)
    }
}

/// A lens followed by a lens that focuses inside the first one's part.
pub struct ComposedLens<L1, L2, A> {
    outer: L1,
    inner: L2,
    _phantom: PhantomData<A>,
}

impl<L1, L2, A> ComposedLens<L1, L2, A> {
    /// The lens applied first.
    pub closed spec fn outer(&self) -> L1 {
        self.outer
    }

    /// The lens applied inside the first one's part.
    pub closed spec fn inner(&self) -> L2 {
        self.inner
    }
}

impl<S, A, B, L1: LensLike<S, A>, L2: LensLike<A, B>> LensLike<S, B> for ComposedLens<L1, L2, A> {
    open spec fn callable(&self) -> bool {
        self.outer().callable() && self.inner().callable()
    }

    open spec fn lawful(&self) -> bool {
        self.outer().lawful() && self.inner().lawful()
    }

    open spec fn view_of(&self, s: S) -> B {
        self.inner().view_of(self.outer().view_of(s))
    }

    open spec fn update(&self, s: S, b: B) -> S {
        self.outer().update(s, self.inner().update(self.outer().view_of(s), b))
    }

    fn get(&self, source: &S) -> (r: B) {
        let part = self.outer.get(source);
        self.inner.get(&part)
    }

    fn set(&self, source: &S, value: B) -> (r: S) {
        let part = self.outer.get(source);
        let updated = self.inner.set(&part, value);
        self.outer.set(source, updated)
    }
}

/// Composition keeps the lens laws: if both lenses obey GetPut, PutGet and
/// PutPut, so does the composed lens.
pub proof fn law_compose_lens<S, A, B, L1: LensLike<S, A>, L2: LensLike<A, B>>(
    c: ComposedLens<L1, L2, A>,
)
    requires
        lens_laws(c.outer()),
        lens_laws(c.inner()),
    ensures
        lens_laws::<S, B, ComposedLens<L1, L2, A>>(c),
{
    let o = c.outer();
    let i = c.inner();
    assert forall|s: S| #[trigger] c.update(s, c.view_of(s)) == s by {
        assert(i.update(o.view_of(s), i.view_of(o.view_of(s))) == o.view_of(s));
        assert(o.update(s, o.view_of(s)) == s);
    }
    assert forall|s: S, b: B| #[trigger] c.view_of(c.update(s, b)) == b by {
        let x = i.update(o.view_of(s), b);
        assert(o.view_of(o.update(s, x)) == x);
        assert(i.view_of(x) == b);
    }
    assert forall|s: S, b1: B, b2: B| #[trigger]
        c.update(c.update(s, b1), b2) == c.update(s, b2) by {
        let x1 = i.update(o.view_of(s), b1);
        let s1 = o.update(s, x1);
        assert(o.view_of(s1) == x1);
        assert(i.update(x1, b2) == i.update(o.view_of(s), b2));
        assert(o.update(s1, i.update(x1, b2)) == o.update(s, i.update(x1, b2)));
    }
}

/// A partial focus: a part of `S` that may be missing.
pub struct Optional<S, A, G, T> {
    get_fn: G,
    set_fn: T,
    _phantom: PhantomData<(S, A)>,
}

impl<S: Clone, A, G: Fn(&S) -> Option<A>, T: Fn(&S, A) -> S> Optional<S, A, G, T> {
    /// Create an optional from a partial getter and a setter.
    pub fn new(get_fn: G, set_fn: T) -> (r: Self)
        ensures
            r.getter() == get_fn,
            r.setter() == set_fn,
    {
        Optional { get_fn, set_fn, _phantom: PhantomData }
    }

    /// Every closure of the optional may be called on every argument.
    pub open spec fn callable(&self) -> bool {
        ref_fn_total(self.getter()) && refval_total(self.setter())
    }

    /// Every closure of the optional is deterministic.
    pub open spec fn lawful(&self) -> bool {
        ref_fn_det(self.getter()) && refval_det(self.setter())
    }

    /// The focused part of `s`, if present.
    pub open spec fn view_of(&self, s: S) -> Option<A> {
        ref_fn_app(self.getter(), s)
    }

    /// `s` with its focused part set to `a`.
    pub open spec fn update(&self, s: S, a: A) -> S {
        refval_app(self.setter(), s, a)
    }

    /// The focused value, if present.
    pub fn get(&self, source: &S) -> (r: Option<A>)
        requires
            self.callable(),
        ensures
            self.lawful() ==> r == self.view_of(*source),
    {
        (self.get_fn)(source)
    }

    /// The focused value, or `default` when it is missing.
    pub fn get_or(&self, source: &S, default: A) -> (r: A)
        requires
            self.callable(),
        ensures
            self.lawful() ==> r == match self.view_of(*source) {
                Some(a) => a,
                None => default,
            },
    {
        match self.get(source) {
            Some(a) => a,
            None => default,
        }
    }

    /// Set the focused value, returning a new structure.
    pub fn set(&self, source: &S, value: A) -> (r: S)
        requires
            self.callable(),
        ensures
            self.lawful() ==> r == self.update(*source, value),
    {
        (self.set_fn)(source, value)
    }

    /// Transform the focused value when present; otherwise a clone of the
    /// structure.
    pub fn over<F: Fn(A) -> A>(&self, source: &S, f: F) -> (r: S)
        requires
            self.callable(),
            fn1_total(f),
        ensures
            self.lawful() && fn1_det(f) ==> match self.view_of(*source) {
                Some(a) => r == self.update(*source, fn1_app(f, a)),
                None => cloned(*source, r),
            },
    {
        match self.get(source) {
            Some(current) => {
                let updated = f(current);
                self.set(source, updated)
            },
            None => source.clone(),
        }
    }

    /// A fold over the focused value: one element when present, none
    /// otherwise.
    pub fn to_fold(&self) -> (r: OptionalFold<'_, S, A, G, T>)
        ensures
            *r.optional() == *self,
    {
        OptionalFold { optional: self }
    }
}

impl<S, A, G, T> Optional<S, A, G, T> {
    /// The partial getter.
    pub closed spec fn getter(&self) -> G {
        self.get_fn
    }

    /// The setter.
    pub closed spec fn setter(&self) -> T {
        self.set_fn
    }
}

/// The elements of an optional value.
pub open spec fn option_seq<A>(o: Option<A>) -> Seq<A> {
    match o {
        Some(a) => seq![a],
        None => Seq::empty(),
    }
}

/// A read-only focus on any number of parts `A` of a structure `S`.
pub trait FoldLike<S, A>: Sized {
    /// Every closure behind the fold may be called on every argument.
    spec fn callable(&self) -> bool;

    /// Every closure behind the fold is deterministic.
    spec fn lawful(&self) -> bool;

    /// The focused parts of `s`, in order.
    spec fn elements(&self, s: S) -> Seq<A>;

    /// All focused values.
    fn fold_of(&self, source: &S) -> (r: Vec<A>)
        requires
            self.callable(),
        ensures
            self.lawful() ==> r@ == self.elements(*source),
    ;

    /// Whether there are no focused values.
    fn is_empty(&self, source: &S) -> (r: bool)
        requires
            self.callable(),
        ensures
            self.lawful() ==> r == (self.elements(*source).len() == 0),
    {
        let all = self.fold_of(source);
        all.len() == 0
    }

    /// How many focused values there are.
    fn length(&self, source: &S) -> (r: usize)
        requires
            self.callable(),
        ensures
            self.lawful() ==> r == self.elements(*source).len(),
    {
        let all = self.fold_of(source);
        all.len()
    }

    /// The first focused value, if any.
    fn first(&self, source: &S) -> (r: Option<A>)
        requires
            self.callable(),
        ensures
            self.lawful() ==> r == if self.elements(*source).len() == 0 {
                None
            } else {
                Some(self.elements(*source)[0])
            },
    {
        let mut all = self.fold_of(source);
        if all.len() == 0 {
            None
        } else {
            Some(all.swap_remove(0))
        }
    }

    /// Whether some focused value satisfies `f`.
    fn any<P: Fn(&A) -> bool>(&self, source: &S, f: P) -> (r: bool)
        requires
            self.callable(),
            crate::fnspec::pred_total(f),
        ensures
            self.lawful() && crate::fnspec::pred_det(f) ==> r == exists|i: int|
                0 <= i < self.elements(*source).len() && #[trigger] crate::fnspec::pred_app(
                    f,
                    self.elements(*source)[i],
                ),
    {
        let all = self.fold_of(source);
        let found = crate::collectors::search_vec(all, &f, true);
        proof {
            crate::collectors::lemma_first_answering_none(self.elements(*source), f, true);
        }
        found.is_some()
    }

    /// Whether every focused value satisfies `f`.
    fn all<P: Fn(&A) -> bool>(&self, source: &S, f: P) -> (r: bool)
        requires
            self.callable(),
            crate::fnspec::pred_total(f),
        ensures
            self.lawful() && crate::fnspec::pred_det(f) ==> r == forall|i: int|
                0 <= i < self.elements(*source).len() ==> #[trigger] crate::fnspec::pred_app(
                    f,
                    self.elements(*source)[i],
                ),
    {
        let all = self.fold_of(source);
        let found = crate::collectors::search_vec(all, &f, false);
        proof {
            crate::collectors::lemma_first_answering_none(self.elements(*source), f, false);
        }
        found.is_none()
    }

    /// The first focused value that satisfies `f`.
    fn find<P: Fn(&A) -> bool>(&self, source: &S, f: P) -> (r: Option<A>)
        requires
            self.callable(),
            crate::fnspec::pred_total(f),
        ensures
            self.lawful() && crate::fnspec::pred_det(f) ==> r
                == crate::collectors::first_answering(self.elements(*source), f, true),
    {
        let all = self.fold_of(source);
        crate::collectors::search_vec(all, &f, true)
    }

    /// Fold further with `inner`: the composed fold reads, in order, the parts
    /// that `inner` reads in each part this fold reads.
    fn then<F2>(self, inner: F2) -> (c: ComposedFold<Self, F2, A>)
        ensures
            c.outer() == self,
            c.inner() == inner,
    {
        ComposedFold { outer: self, inner, _phantom: PhantomData }
    }
}

/// The fold of an optional: its focused value when present.
pub struct OptionalFold<'a, S, A, G, T> {
    optional: &'a Optional<S, A, G, T>,
}

impl<'a, S, A, G, T> OptionalFold<'a, S, A, G, T> {
    /// The optional folded over.
    pub closed spec fn optional(&self) -> &'a Optional<S, A, G, T> {
        self.optional
    }
}

impl<'a, S: Clone, A, G: Fn(&S) -> Option<A>, T: Fn(&S, A) -> S> FoldLike<S, A> for OptionalFold<
    'a,
    S,
    A,
    G,
    T,
> {
    open spec fn callable(&self) -> bool {
        self.optional().callable()
    }

    open spec fn lawful(&self) -> bool {
        self.optional().lawful()
    }

    open spec fn elements(&self, s: S) -> Seq<A> {
        option_seq(self.optional().view_of(s))
    }

    fn fold_of(&self, source: &S) -> (r: Vec<A>) {
        match self.optional.get(source) {
            Some(a) => vec![a],
            None => Vec::new(),
        }
    }
}

/// A fold given by a closure that lists the focused values.
pub struct Fold<S, A, F> {
    fold_fn: F,
    _phantom: PhantomData<(S, A)>,
}

impl<S, A, F: Fn(&S) -> Vec<A>> Fold<S, A, F> {
    /// Create a fold from a function listing the focused values.
    pub fn new(fold_fn: F) -> (r: Self)
        ensures
            r.lister() == fold_fn,
    {
        Fold { fold_fn, _phantom: PhantomData }
    }
}

impl<S, A, F> Fold<S, A, F> {
    /// The function listing the focused values.
    pub closed spec fn lister(&self) -> F {
        self.fold_fn
    }
}

impl<S, A, F: Fn(&S) -> Vec<A>> FoldLike<S, A> for Fold<S, A, F> {
    open spec fn callable(&self) -> bool {
        ref_fn_total(self.lister())
    }

    open spec fn lawful(&self) -> bool {
        ref_fn_det(self.lister())
    }

    open spec fn elements(&self, s: S) -> Seq<A> {
        ref_fn_app(self.lister(), s)@
    }

    fn fold_of(&self, source: &S) -> (r: Vec<A>) {
        let r = (self.fold_fn)(source);
        proof {
            if self.lawful() {
                crate::collectors::lemma_ref_fn_answer(self.lister(), *source, r);
            }
        }
        r
    }
}

/// The elements that `inner` reads in each of `parts`, in order.
pub open spec fn inner_elements<A, B, F2: FoldLike<A, B>>(inner: F2, parts: Seq<A>) -> Seq<B>
    decreases parts.len(),
{
    if parts.len() == 0 {
        Seq::empty()
    } else {
        inner_elements(inner, parts.drop_last()) + inner.elements(parts.last())
    }
}

/// A fold followed by a fold over each part it reads.
pub struct ComposedFold<F1, F2, A> {
    outer: F1,
    inner: F2,
    _phantom: PhantomData<A>,
}

impl<F1, F2, A> ComposedFold<F1, F2, A> {
    /// The fold applied first.
    pub closed spec fn outer(&self) -> F1 {
        self.outer
    }

    /// The fold applied to each part the first one reads.
    pub closed spec fn inner(&self) -> F2 {
        self.inner
    }
}

impl<S, A, B, F1: FoldLike<S, A>, F2: FoldLike<A, B>> FoldLike<S, B> for ComposedFold<F1, F2, A> {
    open spec fn callable(&self) -> bool {
        self.outer().callable() && self.inner().callable()
    }

    open spec fn lawful(&self) -> bool {
        self.outer().lawful() && self.inner().lawful()
    }

    open spec fn elements(&self, s: S) -> Seq<B> {
        inner_elements(self.inner(), self.outer().elements(s))
    }

    fn fold_of(&self, source: &S) -> (r: Vec<B>) {
        let parts = self.outer.fold_of(source);
        let ghost ps = parts@;
        let mut result: Vec<B> = Vec::new();
        let mut i: usize = 0;
        assert(ps.take(0) =~= Seq::<A>::empty());
        while i < parts.len()
            invariant
                i <= parts.len(),
                parts@ == ps,
                self.inner().callable(),
                self.inner().lawful() ==> result@ == inner_elements(self.inner(), ps.take(i as int)),
            decreases parts.len() - i,
        {
            let mut more = self.inner.fold_of(&parts[i]);
            proof {
                assert(ps.take(i + 1).drop_last() =~= ps.take(i as int));
            }
            result.append(&mut more);
            i += 1;
        }
        assert(ps.take(i as int) =~= ps);
        result
    }
}


/// `s` with `f` applied to each element.
pub open spec fn mapped_by<A, F: Fn(A) -> A>(s: Seq<A>, f: F) -> Seq<A> {
    s.map_values(|a: A| fn1_app(f, a))
}

/// Apply `f` to each element of `v`, in order.
fn map_vec<A, F: Fn(A) -> A>(v: Vec<A>, f: &F) -> (r: Vec<A>)
    requires
        fn1_total(*f),
    ensures
        r@.len() == v@.len(),
        fn1_det(*f) ==> r@ == mapped_by(v@, *f),
{
    let ghost v0 = v@;
    let mut rev = crate::transducer::reversed(v);
    let ghost mut done: Seq<A> = Seq::empty();
    let mut out: Vec<A> = Vec::new();
    assert(done + rev@.reverse() =~= v0);
    while rev.len() > 0
        invariant
            done + rev@.reverse() == v0,
            out@.len() == done.len(),
            fn1_total(*f),
            fn1_det(*f) ==> out@ == mapped_by(done, *f),
        decreases rev.len(),
    {
        let ghost before = rev@;
        let x = rev.pop().unwrap();
        proof {
            crate::collectors::lemma_consume(done, before, x);
        }
        let y = f(x);
        proof {
            if fn1_det(*f) {
                assert(fn1_app(*f, x) == y);
                assert(mapped_by(done.push(x), *f) =~= mapped_by(done, *f).push(y));
            }
            done = done.push(x);
        }
        out.push(y);
    }
    assert(done =~= v0);
    out
}

/// `n` copies of `v`.
pub open spec fn filled<A>(n: nat, v: A) -> Seq<A> {
    Seq::new(n, |i: int| v)
}

/// A focus on any number of parts `A` of a structure `S` that can be read
/// together and rewritten together.
pub trait TraversalLike<S, A>: Sized {
    /// Every closure behind the traversal may be called on every argument.
    spec fn callable(&self) -> bool;

    /// Every closure behind the traversal is deterministic.
    spec fn lawful(&self) -> bool;

    /// The focused parts of `s`, in order.
    spec fn foci(&self, s: S) -> Seq<A>;

    /// `s` with its focused parts replaced, in order, by `values`.
    spec fn rebuild(&self, s: S, values: Seq<A>) -> S;

    /// All focused values.
    fn get_all(&self, source: &S) -> (r: Vec<A>)
        requires
            self.callable(),
        ensures
            self.lawful() ==> r@ == self.foci(*source),
    ;

    /// Replace the focused values, in order, by `values`.
    fn put_all(&self, source: &S, values: Vec<A>) -> (r: S)
        requires
            self.callable(),
        ensures
            self.lawful() ==> r == self.rebuild(*source, values@),
    ;

    /// Transform every focused value with `f`.
    fn over_all<F: Fn(A) -> A>(&self, source: &S, f: F) -> (r: S)
        requires
            self.callable(),
            fn1_total(f),
        ensures
            self.lawful() && fn1_det(f) ==> r == self.rebuild(
                *source,
                mapped_by(self.foci(*source), f),
            ),
    {
        let all = self.get_all(source);
        let changed = map_vec(all, &f);
        self.put_all(source, changed)
    }

    /// Set every focused value to clones of `value`.
    fn set_all(&self, source: &S, value: A) -> (r: S) where A: Clone
        requires
            self.callable(),
        ensures
            self.lawful() && clone_faithful::<A>() ==> r == self.rebuild(
                *source,
                filled(self.foci(*source).len(), value),
            ),
    {
        let all = self.get_all(source);
        let n = all.len();
        let mut values: Vec<A> = Vec::new();
        let mut i: usize = 0;
        while i < n
            invariant
                i <= n,
                values@.len() == i,
                clone_faithful::<A>() ==> values@ == filled(i as nat, value),
            decreases n - i,
        {
            let c = value.clone();
            proof {
                if clone_faithful::<A>() {
                    assert(cloned(value, c));
                    assert(values@.push(c) =~= filled((i + 1) as nat, value));
                }
            }
            values.push(c);
            i += 1;
        }
        self.put_all(source, values)
    }

    /// A fold over the focused values that borrows this traversal.
    fn to_fold(&self) -> (r: TraversalFold<'_, Self, S, A>)
        ensures
            *r.traversal() == *self,
    {
        TraversalFold { traversal: self, _phantom: PhantomData }
    }

    /// A fold over the focused values that takes this traversal.
    fn as_fold(self) -> (r: OwnedTraversalFold<Self, S, A>)
        ensures
            r.traversal() == self,
    {
        OwnedTraversalFold { traversal: self, _phantom: PhantomData }
    }

    /// Traverse further with `inner`: the composed traversal focuses, in
    /// order, on the parts `inner` focuses on in each part this one does.
    fn then<T2>(self, inner: T2) -> (c: ComposedTraversal<Self, T2, A>)
        ensures
            c.outer() == self,
            c.inner() == inner,
    {
        ComposedTraversal { outer: self, inner, _phantom: PhantomData }
    }
}

/// The traversal laws, for as many values as there are foci: putting back
/// what was read changes nothing, reading what was put gives it back, and a
/// second put overrides the first.
pub open spec fn traversal_laws<S, A, T: TraversalLike<S, A>>(t: T) -> bool {
    &&& forall|s: S| #[trigger] t.rebuild(s, t.foci(s)) == s
    &&& forall|s: S, vs: Seq<A>|
        vs.len() == t.foci(s).len() ==> #[trigger] t.foci(t.rebuild(s, vs)) == vs
    &&& forall|s: S, vs: Seq<A>, ws: Seq<A>|
        vs.len() == t.foci(s).len() && ws.len() == t.foci(s).len() ==> #[trigger] t.rebuild(
            t.rebuild(s, vs),
            ws,
        ) == t.rebuild(s, ws)
}

/// Identity law of traversals: rewriting every focus with the identity
/// changes nothing.
pub proof fn law_traversal_identity<S, A, T: TraversalLike<S, A>>(t: T, s: S)
    requires
        traversal_laws(t),
    ensures
        t.rebuild(s, t.foci(s).map_values(|a: A| a)) == s,
{
    assert(t.foci(s).map_values(|a: A| a) =~= t.foci(s));
}

/// Composition law of traversals: rewriting with `f` and then with `g` is
/// rewriting once with `g` after `f`.
pub proof fn law_traversal_composition<S, A, T: TraversalLike<S, A>>(
    t: T,
    s: S,
    f: spec_fn(A) -> A,
    g: spec_fn(A) -> A,
)
    requires
        traversal_laws(t),
    ensures
        ({
            let s1 = t.rebuild(s, t.foci(s).map_values(f));
            t.rebuild(s1, t.foci(s1).map_values(g))
        }) == t.rebuild(s, t.foci(s).map_values(|a: A| g(f(a)))),
{
    let vs = t.foci(s).map_values(f);
    let s1 = t.rebuild(s, vs);
    assert(vs.len() == t.foci(s).len());
    assert(t.foci(s1) == vs);
    assert(vs.map_values(g) =~= t.foci(s).map_values(|a: A| g(f(a))));
}

/// A traversal given by a function that lists the foci and one that puts
/// new values into them, in order.
pub struct Traversal<S, A, G, P> {
    get_all_fn: G,
    put_all_fn: P,
    _phantom: PhantomData<(S, A)>,
}

impl<S, A, G: Fn(&S) -> Vec<A>, P: Fn(&S, Vec<A>) -> S> Traversal<S, A, G, P> {
    /// Create a traversal from a function listing the foci and one putting
    /// new values into them.
    pub fn new(get_all_fn: G, put_all_fn: P) -> (r: Self)
        ensures
            r.lister() == get_all_fn,
            r.putter() == put_all_fn,
    {
        Traversal { get_all_fn, put_all_fn, _phantom: PhantomData }
    }
}

impl<S, A, G, P> Traversal<S, A, G, P> {
    /// The function listing the foci.
    pub closed spec fn lister(&self) -> G {
        self.get_all_fn
    }

    /// The function putting new values into the foci.
    pub closed spec fn putter(&self) -> P {
        self.put_all_fn
    }
}

/// A vector holding `vs`.
pub open spec fn vec_of<A>(vs: Seq<A>) -> Vec<A> {
    choose|v: Vec<A>| v@ == vs
}

impl<S, A, G: Fn(&S) -> Vec<A>, P: Fn(&S, Vec<A>) -> S> TraversalLike<S, A> for Traversal<
    S,
    A,
    G,
    P,
> {
    open spec fn callable(&self) -> bool {
        ref_fn_total(self.lister()) && refval_total(self.putter())
    }

    open spec fn lawful(&self) -> bool {
        &&& ref_fn_det(self.lister())
        &&& refval_det(self.putter())
        &&& forall|s: S, v1: Vec<A>, v2: Vec<A>|
            v1@ == v2@ ==> #[trigger] refval_app(self.putter(), s, v1) == #[trigger] refval_app(
                self.putter(),
                s,
                v2,
            )
    }

    open spec fn foci(&self, s: S) -> Seq<A> {
        ref_fn_app(self.lister(), s)@
    }

    open spec fn rebuild(&self, s: S, values: Seq<A>) -> S {
        refval_app(self.putter(), s, vec_of(values))
    }

    fn get_all(&self, source: &S) -> (r: Vec<A>) {
        let r = (self.get_all_fn)(source);
        proof {
            if self.lawful() {
                crate::collectors::lemma_ref_fn_answer(self.lister(), *source, r);
            }
        }
        r
    }

    fn put_all(&self, source: &S, values: Vec<A>) -> (r: S) {
        let ghost vs = values;
        let r = (self.put_all_fn)(source, values);
        proof {
            if self.lawful() {
                assert(refval_app(self.putter(), *source, vs) == r);
                assert(vec_of(vs@)@ == vs@);
            }
        }
        r
    }
}

/// The fold of a borrowed traversal.
pub struct TraversalFold<'a, T, S, A> {
    traversal: &'a T,
    _phantom: PhantomData<(S, A)>,
}

impl<'a, T, S, A> TraversalFold<'a, T, S, A> {
    /// The traversal folded over.
    pub closed spec fn traversal(&self) -> &'a T {
        self.traversal
    }
}

impl<'a, S, A, T: TraversalLike<S, A>> FoldLike<S, A> for TraversalFold<'a, T, S, A> {
    open spec fn callable(&self) -> bool {
        self.traversal().callable()
    }

    open spec fn lawful(&self) -> bool {
        self.traversal().lawful()
    }

    open spec fn elements(&self, s: S) -> Seq<A> {
        self.traversal().foci(s)
    }

    fn fold_of(&self, source: &S) -> (r: Vec<A>) {
        self.traversal.get_all(source)
    }
}

/// The fold of an owned traversal.
pub struct OwnedTraversalFold<T, S, A> {
    traversal: T,
    _phantom: PhantomData<(S, A)>,
}

impl<T, S, A> OwnedTraversalFold<T, S, A> {
    /// The traversal folded over.
    pub closed spec fn traversal(&self) -> T {
        self.traversal
    }
}

impl<S, A, T: TraversalLike<S, A>> FoldLike<S, A> for OwnedTraversalFold<T, S, A> {
    open spec fn callable(&self) -> bool {
        self.traversal().callable()
    }

    open spec fn lawful(&self) -> bool {
        self.traversal().lawful()
    }

    open spec fn elements(&self, s: S) -> Seq<A> {
        self.traversal().foci(s)
    }

    fn fold_of(&self, source: &S) -> (r: Vec<A>) {
        self.traversal.get_all(source)
    }
}

/// The foci that `inner` has in each of `parts`, in order.
pub open spec fn inner_foci<A, B, T2: TraversalLike<A, B>>(inner: T2, parts: Seq<A>) -> Seq<B>
    decreases parts.len(),
{
    if parts.len() == 0 {
        Seq::empty()
    } else {
        inner.foci(parts[0]) + inner_foci(inner, parts.drop_first())
    }
}

/// The smaller of two lengths.
pub open spec fn at_most(a: nat, b: nat) -> nat {
    if a < b {
        a
    } else {
        b
    }
}

/// Each of `parts` rebuilt by `inner` with its share of `values`: as many
/// values as it has foci, taken in order (fewer when they run out).
pub open spec fn regroup<A, B, T2: TraversalLike<A, B>>(
    inner: T2,
    parts: Seq<A>,
    values: Seq<B>,
) -> Seq<A>
    decreases parts.len(),
{
    if parts.len() == 0 {
        Seq::empty()
    } else {
        let k = at_most(inner.foci(parts[0]).len(), values.len());
        seq![inner.rebuild(parts[0], values.take(k as int))] + regroup(
            inner,
            parts.drop_first(),
            values.skip(k as int),
        )
    }
}

/// Regrouping the rewritten inner foci of `parts` rebuilds each part with its
/// own foci rewritten.
proof fn lemma_regroup_mapped<A, B, T2: TraversalLike<A, B>, F: Fn(B) -> B>(
    inner: T2,
    parts: Seq<A>,
    f: F,
)
    ensures
        regroup(inner, parts, mapped_by(inner_foci(inner, parts), f)) == parts.map_values(
            |a: A| inner.rebuild(a, mapped_by(inner.foci(a), f)),
        ),
    decreases parts.len(),
{
    let g = |a: A| inner.rebuild(a, mapped_by(inner.foci(a), f));
    if parts.len() == 0 {
        assert(parts.map_values(g) =~= Seq::<A>::empty());
    } else {
        let first = inner.foci(parts[0]);
        let rest = inner_foci(inner, parts.drop_first());
        let values = mapped_by(inner_foci(inner, parts), f);
        assert(values =~= mapped_by(first, f) + mapped_by(rest, f));
        let k = at_most(first.len(), values.len());
        assert(k == first.len());
        assert(values.take(k as int) =~= mapped_by(first, f));
        assert(values.skip(k as int) =~= mapped_by(rest, f));
        lemma_regroup_mapped(inner, parts.drop_first(), f);
        assert(parts.map_values(g) =~= seq![g(parts[0])] + parts.drop_first().map_values(g));
    }
}

/// Rewriting every focus of a composed traversal with `f` is rewriting each
/// focus of the outer traversal by rewriting, through the inner traversal,
/// each of its foci with `f`.
pub proof fn law_composed_over_all<S, A, B, T1: TraversalLike<S, A>, T2: TraversalLike<A, B>, F: Fn(B) -> B>(
    c: ComposedTraversal<T1, T2, A>,
    s: S,
    f: F,
)
    ensures
        c.rebuild(s, mapped_by(c.foci(s), f)) == c.outer().rebuild(
            s,
            c.outer().foci(s).map_values(
                |a: A| c.inner().rebuild(a, mapped_by(c.inner().foci(a), f)),
            ),
        ),
{
    lemma_regroup_mapped(c.inner(), c.outer().foci(s), f);
}

/// A traversal followed by a traversal of each of its foci.
pub struct ComposedTraversal<T1, T2, A> {
    outer: T1,
    inner: T2,
    _phantom: PhantomData<A>,
}

impl<T1, T2, A> ComposedTraversal<T1, T2, A> {
    /// The traversal applied first.
    pub closed spec fn outer(&self) -> T1 {
        self.outer
    }

    /// The traversal applied to each focus of the first one.
    pub closed spec fn inner(&self) -> T2 {
        self.inner
    }
}

impl<S, A, B, T1: TraversalLike<S, A>, T2: TraversalLike<A, B>> TraversalLike<S, B> for ComposedTraversal<T1, T2, A> {
    open spec fn callable(&self) -> bool {
        self.outer().callable() && self.inner().callable()
    }

    open spec fn lawful(&self) -> bool {
        self.outer().lawful() && self.inner().lawful()
    }

    open spec fn foci(&self, s: S) -> Seq<B> {
        inner_foci(self.inner(), self.outer().foci(s))
    }

    open spec fn rebuild(&self, s: S, values: Seq<B>) -> S {
        self.outer().rebuild(s, regroup(self.inner(), self.outer().foci(s), values))
    }

    fn get_all(&self, source: &S) -> (r: Vec<B>) {
        let parts = self.outer.get_all(source);
        let ghost ps = parts@;
        let mut rev = crate::transducer::reversed(parts);
        let ghost mut done: Seq<A> = Seq::empty();
        let mut result: Vec<B> = Vec::new();
        assert(done + rev@.reverse() =~= ps);
        while rev.len() > 0
            invariant
                done + rev@.reverse() == ps,
                self.inner().callable(),
                self.inner().lawful() ==> result@ + inner_foci(self.inner(), rev@.reverse())
                    == inner_foci(self.inner(), ps),
            decreases rev.len(),
        {
            let ghost before = rev@;
            let part = rev.pop().unwrap();
            proof {
                crate::collectors::lemma_consume(done, before, part);
                let whole = seq![part] + rev@.reverse();
                assert(whole[0] == part);
                assert(whole.drop_first() =~= rev@.reverse());
            }
            let mut more = self.inner.get_all(&part);
            proof {
                crate::transducer::lemma_pop_reverse(before);
                assert(before.reverse() == seq![part] + rev@.reverse());
                assert(inner_foci(self.inner(), before.reverse()) == self.inner().foci(part)
                    + inner_foci(self.inner(), rev@.reverse()));
                if self.inner().lawful() {
                    assert(result@ + more@ + inner_foci(self.inner(), rev@.reverse()) =~= result@
                        + (more@ + inner_foci(self.inner(), rev@.reverse())));
                }
                done = done.push(part);
            }
            result.append(&mut more);
        }
        assert(result@ + Seq::<B>::empty() =~= result@);
        result
    }

    fn put_all(&self, source: &S, values: Vec<B>) -> (r: S) {
        let parts = self.outer.get_all(source);
        let ghost ps = parts@;
        let ghost vs = values@;
        let mut rev = crate::transducer::reversed(parts);
        let mut pending = crate::transducer::reversed(values);
        let ghost mut done: Seq<A> = Seq::empty();
        let mut rebuilt: Vec<A> = Vec::new();
        assert(done + rev@.reverse() =~= ps);
        assert(pending@.reverse() =~= vs);
        while rev.len() > 0
            invariant
                done + rev@.reverse() == ps,
                self.inner().callable(),
                self.inner().lawful() ==> rebuilt@ + regroup(
                    self.inner(),
                    rev@.reverse(),
                    pending@.reverse(),
                ) == regroup(self.inner(), ps, vs),
            decreases rev.len(),
        {
            let ghost before = rev@;
            let part = rev.pop().unwrap();
            let ghost rest_vals = pending@.reverse();
            proof {
                crate::collectors::lemma_consume(done, before, part);
                let whole = seq![part] + rev@.reverse();
                assert(whole[0] == part);
                assert(whole.drop_first() =~= rev@.reverse());
            }
            let foci = self.inner.get_all(&part);
            let k = foci.len();
            let mut chunk: Vec<B> = Vec::new();
            let ghost start_pending = pending@.reverse();
            while chunk.len() < k && pending.len() > 0
                invariant
                    chunk@.len() <= k,
                    chunk@ + pending@.reverse() == start_pending,
                decreases pending.len(),
            {
                let ghost pb = pending@;
                let v = pending.pop().unwrap();
                proof {
                    crate::collectors::lemma_consume(chunk@, pb, v);
                }
                chunk.push(v);
            }
            let ghost kk = chunk@.len();
            proof {
                assert(kk == at_most(k as nat, start_pending.len()));
                assert(chunk@ =~= start_pending.take(kk as int));
                assert(pending@.reverse() =~= start_pending.skip(kk as int));
            }
            let new_part = self.inner.put_all(&part, chunk);
            proof {
                crate::transducer::lemma_pop_reverse(before);
                assert(before.reverse() == seq![part] + rev@.reverse());
                if self.inner().lawful() {
                    let whole = before.reverse();
                    assert(whole[0] == part);
                    assert(whole.drop_first() =~= rev@.reverse());
                    assert(foci@ == self.inner().foci(part));
                    assert(regroup(self.inner(), whole, start_pending) == seq![
                        self.inner().rebuild(part, start_pending.take(kk as int)),
                    ] + regroup(self.inner(), rev@.reverse(), start_pending.skip(kk as int)));
                    assert(foci@ == self.inner().foci(part));
                    assert(rebuilt@.push(new_part) + regroup(self.inner(), rev@.reverse(), pending@.reverse())
                        =~= rebuilt@ + (seq![new_part] + regroup(self.inner(), rev@.reverse(), pending@.reverse())));
                }
                done = done.push(part);
            }
            rebuilt.push(new_part);
        }
        proof {
            assert(rebuilt@ + Seq::<A>::empty() =~= rebuilt@);
        }
        self.outer.put_all(source, rebuilt)
    }
}


/// A lens seen as a traversal: its one focus.
pub struct LensTraversal<'a, L, S, A> {
    lens: &'a L,
    _phantom: PhantomData<(S, A)>,
}

impl<'a, L, S, A> LensTraversal<'a, L, S, A> {
    /// The lens.
    pub closed spec fn lens(&self) -> &'a L {
        self.lens
    }
}

impl<'a, S, A, L: LensLike<S, A>> TraversalLike<S, A> for LensTraversal<'a, L, S, A> {
    open spec fn callable(&self) -> bool {
        self.lens().callable()
    }

    open spec fn lawful(&self) -> bool {
        self.lens().lawful()
    }

    open spec fn foci(&self, s: S) -> Seq<A> {
        seq![self.lens().view_of(s)]
    }

    open spec fn rebuild(&self, s: S, values: Seq<A>) -> S {
        if values.len() > 0 {
            self.lens().update(s, values[0])
        } else {
            self.lens().update(s, self.lens().view_of(s))
        }
    }

    fn get_all(&self, source: &S) -> (r: Vec<A>) {
        let a = self.lens.get(source);
        vec![a]
    }

    fn put_all(&self, source: &S, values: Vec<A>) -> (r: S) {
        let mut values = values;
        if values.len() > 0 {
            let a = values.swap_remove(0);
            self.lens.set(source, a)
        } else {
            let a = self.lens.get(source);
            self.lens.set(source, a)
        }
    }
}

/// A lawful lens seen as a traversal obeys the traversal laws.
pub proof fn law_lens_traversal<'a, S, A, L: LensLike<S, A>>(t: LensTraversal<'a, L, S, A>)
    requires
        lens_laws(*t.lens()),
    ensures
        traversal_laws(t),
{
    let l = *t.lens();
    assert forall|s: S| #[trigger] t.rebuild(s, t.foci(s)) == s by {
        assert(t.foci(s)[0] == l.view_of(s));
    }
    assert forall|s: S, vs: Seq<A>| vs.len() == t.foci(s).len() implies #[trigger] t.foci(
        t.rebuild(s, vs),
    ) == vs by {
        assert(l.view_of(l.update(s, vs[0])) == vs[0]);
        assert(seq![vs[0]] =~= vs);
    }
    assert forall|s: S, vs: Seq<A>, ws: Seq<A>|
        vs.len() == t.foci(s).len() && ws.len() == t.foci(s).len() implies #[trigger] t.rebuild(
        t.rebuild(s, vs),
        ws,
    ) == t.rebuild(s, ws) by {
        let s1 = l.update(s, vs[0]);
        assert(l.view_of(s1) == vs[0]);
        if ws.len() > 0 {
            assert(l.update(s1, ws[0]) == l.update(s, ws[0]));
        } else {
            assert(l.update(s1, vs[0]) == l.update(s, vs[0]));
            assert(l.update(s, l.view_of(s)) == s);
        }
    }
}

/// A lens seen as a fold: its one focus.
pub struct LensFold<'a, L, S, A> {
    lens: &'a L,
    _phantom: PhantomData<(S, A)>,
}

impl<'a, L, S, A> LensFold<'a, L, S, A> {
    /// The lens.
    pub closed spec fn lens(&self) -> &'a L {
        self.lens
    }
}

impl<'a, S, A, L: LensLike<S, A>> FoldLike<S, A> for LensFold<'a, L, S, A> {
    open spec fn callable(&self) -> bool {
        self.lens().callable()
    }

    open spec fn lawful(&self) -> bool {
        self.lens().lawful()
    }

    open spec fn elements(&self, s: S) -> Seq<A> {
        seq![self.lens().view_of(s)]
    }

    fn fold_of(&self, source: &S) -> (r: Vec<A>) {
        let a = self.lens.get(source);
        vec![a]
    }
}

/// A focus on one variant `A` of a sum type `S`.
pub trait PrismLike<S, A>: Sized {
    /// Every closure behind the prism may be called on every argument.
    spec fn callable(&self) -> bool;

    /// Every closure behind the prism is deterministic, and clones of
    /// structures are equal to them.
    spec fn lawful(&self) -> bool;

    /// The part of `s`, when `s` is of the focused variant.
    spec fn peek(&self, s: S) -> Option<A>;

    /// The structure of the focused variant built from `a`.
    spec fn build(&self, a: A) -> S;

    /// The focused value, when the structure is of the focused variant.
    fn preview(&self, source: &S) -> (r: Option<A>)
        requires
            self.callable(),
        ensures
            self.lawful() ==> r == self.peek(*source),
    ;

    /// Build a structure of the focused variant.
    fn review(&self, value: A) -> (r: S)
        requires
            self.callable(),
        ensures
            self.lawful() ==> r == self.build(value),
    ;

    /// Transform the focused value when the structure is of the focused
    /// variant; otherwise a clone of the structure.
    fn over<F: Fn(A) -> A>(&self, source: &S, f: F) -> (r: S) where S: Clone
        requires
            self.callable(),
            fn1_total(f),
        ensures
            self.lawful() && fn1_det(f) ==> match self.peek(*source) {
                Some(a) => r == self.build(fn1_app(f, a)),
                None => cloned(*source, r),
            },
    {
        match self.preview(source) {
            Some(a) => {
                let b = f(a);
                self.review(b)
            },
            None => source.clone(),
        }
    }

    /// This prism as a traversal: one focus for the focused variant, none
    /// otherwise.
    fn to_traversal(&self) -> (r: PrismTraversal<'_, Self, S, A>)
        ensures
            *r.prism() == *self,
    {
        PrismTraversal { prism: self, _phantom: PhantomData }
    }

    /// This prism as a fold: one element for the focused variant, none
    /// otherwise.
    fn to_fold(&self) -> (r: PrismFold<'_, Self, S, A>)
        ensures
            *r.prism() == *self,
    {
        PrismFold { prism: self, _phantom: PhantomData }
    }
}

/// The prism laws: previewing what was reviewed gives it back, and a
/// structure that previews as `a` is what reviewing `a` builds.
pub open spec fn prism_laws<S, A, P: PrismLike<S, A>>(p: P) -> bool {
    &&& forall|a: A| #[trigger] p.peek(p.build(a)) == Some(a)
    &&& forall|s: S| #[trigger] p.peek(s) is Some ==> p.build(p.peek(s)->0) == s
}

/// A prism given by a partial getter and a constructor.
pub struct Prism<S, A, P, R> {
    preview_fn: P,
    review_fn: R,
    _phantom: PhantomData<(S, A)>,
}

impl<S, A, P: Fn(&S) -> Option<A>, R: Fn(A) -> S> Prism<S, A, P, R> {
    /// Create a prism from a partial getter and a constructor.
    pub fn new(preview_fn: P, review_fn: R) -> (r: Self)
        ensures
            r.previewer() == preview_fn,
            r.reviewer() == review_fn,
    {
        Prism { preview_fn, review_fn, _phantom: PhantomData }
    }
}

impl<S, A, P, R> Prism<S, A, P, R> {
    /// The partial getter.
    pub closed spec fn previewer(&self) -> P {
        self.preview_fn
    }

    /// The constructor.
    pub closed spec fn reviewer(&self) -> R {
        self.review_fn
    }
}

impl<S, A, P: Fn(&S) -> Option<A>, R: Fn(A) -> S> PrismLike<S, A> for Prism<S, A, P, R> {
    open spec fn callable(&self) -> bool {
        ref_fn_total(self.previewer()) && fn1_total(self.reviewer())
    }

    open spec fn lawful(&self) -> bool {
        ref_fn_det(self.previewer()) && fn1_det(self.reviewer())
    }

    open spec fn peek(&self, s: S) -> Option<A> {
        ref_fn_app(self.previewer(), s)
    }

    open spec fn build(&self, a: A) -> S {
        fn1_app(self.reviewer(), a)
    }

    fn preview(&self, source: &S) -> (r: Option<A>) {
        (self.preview_fn)(source)
    }

    fn review(&self, value: A) -> (r: S) {
        (self.review_fn)(value)
    }
}

/// A prism seen as a traversal.
pub struct PrismTraversal<'a, P, S, A> {
    prism: &'a P,
    _phantom: PhantomData<(S, A)>,
}

impl<'a, P, S, A> PrismTraversal<'a, P, S, A> {
    /// The prism.
    pub closed spec fn prism(&self) -> &'a P {
        self.prism
    }
}

impl<'a, S: Clone, A, P: PrismLike<S, A>> TraversalLike<S, A> for PrismTraversal<'a, P, S, A> {
    open spec fn callable(&self) -> bool {
        self.prism().callable()
    }

    open spec fn lawful(&self) -> bool {
        self.prism().lawful() && clone_faithful::<S>()
    }

    open spec fn foci(&self, s: S) -> Seq<A> {
        option_seq(self.prism().peek(s))
    }

    open spec fn rebuild(&self, s: S, values: Seq<A>) -> S {
        if self.prism().peek(s) is Some && values.len() > 0 {
            self.prism().build(values[0])
        } else {
            s
        }
    }

    fn get_all(&self, source: &S) -> (r: Vec<A>) {
        match self.prism.preview(source) {
            Some(a) => vec![a],
            None => Vec::new(),
        }
    }

    fn put_all(&self, source: &S, values: Vec<A>) -> (r: S) {
        let mut values = values;
        let matches = self.prism.preview(source).is_some();
        if matches && values.len() > 0 {
            let a = values.swap_remove(0);
            self.prism.review(a)
        } else {
            let c = source.clone();
            proof {
                assert(cloned(*source, c));
            }
            c
        }
    }
}

/// A prism seen as a fold.
pub struct PrismFold<'a, P, S, A> {
    prism: &'a P,
    _phantom: PhantomData<(S, A)>,
}

impl<'a, P, S, A> PrismFold<'a, P, S, A> {
    /// The prism.
    pub closed spec fn prism(&self) -> &'a P {
        self.prism
    }
}

impl<'a, S, A, P: PrismLike<S, A>> FoldLike<S, A> for PrismFold<'a, P, S, A> {
    open spec fn callable(&self) -> bool {
        self.prism().callable()
    }

    open spec fn lawful(&self) -> bool {
        self.prism().lawful()
    }

    open spec fn elements(&self, s: S) -> Seq<A> {
        option_seq(self.prism().peek(s))
    }

    fn fold_of(&self, source: &S) -> (r: Vec<A>) {
        match self.prism.preview(source) {
            Some(a) => vec![a],
            None => Vec::new(),
        }
    }
}

/// A lossless two-way conversion between `S` and `A`.
pub trait IsoLike<S, A>: Sized {
    /// Every closure behind the iso may be called on every argument.
    spec fn callable(&self) -> bool;

    /// Every closure behind the iso is deterministic.
    spec fn lawful(&self) -> bool;

    /// The conversion from `S` to `A`.
    spec fn forward(&self, s: S) -> A;

    /// The conversion from `A` back to `S`.
    spec fn backward(&self, a: A) -> S;

    /// Convert from `S` to `A`.
    fn to(&self, source: &S) -> (r: A)
        requires
            self.callable(),
        ensures
            self.lawful() ==> r == self.forward(*source),
    ;

    /// Convert from `A` back to `S`.
    fn from(&self, value: A) -> (r: S)
        requires
            self.callable(),
        ensures
            self.lawful() ==> r == self.backward(value),
    ;

    /// Transform through the conversion: `from(f(to(source)))`.
    fn over<F: Fn(A) -> A>(&self, source: &S, f: F) -> (r: S)
        requires
            self.callable(),
            fn1_total(f),
        ensures
            self.lawful() && fn1_det(f) ==> r == self.backward(fn1_app(f, self.forward(*source))),
    {
        let a = self.to(source);
        let b = f(a);
        self.from(b)
    }

    /// The iso in the other direction.
    fn reverse(self) -> (r: ReversedIso<Self, S, A>)
        ensures
            r.original() == self,
    {
        ReversedIso { iso: self, _phantom: PhantomData }
    }

    /// This iso as a lens: get converts, set converts the new value back.
    fn as_lens(self) -> (r: IsoLens<Self, S, A>)
        ensures
            r.iso() == self,
    {
        IsoLens { iso: self, _phantom: PhantomData }
    }

    /// This iso as a prism whose preview always succeeds.
    fn as_prism(self) -> (r: IsoPrism<Self, S, A>)
        ensures
            r.iso() == self,
    {
        IsoPrism { iso: self, _phantom: PhantomData }
    }

    /// This iso as a traversal with exactly one focus.
    fn to_traversal(&self) -> (r: IsoTraversal<'_, Self, S, A>)
        ensures
            *r.iso() == *self,
    {
        IsoTraversal { iso: self, _phantom: PhantomData }
    }

    /// This iso as a fold with exactly one element.
    fn to_fold(&self) -> (r: IsoFold<'_, Self, S, A>)
        ensures
            *r.iso() == *self,
    {
        IsoFold { iso: self, _phantom: PhantomData }
    }
}

/// The iso laws: converting there and back, or back and there, changes
/// nothing.
pub open spec fn iso_laws<S, A, I: IsoLike<S, A>>(i: I) -> bool {
    &&& forall|s: S| #[trigger] i.backward(i.forward(s)) == s
    &&& forall|a: A| #[trigger] i.forward(i.backward(a)) == a
}

/// An iso given by a conversion and its inverse.
pub struct Iso<S, A, T, F> {
    to_fn: T,
    from_fn: F,
    _phantom: PhantomData<(S, A)>,
}

impl<S, A, T: Fn(&S) -> A, F: Fn(A) -> S> Iso<S, A, T, F> {
    /// Create an iso from a conversion and its inverse.
    pub fn new(to_fn: T, from_fn: F) -> (r: Self)
        ensures
            r.forth() == to_fn,
            r.back() == from_fn,
    {
        Iso { to_fn, from_fn, _phantom: PhantomData }
    }
}

impl<S, A, T, F> Iso<S, A, T, F> {
    /// The conversion.
    pub closed spec fn forth(&self) -> T {
        self.to_fn
    }

    /// The inverse conversion.
    pub closed spec fn back(&self) -> F {
        self.from_fn
    }
}

impl<S, A, T: Fn(&S) -> A, F: Fn(A) -> S> IsoLike<S, A> for Iso<S, A, T, F> {
    open spec fn callable(&self) -> bool {
        ref_fn_total(self.forth()) && fn1_total(self.back())
    }

    open spec fn lawful(&self) -> bool {
        ref_fn_det(self.forth()) && fn1_det(self.back())
    }

    open spec fn forward(&self, s: S) -> A {
        ref_fn_app(self.forth(), s)
    }

    open spec fn backward(&self, a: A) -> S {
        fn1_app(self.back(), a)
    }

    fn to(&self, source: &S) -> (r: A) {
        (self.to_fn)(source)
    }

    fn from(&self, value: A) -> (r: S) {
        (self.from_fn)(value)
    }
}

/// An iso taken in the other direction.
pub struct ReversedIso<I, S, A> {
    iso: I,
    _phantom: PhantomData<(S, A)>,
}

impl<I, S, A> ReversedIso<I, S, A> {
    /// The iso reversed.
    pub closed spec fn original(&self) -> I {
        self.iso
    }
}

impl<S, A: Clone, I: IsoLike<S, A>> IsoLike<A, S> for ReversedIso<I, S, A> {
    open spec fn callable(&self) -> bool {
        self.original().callable()
    }

    open spec fn lawful(&self) -> bool {
        self.original().lawful() && clone_faithful::<A>()
    }

    open spec fn forward(&self, a: A) -> S {
        self.original().backward(a)
    }

    open spec fn backward(&self, s: S) -> A {
        self.original().forward(s)
    }

    fn to(&self, source: &A) -> (r: S) {
        let a = source.clone();
        proof {
            assert(cloned(*source, a));
        }
        self.iso.from(a)
    }

    fn from(&self, value: S) -> (r: A) {
        self.iso.to(&value)
    }
}

/// Reversing keeps the iso laws.
pub proof fn law_reverse_iso<S, A: Clone, I: IsoLike<S, A>>(r: ReversedIso<I, S, A>)
    requires
        iso_laws(r.original()),
    ensures
        iso_laws::<A, S, ReversedIso<I, S, A>>(r),
{
}

/// An iso seen as a lens.
pub struct IsoLens<I, S, A> {
    iso: I,
    _phantom: PhantomData<(S, A)>,
}

impl<I, S, A> IsoLens<I, S, A> {
    /// The iso.
    pub closed spec fn iso(&self) -> I {
        self.iso
    }
}

impl<S, A, I: IsoLike<S, A>> LensLike<S, A> for IsoLens<I, S, A> {
    open spec fn callable(&self) -> bool {
        self.iso().callable()
    }

    open spec fn lawful(&self) -> bool {
        self.iso().lawful()
    }

    open spec fn view_of(&self, s: S) -> A {
        self.iso().forward(s)
    }

    open spec fn update(&self, s: S, a: A) -> S {
        self.iso().backward(a)
    }

    fn get(&self, source: &S) -> (r: A) {
        self.iso.to(source)
    }

    fn set(&self, source: &S, value: A) -> (r: S) {
        self.iso.from(value)
    }
}

/// A lawful iso seen as a lens obeys the lens laws.
pub proof fn law_iso_lens<S, A, I: IsoLike<S, A>>(l: IsoLens<I, S, A>)
    requires
        iso_laws(l.iso()),
    ensures
        lens_laws(l),
{
}

/// An iso seen as a prism.
pub struct IsoPrism<I, S, A> {
    iso: I,
    _phantom: PhantomData<(S, A)>,
}

impl<I, S, A> IsoPrism<I, S, A> {
    /// The iso.
    pub closed spec fn iso(&self) -> I {
        self.iso
    }
}

impl<S, A, I: IsoLike<S, A>> PrismLike<S, A> for IsoPrism<I, S, A> {
    open spec fn callable(&self) -> bool {
        self.iso().callable()
    }

    open spec fn lawful(&self) -> bool {
        self.iso().lawful()
    }

    open spec fn peek(&self, s: S) -> Option<A> {
        Some(self.iso().forward(s))
    }

    open spec fn build(&self, a: A) -> S {
        self.iso().backward(a)
    }

    fn preview(&self, source: &S) -> (r: Option<A>) {
        let a = self.iso.to(source);
        Some(a)
    }

    fn review(&self, value: A) -> (r: S) {
        self.iso.from(value)
    }
}

/// A lawful iso seen as a prism obeys the prism laws.
pub proof fn law_iso_prism<S, A, I: IsoLike<S, A>>(p: IsoPrism<I, S, A>)
    requires
        iso_laws(p.iso()),
    ensures
        prism_laws(p),
{
}

/// An iso seen as a traversal.
pub struct IsoTraversal<'a, I, S, A> {
    iso: &'a I,
    _phantom: PhantomData<(S, A)>,
}

impl<'a, I, S, A> IsoTraversal<'a, I, S, A> {
    /// The iso.
    pub closed spec fn iso(&self) -> &'a I {
        self.iso
    }
}

impl<'a, S, A, I: IsoLike<S, A>> TraversalLike<S, A> for IsoTraversal<'a, I, S, A> {
    open spec fn callable(&self) -> bool {
        self.iso().callable()
    }

    open spec fn lawful(&self) -> bool {
        self.iso().lawful()
    }

    open spec fn foci(&self, s: S) -> Seq<A> {
        seq![self.iso().forward(s)]
    }

    open spec fn rebuild(&self, s: S, values: Seq<A>) -> S {
        if values.len() > 0 {
            self.iso().backward(values[0])
        } else {
            self.iso().backward(self.iso().forward(s))
        }
    }

    fn get_all(&self, source: &S) -> (r: Vec<A>) {
        let a = self.iso.to(source);
        vec![a]
    }

    fn put_all(&self, source: &S, values: Vec<A>) -> (r: S) {
        let mut values = values;
        if values.len() > 0 {
            let a = values.swap_remove(0);
            self.iso.from(a)
        } else {
            let a = self.iso.to(source);
            self.iso.from(a)
        }
    }
}

/// An iso seen as a fold.
pub struct IsoFold<'a, I, S, A> {
    iso: &'a I,
    _phantom: PhantomData<(S, A)>,
}

impl<'a, I, S, A> IsoFold<'a, I, S, A> {
    /// The iso.
    pub closed spec fn iso(&self) -> &'a I {
        self.iso
    }
}

impl<'a, S, A, I: IsoLike<S, A>> FoldLike<S, A> for IsoFold<'a, I, S, A> {
    open spec fn callable(&self) -> bool {
        self.iso().callable()
    }

    open spec fn lawful(&self) -> bool {
        self.iso().lawful()
    }

    open spec fn elements(&self, s: S) -> Seq<A> {
        seq![self.iso().forward(s)]
    }

    fn fold_of(&self, source: &S) -> (r: Vec<A>) {
        let a = self.iso.to(source);
        vec![a]
    }
}

} // verus!
