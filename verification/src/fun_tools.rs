//! Computations that thread a state through their steps.

use std::marker::PhantomData;
use vstd::prelude::*;

verus! {

/// Puts two functions one behind the other: the function that is returned
/// hands its argument to `p` and what `p` gives to `q`.
///
/// It can be called wherever `p` can and `q` takes whatever `p` may give,
/// and what it returns is what `q` gives for something that `p` gives.
pub fn compose<'a, T, U, V, P, Q>(p: P, q: Q) -> (both: impl Fn(T) -> V) where
    P: 'a + Fn(T) -> U,
    Q: 'a + Fn(U) -> V,

    ensures
        forall|z: T|
            call_requires(p, (z,)) && (forall|u: U|
                call_ensures(p, (z,), u) ==> call_requires(q, (u,))) ==> #[trigger] call_requires(
                both,
                (z,),
            ),
        forall|z: T, v: V| #[trigger]
            call_ensures(both, (z,), v) ==> exists|u: U|
                call_ensures(p, (z,), u) && call_ensures(q, (u,), v),
{
    move |z: T| -> (v: V)
        requires
            call_requires(p, (z,)),
            forall|u: U| call_ensures(p, (z,), u) ==> call_requires(q, (u,)),
        ensures
            exists|u: U| call_ensures(p, (z,), u) && call_ensures(q, (u,), v),
        { q(p(z)) }
}

/// Holds a value out to functions: the function that is returned takes a
/// function and calls it on `x`.
///
/// It can be called with every function that can be called on `x`, and
/// returns what that function gives for `x`.
pub fn apply<'a, T, U, F: 'a + Fn(&'a T) -> U>(x: &'a T) -> (held: impl Fn(F) -> U + 'a)
    ensures
        forall|f: F| call_requires(f, (x,)) ==> #[trigger] call_requires(held, (f,)),
        forall|f: F, u: U| #[trigger]
            call_ensures(held, (f,), u) ==> call_ensures(f, (x,), u),
{
    move |f: F| -> (u: U)
        requires
            call_requires(f, (x,)),
        ensures
            call_ensures(f, (x,), u),
        { f(x) }
}

/// A step of a computation that takes the state it finds and gives back a
/// value of type `A` together with the state it leaves, wrapped in `M`.
#[verifier::reject_recursive_types(F)]
#[verifier::reject_recursive_types(M)]
#[verifier::reject_recursive_types(A)]
#[verifier::reject_recursive_types(S)]
pub struct State<F, M, A, S> where F: Fn(S) -> M {
    _f: F,
    _m: PhantomData<M>,
    _a: PhantomData<A>,
    _s: PhantomData<S>,
}

impl<F, M, A, S> State<F, M, A, S> where F: Fn(S) -> M {
    /// The function that the step runs.
    pub closed spec fn step(&self) -> F {
        self._f
    }

    /// Makes a step out of a function from the state found.
    pub fn new(f: F) -> (state: Self)
        ensures
            state.step() == f,
    {
        Self { _f: f, _m: PhantomData, _a: PhantomData, _s: PhantomData }
    }

    /// Runs the step on a state: whatever the function gives for it.
    pub fn run(self, s: S) -> (out: M)
        requires
            call_requires(self.step(), (s,)),
        ensures
            call_ensures(self.step(), (s,), out),
    {
        (self._f)(s)
    }
}

impl<F, M, A, S> Clone for State<F, M, A, S> where F: Clone + Fn(S) -> M {
    /// A copy of the step runs a copy of its function.
    fn clone(&self) -> (copy: Self)
        ensures
            call_ensures(F::clone, (&self.step(),), copy.step()),
    {
        State::new(self._f.clone())
    }
}

impl<F, M, A, S> Copy for State<F, M, A, S> where F: Copy + Fn(S) -> M {
}

/// A step of a computation over a state, as `State`, whose function may
/// itself change as it runs.
#[verifier::reject_recursive_types(M)]
#[verifier::reject_recursive_types(A)]
#[verifier::reject_recursive_types(S)]
#[verifier::reject_recursive_types(F)]
pub struct StateT<M, A, S, F> where F: FnMut(S) -> M {
    _run_fn: F,
    _m: PhantomData<M>,
    _a: PhantomData<A>,
    _s: PhantomData<S>,
}

impl<M, A, S, F> StateT<M, A, S, F> where F: FnMut(S) -> M {
    /// The function that the step runs.
    pub closed spec fn step(&self) -> F {
        self._run_fn
    }

    /// Makes a step out of a function from the state found.
    pub fn new(run_fn: F) -> (state: Self)
        ensures
            state.step() == run_fn,
    {
        Self { _run_fn: run_fn, _m: PhantomData, _a: PhantomData, _s: PhantomData }
    }

    /// Runs the step on a state: whatever the function gives for it.
    pub fn run(self, s: S) -> (out: M)
        requires
            call_requires(self.step(), (s,)),
        ensures
            call_ensures(self.step(), (s,), out),
    {
        let mut this = self;
        (this._run_fn)(s)
    }
}

} // verus!
