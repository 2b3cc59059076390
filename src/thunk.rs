//! A deferred computation that can be forced exactly once.
use vstd::prelude::*;

verus! {

/// A nullary computation behind a box, so that the type of what it captures
/// is erased and only the type of its result remains.
trait FnThunk<T> {
    /// The computation may be run.
    spec fn ready(&self) -> bool;

    /// `r` is a possible result of the computation.
    spec fn gives(&self, r: T) -> bool;

    fn call_boxed(self: Box<Self>) -> (r: T)
        requires
            self.ready(),
        ensures
            self.gives(r),
    ;
}

impl<T, F: FnOnce() -> T> FnThunk<T> for F {
    spec fn ready(&self) -> bool {
        call_requires(*self, ())
    }

    spec fn gives(&self, r: T) -> bool {
        call_ensures(*self, (), r)
    }

    fn call_boxed(self: Box<Self>) -> (r: T) {
        (*self)()
    }
}

/// A delayed computation of a `T`. Forcing it with [`Thunk::compute`]
/// consumes it, so it can never be forced a second time.
#[verifier::reject_recursive_types(T)]
pub struct Thunk<T> {
    fun: Box<dyn FnThunk<T>>,
}

impl<T> Thunk<T> {
    #[verifier::type_invariant]
    spec fn can_run(self) -> bool {
        self.fun.ready()
    }

    /// `r` is a result that forcing this thunk may give.
    pub closed spec fn produces(self, r: T) -> bool {
        self.fun.gives(r)
    }

    /// Defers `fun`, which must be callable once with no arguments.
    pub fn new(fun: impl FnOnce() -> T + 'static) -> (t: Self)
        requires
            call_requires(fun, ()),
        ensures
            forall|r: T| t.produces(r) <==> call_ensures(fun, (), r),
    {
        Thunk { fun: Box::new(fun) }
    }

    /// Forces the deferred computation and returns its result.
    pub fn compute(self) -> (r: T)
        ensures
            self.produces(r),
    {
        proof {
            use_type_invariant(&self);
        }
        self.fun.call_boxed()
    }
}

} // verus!
