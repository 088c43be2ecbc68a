use vstd::prelude::*;
use crate::world::World;

verus! {

/// A deferred computation driven by the world's update tick.
///
/// Implementations are supplied by the embedding application; `poll_once`
/// must not block, returning `None` while the output is not yet available
/// and `Some` once the computation has completed.
pub trait Task<A>: Sized {
    fn poll_once(&mut self) -> Option<A>;
}

/// A callback invoked by the world with mutable world access: as an event
/// handler with a borrowed event value, or as the completion callback of an
/// asynchronous job with the job's output.
///
/// An implementation may mutate the world freely but must leave it
/// well-formed, which every combination of the world's own operations does.
pub trait SystemCallback<C, R, A, T>: Sized {
    fn call(&self, world: &mut World<C, R, A, Self, T>, args: &A)
        requires
            old(world).wf(),
        ensures
            final(world).wf(),
    ;
}

/// Adapter that pairs a callback value with the argument type it expects.
///
/// It only carries the value: invocation goes through the world's callback
/// capability, which the embedding application implements for its own
/// callback type.
pub struct SystemCallbackWrapper<F, T>(F, core::marker::PhantomData<T>);

impl<F, T> SystemCallbackWrapper<F, T> {
    /// The wrapped callback value, as seen by specifications.
    pub closed spec fn inner(self) -> F {
        self.0
    }

    pub fn new(f: F) -> (r: Self)
        ensures
            r.inner() == f,
    {
        SystemCallbackWrapper(f, core::marker::PhantomData)
    }

    /// Gives the wrapped callback value back.
    pub fn into_inner(self) -> (f: F)
        ensures
            f == self.inner(),
    {
        self.0
    }
}

} // verus!
