//! Systems: the parts of an engine, each created from its dependencies and then set up,
//! updated every step, torn down and destroyed.
use crate::errors::Result;
use core::marker::PhantomData;
use vstd::prelude::*;

verus! {

/// A type-level handle on a system type, handed to `ContextBuilder::system`.
pub struct BoundSystem<SystemT>(pub PhantomData<SystemT>);

/// A system whose operations can fail.  By default, setting up, updating, tearing down and
/// destroying do nothing and succeed.
pub trait System<'context>: Sized {
    /// What the system borrows from the context at each call.
    type Dependencies;

    fn debug_name() -> &'static str;

    fn create(dependencies: Self::Dependencies) -> Result<Self>;

    fn bind() -> BoundSystem<Self> {
        BoundSystem(PhantomData)
    }

    fn setup(&mut self, _dependencies: Self::Dependencies) -> (done: Result<()>)
        default_ensures
            done is Ok,
            *final(self) == *old(self),
    {
        Ok(())
    }

    fn update(&mut self, _dependencies: Self::Dependencies) -> (done: Result<()>)
        default_ensures
            done is Ok,
            *final(self) == *old(self),
    {
        Ok(())
    }

    fn teardown(&mut self, _dependencies: Self::Dependencies) -> (done: Result<()>)
        default_ensures
            done is Ok,
            *final(self) == *old(self),
    {
        Ok(())
    }

    fn destroy(self, _dependencies: Self::Dependencies) -> (done: Result<()>)
        default_ensures
            done is Ok,
    {
        Ok(())
    }
}

} // verus!
