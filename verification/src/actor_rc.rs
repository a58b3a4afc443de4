//! A value shared within one actor: it may be read and copied only with
//! the context of the actor that made it.

use vstd::prelude::*;
use std::rc::Rc;

verus! {

/// Calls `Rc::clone`, which makes another pointer to the same value.
#[verifier::external_body]
fn rc_clone<T>(r: &Rc<T>) -> (c: Rc<T>)
    ensures
        c == *r,
{
    r.clone()
}

/// A value owned by the actor whose context has the id `id`.
pub struct Arc<T> {
    id: usize,
    value: Rc<T>,
}

impl<T> Arc<T> {
    /// The id of the owning actor's context.
    pub closed spec fn owner(&self) -> usize {
        self.id
    }

    /// The shared value.
    pub closed spec fn value(&self) -> T {
        *self.value
    }

    /// A value owned by the actor whose context has id `ctx_id`.
    pub fn new(ctx_id: usize, value: T) -> (r: Arc<T>)
        ensures
            r.owner() == ctx_id,
            r.value() == value,
    {
        Arc { id: ctx_id, value: Rc::new(value) }
    }

    /// Another handle to the value; only the owner may make one.
    pub fn clone(&self, ctx_id: usize) -> (r: Arc<T>)
        requires
            ctx_id == self.owner(),
        ensures
            r.owner() == self.owner(),
            r.value() == self.value(),
    {
        Arc { id: self.id, value: rc_clone(&self.value) }
    }

    /// The value; only the owner may read it.
    pub fn get(&self, ctx_id: usize) -> (r: &Rc<T>)
        requires
            ctx_id == self.owner(),
        ensures
            **r == self.value(),
    {
        &self.value
    }
}

} // verus!
