//! A strong reference-counted handle over a reclamation-managed instance,
//! and the short-lived hazardous pointer a `Barrier` scopes.

use crate::ebr::Barrier;
use vstd::prelude::*;

verus! {

/// Relies on alloc::sync::Arc::clone: yields another handle to the same
/// instance (the reference count grows; the instance is untouched).
#[verifier::external_body]
fn arc_clone<T>(v: &std::sync::Arc<T>) -> (r: std::sync::Arc<T>)
    ensures
        r == *v,
{
    std::sync::Arc::clone(v)
}

/// A reference-counted handle to an instance. The instance lives at least
/// as long as one handle or one scoped pointer to it does, so a hazardous
/// pointer can always be upgraded to a strong handle.
pub struct Arc<T> {
    instance: std::sync::Arc<T>,
}

/// A hazardous pointer: a loan of an instance valid only while the
/// `Barrier` that scoped it is held.
pub struct Ptr<'b, T> {
    target: Option<&'b Arc<T>>,
}

impl<T> Arc<T> {
    /// The instance the handle keeps alive.
    pub closed spec fn value(&self) -> T {
        *self.instance
    }

    /// Creates a new instance with one handle to it.
    pub fn new(t: T) -> (r: Arc<T>)
        ensures
            r.value() == t,
    {
        Arc { instance: std::sync::Arc::new(t) }
    }

    /// Another handle to the same instance.
    pub fn clone(&self) -> (r: Arc<T>)
        ensures
            r.value() == self.value(),
    {
        Arc { instance: arc_clone(&self.instance) }
    }

    /// Borrows the instance.
    pub fn as_ref(&self) -> (r: &T)
        ensures
            *r == self.value(),
    {
        &*self.instance
    }

    /// Generates a hazardous pointer scoped by the given barrier.
    pub fn ptr<'b>(&'b self, barrier: &'b Barrier) -> (r: Ptr<'b, T>)
        ensures
            r.target() == Some(*self),
    {
        Ptr { target: Some(self) }
    }
}

impl<'b, T> Ptr<'b, T> {
    /// The handle this pointer was scoped from, if it points anywhere.
    pub closed spec fn target(&self) -> Option<Arc<T>> {
        match self.target {
            Some(a) => Some(*a),
            None => None,
        }
    }

    /// A pointer to nothing.
    pub fn null() -> (r: Ptr<'b, T>)
        ensures
            r.target() is None,
    {
        Ptr { target: None }
    }

    pub fn is_null(&self) -> (r: bool)
        ensures
            r == (self.target() is None),
    {
        self.target.is_none()
    }

    /// Borrows the pointed-to instance for the barrier's lifetime.
    pub fn as_ref(&self) -> (r: Option<&'b T>)
        ensures
            match r {
                Some(t) => self.target() is Some && *t == self.target()->Some_0.value(),
                None => self.target() is None,
            },
    {
        match self.target {
            Some(a) => Some(a.as_ref()),
            None => None,
        }
    }

    /// Upgrades the hazardous pointer to a strong handle. The upgrade
    /// succeeds whenever the pointer points at an instance, since the
    /// pointer's loan keeps the count positive.
    pub fn try_into_arc(self) -> (r: Result<Arc<T>, Ptr<'b, T>>)
        ensures
            match r {
                Ok(a) => self.target() is Some && a.value() == self.target()->Some_0.value(),
                Err(p) => self.target() is None && p.target() is None,
            },
    {
        match self.target {
            Some(a) => Ok(a.clone()),
            None => Err(self),
        }
    }
}

} // verus!
