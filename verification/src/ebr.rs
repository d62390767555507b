//! The epoch-based reclamation substrate: a pin (`Barrier`) that defers
//! destruction of retired objects, and a reference-counted shared handle.

pub mod arc;

use vstd::prelude::*;

verus! {

#[verifier::external_type_specification]
#[verifier::external_body]
pub struct ExGuard(crossbeam_epoch::Guard);

/// A scoped epoch pin. While a `Barrier` lives, no object handed to
/// `retire` after its creation is destroyed.
pub struct Barrier {
    guard: crossbeam_epoch::Guard,
}

/// Relies on crossbeam_epoch::pin: pins the current thread's epoch and
/// returns the guard scoping that pin.
#[verifier::external_body]
fn epoch_pin() -> crossbeam_epoch::Guard {
    crossbeam_epoch::pin()
}

impl Barrier {
    pub fn new() -> Barrier {
        Barrier { guard: epoch_pin() }
    }
}

/// Runs when the reclaimer decides a retired object can go; dropping the
/// object here is its destruction.
fn dispose<T>(x: T) {
}

/// Relies on crossbeam_epoch::Guard::defer: the deferred call runs at most
/// once, after every pin active at this call has been released.
#[verifier::external_body]
pub(crate) fn retire<T: Send + 'static>(barrier: &Barrier, x: T) {
    barrier.guard.defer(move || dispose(x));
}

} // verus!
