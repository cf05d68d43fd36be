//! Singleton resources: one value per registered type, shared through the
//! acquisition protocol.

use vstd::prelude::*;

verus! {

/// Marker for a singleton resource: exactly one value of the type exists for
/// the process lifetime, stored without an entity key and acquired through
/// the same arbitration protocol as component tables.
pub trait Resource: Sized {

}

} // verus!
