//! Identifiers shared between the controller and the workers.

use vstd::prelude::*;

verus! {

/// Identifies a physical or virtual host that supplies task slots.
#[derive(Clone, Copy, Debug, PartialEq, Eq, Structural, Hash)]
pub struct NodeId(pub u64);

/// Identifies one worker process; unique within the lifetime of the
/// controller.
#[derive(Clone, Copy, Debug, PartialEq, Eq, Structural, Hash)]
pub struct WorkerId(pub u64);

} // verus!
