//! Engine-level identifiers shared by every game system.
use vstd::prelude::*;

verus! {

/// Identifier of a game entity, handed out by the entity manager.
#[derive(Debug, Clone, Copy, PartialEq, Eq, Hash, Structural)]
pub struct EntityId(pub u32);

} // verus!
