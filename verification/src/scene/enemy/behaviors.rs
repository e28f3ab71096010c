//! Per-kind enemy behaviours.
pub mod blob;
pub mod shield;
pub mod snake;
pub mod splitter;

use vstd::prelude::*;
use crate::engine::EntityId;

verus! {

/// Whether an id differs from `id`.
pub open spec fn other_than(id: EntityId) -> spec_fn(EntityId) -> bool {
    |x: EntityId| x != id
}

/// `ids` with every occurrence of `id` removed, the rest in order.
pub open spec fn without_id(ids: Seq<EntityId>, id: EntityId) -> Seq<EntityId> {
    ids.filter(other_than(id))
}

/// Removes every occurrence of `id` from `ids`, keeping the order of the
/// rest (`Vec::retain` with `x != id`).
pub fn remove_id(ids: &mut Vec<EntityId>, id: EntityId)
    ensures
        final(ids)@ == without_id(old(ids)@, id),
{
    let mut kept: Vec<EntityId> = Vec::new();
    let mut i: usize = 0;
    while i < ids.len()
        invariant
            i <= ids.len(),
            kept@ == without_id(ids@.take(i as int), id),
        decreases ids.len() - i,
    {
        let x = ids[i];
        proof {
            assert(ids@.take(i + 1).drop_last() == ids@.take(i as int));
            reveal_with_fuel(Seq::filter, 1);
        }
        if x.0 != id.0 {
            kept.push(x);
        }
        i = i + 1;
    }
    proof {
        assert(ids@.take(ids@.len() as int) == ids@);
    }
    *ids = kept;
}

} // verus!
