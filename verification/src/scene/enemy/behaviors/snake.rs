//! Snake enemies: a vulnerable head followed by a chain of invulnerable
//! segments.
use vstd::prelude::*;
use crate::engine::EntityId;
use super::{remove_id, without_id};

verus! {

/// Longest chain a snake grows.
pub const MAX_SNAKE_SEGMENTS: usize = 30;

/// The chain of segments following a snake head, nearest first.
#[derive(Debug, Clone, PartialEq)]
pub struct SnakeChain {
    pub segment_ids: Vec<EntityId>,
    pub max_segments: usize,
}

impl SnakeChain {
    /// A head without segments that grows up to the default chain length.
    pub fn new() -> (c: SnakeChain)
        ensures
            c.segment_ids@.len() == 0,
            c.max_segments == MAX_SNAKE_SEGMENTS,
    {
        SnakeChain { segment_ids: Vec::new(), max_segments: MAX_SNAKE_SEGMENTS }
    }

    /// Whether the chain is still short enough to grow a segment.
    pub fn can_grow(&self) -> (r: bool)
        ensures
            r == (self.segment_ids@.len() < self.max_segments),
    {
        self.segment_ids.len() < self.max_segments
    }

    /// Appends a segment at the end of the chain.
    pub fn add_segment(&mut self, segment_id: EntityId)
        ensures
            final(self).segment_ids@ == old(self).segment_ids@.push(segment_id),
            final(self).max_segments == old(self).max_segments,
    {
        self.segment_ids.push(segment_id);
    }

    /// Removes and returns the last segment, if any.
    pub fn remove_last_segment(&mut self) -> (r: Option<EntityId>)
        ensures
            old(self).segment_ids@.len() == 0 ==> r is None && final(self).segment_ids@ == old(self).segment_ids@,
            old(self).segment_ids@.len() > 0 ==> r == Some(old(self).segment_ids@.last())
                && final(self).segment_ids@ == old(self).segment_ids@.drop_last(),
            final(self).max_segments == old(self).max_segments,
    {
        self.segment_ids.pop()
    }

    /// Number of segments in the chain.
    pub fn segment_count(&self) -> (n: usize)
        ensures
            n == self.segment_ids@.len(),
    {
        self.segment_ids.len()
    }

    /// Removes a dead segment from the chain, wherever it is.
    pub fn remove_segment(&mut self, segment_id: EntityId)
        ensures
            final(self).segment_ids@ == without_id(old(self).segment_ids@, segment_id),
            final(self).max_segments == old(self).max_segments,
    {
        remove_id(&mut self.segment_ids, segment_id);
    }

    /// Where damage dealt to the head goes: to the last segment while there
    /// is one, otherwise to the head itself (`None`).
    pub fn route_damage_target(&self) -> (r: Option<EntityId>)
        ensures
            self.segment_ids@.len() == 0 ==> r is None,
            self.segment_ids@.len() > 0 ==> r == Some(self.segment_ids@.last()),
    {
        if self.segment_ids.len() > 0 {
            Some(self.segment_ids[self.segment_ids.len() - 1])
        } else {
            None
        }
    }
}

/// Find the target for the snake head to follow: for now always the
/// player's position, whatever the head and the other enemies are.
pub fn find_snake_target<P: Copy, E>(_head_pos: P, _all_enemies: &[E], _head_id: EntityId, player_pos: P) -> (r: P)
    ensures
        r == player_pos,
{
    player_pos
}

} // verus!
