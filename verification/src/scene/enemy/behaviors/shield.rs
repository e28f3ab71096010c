//! Shield-orb bosses: a core guarded by orbiting shields.
use vstd::prelude::*;
use crate::engine::EntityId;

verus! {

/// A core is vulnerable once it has no shields to begin with, or at most
/// half of its initial shields are still active.
pub open spec fn vulnerable_with(initial_shield_count: nat, active_shield_count: nat) -> bool {
    initial_shield_count == 0 || 2 * active_shield_count <= initial_shield_count
}

/// How many of `shields` (each the core it guards and whether it is alive)
/// are alive shields of `core`.
pub open spec fn active_shields_of(shields: Seq<(EntityId, bool)>, core: EntityId) -> nat {
    shields.filter(guards_alive(core)).len()
}

/// Whether a shield (the core it guards, whether it is alive) is an alive
/// shield of `core`.
pub open spec fn guards_alive(core: EntityId) -> spec_fn((EntityId, bool)) -> bool {
    |s: (EntityId, bool)| s.0 == core && s.1
}

/// Counts the alive shields guarding `core` among `shields` (each the
/// core it guards and whether it is alive).
pub fn count_active_shields(shields: &Vec<(EntityId, bool)>, core: EntityId) -> (n: usize)
    ensures
        n == active_shields_of(shields@, core),
{
    let ghost f = guards_alive(core);
    let mut n: usize = 0;
    let mut i: usize = 0;
    while i < shields.len()
        invariant
            i <= shields.len(),
            f == guards_alive(core),
            n == shields@.take(i as int).filter(f).len(),
            n <= i,
        decreases shields.len() - i,
    {
        let (guarded, alive) = shields[i];
        proof {
            assert(shields@.take(i + 1) =~= shields@.take(i as int).push(shields@[i as int]));
            shields@.take(i as int).lemma_filter_push(shields@[i as int], f);
        }
        if guarded.0 == core.0 && alive {
            n = n + 1;
        }
        i = i + 1;
    }
    proof {
        assert(shields@.take(shields@.len() as int) =~= shields@);
    }
    n
}

/// The guarded core of a shield-orb boss.
#[derive(Debug, Clone, PartialEq)]
pub struct ShieldOrbCoreData {
    pub shield_ids: Vec<EntityId>,
    pub is_vulnerable: bool,
}

impl ShieldOrbCoreData {
    /// A core guarded by the given shields; it starts invulnerable.
    pub fn new(shield_ids: Vec<EntityId>) -> (c: ShieldOrbCoreData)
        ensures
            c.shield_ids@ == shield_ids@,
            !c.is_vulnerable,
    {
        ShieldOrbCoreData { shield_ids, is_vulnerable: false }
    }

    /// Recomputes vulnerability from the number of shields still active:
    /// vulnerable when the shield percentage is at most one half.
    pub fn update_vulnerability(&mut self, active_shield_count: usize)
        ensures
            final(self).shield_ids@ == old(self).shield_ids@,
            final(self).is_vulnerable == vulnerable_with(
                old(self).shield_ids@.len(),
                active_shield_count as nat,
            ),
    {
        let initial_shield_count = self.shield_ids.len();
        self.is_vulnerable = if initial_shield_count == 0 {
            true
        } else {
            active_shield_count <= initial_shield_count / 2
        };
    }
}

/// Generation bookkeeping of one orbiting shield.
#[derive(Debug, Clone, Copy, PartialEq, Eq, Structural)]
pub struct ShieldGeneration {
    pub current_generation: u8,
    pub max_generation: u8,
    pub core_id: EntityId,
}

impl ShieldGeneration {
    /// Whether the shield breaks into smaller shields when it dies: only
    /// before its last generation.
    pub fn spawns_on_death(&self) -> (r: bool)
        ensures
            r == (self.current_generation < self.max_generation),
    {
        self.current_generation < self.max_generation
    }

    /// The generation data of the shields this one breaks into.
    pub fn next_generation(&self) -> (s: ShieldGeneration)
        requires
            self.current_generation < u8::MAX,
        ensures
            s.current_generation == self.current_generation + 1,
            s.max_generation == self.max_generation,
            s.core_id == self.core_id,
    {
        ShieldGeneration {
            current_generation: self.current_generation + 1,
            max_generation: self.max_generation,
            core_id: self.core_id,
        }
    }
}

/// Losing shields never makes a core invulnerable again; a core with all
/// its shields up is invulnerable and one with none left is vulnerable.
pub proof fn lemma_vulnerability_monotone(initial: nat, fewer: nat, more: nat)
    requires
        fewer <= more,
    ensures
        vulnerable_with(initial, more) ==> vulnerable_with(initial, fewer),
        initial > 0 ==> !vulnerable_with(initial, initial),
        vulnerable_with(initial, 0),
{
}

} // verus!
