//! Population policy of the automatic large-body spawner: how many bodies
//! it keeps alive and which body types it may spawn.
use vstd::prelude::*;
use super::body_type::LargeBodyType;

verus! {

/// The body types the default spawner offers (launcher masses only come
/// in asteroid showers, supermassive black holes only from collapse).
pub open spec fn default_body_types() -> Seq<LargeBodyType> {
    seq![
        LargeBodyType::Planet,
        LargeBodyType::Star,
        LargeBodyType::GasGiant,
        LargeBodyType::NeutronStar,
        LargeBodyType::BlackHole,
        LargeBodyType::WhiteHole,
        LargeBodyType::ExoticMatter,
    ]
}

/// Whether a spawner with these limits wants another body when
/// `current` bodies are alive (and its timer has run out): below the
/// maximum, and below the target or the minimum.
pub open spec fn wants_body(target: nat, min: nat, max: nat, current: nat) -> bool {
    current < max && (current < target || current < min)
}

/// Population limits and spawnable body types of the automatic spawner.
#[derive(Debug, Clone, PartialEq)]
pub struct BodySpawner {
    pub target_body_count: usize,
    pub min_body_count: usize,
    pub max_body_count: usize,
    pub enabled_body_types: Vec<LargeBodyType>,
}

impl BodySpawner {
    /// Keeps about six bodies, at least three, at most ten, of the seven
    /// default types.
    pub fn new() -> (s: BodySpawner)
        ensures
            s.target_body_count == 6,
            s.min_body_count == 3,
            s.max_body_count == 10,
            s.enabled_body_types@ == default_body_types(),
    {
        let s = BodySpawner {
            target_body_count: 6,
            min_body_count: 3,
            max_body_count: 10,
            enabled_body_types: vec![
                LargeBodyType::Planet,
                LargeBodyType::Star,
                LargeBodyType::GasGiant,
                LargeBodyType::NeutronStar,
                LargeBodyType::BlackHole,
                LargeBodyType::WhiteHole,
                LargeBodyType::ExoticMatter,
            ],
        };
        assert(s.enabled_body_types@ =~= default_body_types());
        s
    }

    /// A spawner with the given limits and body types.
    pub fn new_custom(
        target_body_count: usize,
        min_body_count: usize,
        max_body_count: usize,
        enabled_body_types: Vec<LargeBodyType>,
    ) -> (s: BodySpawner)
        ensures
            s.target_body_count == target_body_count,
            s.min_body_count == min_body_count,
            s.max_body_count == max_body_count,
            s.enabled_body_types@ == enabled_body_types@,
    {
        BodySpawner { target_body_count, min_body_count, max_body_count, enabled_body_types }
    }

    /// Whether another body is wanted with `current_body_count` bodies
    /// alive; never at or above the maximum.
    pub fn wants_body(&self, current_body_count: usize) -> (r: bool)
        ensures
            r == wants_body(
                self.target_body_count as nat,
                self.min_body_count as nat,
                self.max_body_count as nat,
                current_body_count as nat,
            ),
            r ==> current_body_count < self.max_body_count,
    {
        current_body_count < self.max_body_count && (current_body_count < self.target_body_count
            || current_body_count < self.min_body_count)
    }

    /// Changes the number of bodies to keep.
    pub fn set_target_body_count(&mut self, count: usize)
        ensures
            final(self).target_body_count == count,
            final(self).min_body_count == old(self).min_body_count,
            final(self).max_body_count == old(self).max_body_count,
            final(self).enabled_body_types@ == old(self).enabled_body_types@,
    {
        self.target_body_count = count;
    }

    /// Offers a body type, unless it is offered already.
    pub fn add_body_type(&mut self, body_type: LargeBodyType)
        ensures
            old(self).enabled_body_types@.contains(body_type) ==> final(self).enabled_body_types@
                == old(self).enabled_body_types@,
            !old(self).enabled_body_types@.contains(body_type) ==> final(self).enabled_body_types@
                == old(self).enabled_body_types@.push(body_type),
            final(self).target_body_count == old(self).target_body_count,
            final(self).min_body_count == old(self).min_body_count,
            final(self).max_body_count == old(self).max_body_count,
    {
        let mut k: usize = 0;
        while k < self.enabled_body_types.len()
            invariant
                k <= self.enabled_body_types.len(),
                *self == *old(self),
                forall|j: int| 0 <= j < k ==> self.enabled_body_types@[j] != body_type,
            decreases self.enabled_body_types.len() - k,
        {
            if self.enabled_body_types[k] == body_type {
                return;
            }
            k = k + 1;
        }
        self.enabled_body_types.push(body_type);
    }

    /// Stops offering a body type.
    pub fn remove_body_type(&mut self, body_type: LargeBodyType)
        ensures
            final(self).enabled_body_types@ == old(self).enabled_body_types@.filter(|t: LargeBodyType| t != body_type),
            final(self).target_body_count == old(self).target_body_count,
            final(self).min_body_count == old(self).min_body_count,
            final(self).max_body_count == old(self).max_body_count,
    {
        let mut kept: Vec<LargeBodyType> = Vec::new();
        let mut i: usize = 0;
        while i < self.enabled_body_types.len()
            invariant
                i <= self.enabled_body_types.len(),
                self.enabled_body_types@ == old(self).enabled_body_types@,
                kept@ == self.enabled_body_types@.take(i as int).filter(|t: LargeBodyType| t != body_type),
            decreases self.enabled_body_types.len() - i,
        {
            let t = self.enabled_body_types[i];
            proof {
                assert(self.enabled_body_types@.take(i + 1).drop_last() == self.enabled_body_types@.take(i as int));
                reveal_with_fuel(Seq::filter, 1);
            }
            if t != body_type {
                kept.push(t);
            }
            i = i + 1;
        }
        proof {
            assert(self.enabled_body_types@.take(self.enabled_body_types@.len() as int) == self.enabled_body_types@);
        }
        self.enabled_body_types = kept;
    }
}

/// Adding a body type and then removing it leaves it unoffered, and the
/// spawner never offers a type twice when it started without repeats.
pub proof fn lemma_add_remove(types: Seq<LargeBodyType>, t: LargeBodyType)
    requires
        types.no_duplicates(),
    ensures
        (if types.contains(t) { types } else { types.push(t) }).no_duplicates(),
        !(if types.contains(t) { types } else { types.push(t) }).filter(|x: LargeBodyType| x != t).contains(t),
{
    let added = if types.contains(t) { types } else { types.push(t) };
    let f = |x: LargeBodyType| x != t;
    if added.filter(f).contains(t) {
        let k = choose|k: int| 0 <= k < added.filter(f).len() && added.filter(f)[k] == t;
        added.lemma_filter_pred(f, k);
    }
    if !types.contains(t) {
        assert forall|i: int, j: int| 0 <= i < added.len() && 0 <= j < added.len() && i != j implies added[i] != added[j] by {
            if i < types.len() && j < types.len() {
            } else if i < types.len() {
                assert(added[j] == t);
                assert(types[i] == added[i]);
            } else {
                assert(added[i] == t);
                assert(types[j] == added[j]);
            }
        }
    }
}

/// The population rule: below the minimum (and the maximum) a body is
/// always wanted; at or above the maximum never; and once both the target
/// and the minimum are reached, no more.
pub proof fn lemma_population_rule(target: nat, min: nat, max: nat, current: nat)
    ensures
        current < min && current < max ==> wants_body(target, min, max, current),
        current < target && current < max ==> wants_body(target, min, max, current),
        current >= max ==> !wants_body(target, min, max, current),
        current >= target && current >= min ==> !wants_body(target, min, max, current),
{
}

/// The default spawner offers seven types, each once, and never launcher
/// masses (they only come in asteroid showers) nor supermassive black
/// holes (they only come from collapse).
pub proof fn lemma_default_types()
    ensures
        default_body_types().len() == 7,
        default_body_types().no_duplicates(),
        !default_body_types().contains(LargeBodyType::LauncherMass),
        !default_body_types().contains(LargeBodyType::BlackHoleLarge),
        !default_body_types().contains(LargeBodyType::Debug),
{
    let d = default_body_types();
    assert forall|i: int| 0 <= i < d.len() implies d[i] != LargeBodyType::LauncherMass && d[i]
        != LargeBodyType::BlackHoleLarge && d[i] != LargeBodyType::Debug by {
    }
}

} // verus!
