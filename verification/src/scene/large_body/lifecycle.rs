//! Life cycle of a large body: alive, then a death sequence, then ready
//! for removal; the remnant a dying body leaves; and the renumbering of
//! physics indices when a body leaves the gravity simulation.
use vstd::prelude::*;
use super::body_type::LargeBodyType;

verus! {

/// Where a large body is in its life cycle.
#[derive(Debug, Clone, Copy, PartialEq, Eq, Structural)]
pub enum LifeStage {
    /// Alive and simulated.
    Alive,
    /// Playing its death sequence.
    DeathSequence,
    /// Done; the manager removes it.
    ReadyForRemoval,
}

/// How far along its life cycle a stage is.
pub open spec fn stage_rank(s: LifeStage) -> int {
    match s {
        LifeStage::Alive => 0,
        LifeStage::DeathSequence => 1,
        LifeStage::ReadyForRemoval => 2,
    }
}

/// The stage after one update: an alive body whose lifetime is over starts
/// its death sequence; a dying body whose sequence timer has run out is
/// ready for removal; otherwise the stage stays. `lifetime_over` (it has a
/// lifetime and its age reached it) and `sequence_done` (its death timer
/// has run out this update) come from the body's clocks.
pub fn advance_stage(stage: LifeStage, lifetime_over: bool, sequence_done: bool) -> (next: LifeStage)
    ensures
        next == match stage {
            LifeStage::Alive => if lifetime_over { LifeStage::DeathSequence } else { LifeStage::Alive },
            LifeStage::DeathSequence => if sequence_done {
                LifeStage::ReadyForRemoval
            } else {
                LifeStage::DeathSequence
            },
            LifeStage::ReadyForRemoval => LifeStage::ReadyForRemoval,
        },
        stage_rank(stage) <= stage_rank(next) <= stage_rank(stage) + 1,
        !lifetime_over && !sequence_done ==> next == stage,
        next == LifeStage::ReadyForRemoval ==> stage != LifeStage::Alive,
        stage == LifeStage::Alive && lifetime_over ==> next == LifeStage::DeathSequence,
{
    match stage {
        LifeStage::Alive => if lifetime_over {
            LifeStage::DeathSequence
        } else {
            LifeStage::Alive
        },
        LifeStage::DeathSequence => if sequence_done {
            LifeStage::ReadyForRemoval
        } else {
            LifeStage::DeathSequence
        },
        LifeStage::ReadyForRemoval => LifeStage::ReadyForRemoval,
    }
}

/// A body culled by the manager (too far away) skips its death sequence:
/// it is ready for removal whatever its stage.
pub fn cull_stage(stage: LifeStage) -> (next: LifeStage)
    ensures
        next == LifeStage::ReadyForRemoval,
        stage_rank(stage) <= stage_rank(next),
{
    LifeStage::ReadyForRemoval
}

/// The body a dying body leaves behind when its death sequence completes:
/// a star leaves a neutron star and a neutron star leaves a black hole;
/// every other body leaves nothing.
pub open spec fn spec_remnant_of(t: LargeBodyType) -> Option<LargeBodyType> {
    match t {
        LargeBodyType::Star => Some(LargeBodyType::NeutronStar),
        LargeBodyType::NeutronStar => Some(LargeBodyType::BlackHole),
        _ => None,
    }
}

/// The remnant of a body type (see `spec_remnant_of`).
pub fn remnant_of(t: LargeBodyType) -> (r: Option<LargeBodyType>)
    ensures
        r == spec_remnant_of(t),
{
    match t {
        LargeBodyType::Star => Some(LargeBodyType::NeutronStar),
        LargeBodyType::NeutronStar => Some(LargeBodyType::BlackHole),
        _ => None,
    }
}

/// The physics index a body keeps after the body at index `removed` left
/// the gravity simulation: indices above it move down by one.
pub open spec fn remapped_index(i: int, removed: int) -> int {
    if i > removed {
        i - 1
    } else {
        i
    }
}

/// Renumbers the physics indices of the remaining bodies after the body
/// at index `removed` left the gravity simulation: every index above it
/// moves down by one, the others stay.
pub fn remap_physics_indices(indices: &mut Vec<Option<usize>>, removed: usize)
    ensures
        final(indices)@.len() == old(indices)@.len(),
        forall|k: int|
            0 <= k < old(indices)@.len() ==> #[trigger] final(indices)@[k] == match old(indices)@[k] {
                Some(i) => Some(remapped_index(i as int, removed as int) as usize),
                None => None,
            },
{
    let mut k: usize = 0;
    while k < indices.len()
        invariant
            k <= indices.len(),
            indices@.len() == old(indices)@.len(),
            forall|j: int|
                0 <= j < k ==> #[trigger] indices@[j] == match old(indices)@[j] {
                    Some(i) => Some(remapped_index(i as int, removed as int) as usize),
                    None => None,
                },
            forall|j: int| k <= j < indices@.len() ==> #[trigger] indices@[j] == old(indices)@[j],
        decreases indices.len() - k,
    {
        if let Some(i) = indices[k] {
            if i > removed {
                indices.set(k, Some(i - 1));
            }
        }
        k = k + 1;
    }
}

/// After the body at `removed` leaves the simulation's body list, every
/// other body's renumbered index still points at its own entry.
pub proof fn lemma_remap_keeps_targets<A>(bodies: Seq<A>, removed: int, i: int)
    requires
        0 <= removed < bodies.len(),
        0 <= i < bodies.len(),
        i != removed,
    ensures
        bodies.remove(removed)[remapped_index(i, removed)] == bodies[i],
{
}

/// The physics indices held by the bodies fit a gravity list of length
/// `n`: every held index is below `n` and no two bodies hold the same one.
pub open spec fn indices_consistent(indices: Seq<Option<usize>>, n: nat) -> bool {
    &&& forall|j: int| 0 <= j < indices.len() && (#[trigger] indices[j]) is Some ==> indices[j]->0 < n
    &&& forall|i: int, j: int|
        0 <= i < j < indices.len() && (#[trigger] indices[i]) is Some && (#[trigger] indices[j]) is Some
            ==> indices[i]->0 != indices[j]->0
}

/// Some body holds index `k`.
pub open spec fn is_held(indices: Seq<Option<usize>>, k: int) -> bool {
    exists|j: int| 0 <= j < indices.len() && #[trigger] indices[j] == Some(k as usize)
}

/// Every entry of a gravity list of length `n` is held by some body.
pub open spec fn indices_cover(indices: Seq<Option<usize>>, n: nat) -> bool {
    forall|k: int| 0 <= k < n ==> #[trigger] is_held(indices, k)
}

/// The positions of the bodies that are not dead, from position `i` on, in
/// order.
pub open spec fn kept_from(dead: Seq<bool>, i: int) -> Seq<int>
    decreases dead.len() - i,
{
    if i < 0 || i >= dead.len() {
        Seq::empty()
    } else if dead[i] {
        kept_from(dead, i + 1)
    } else {
        seq![i] + kept_from(dead, i + 1)
    }
}

/// How many of the bodies from position `i` on are dead and hold a physics
/// index: the entries their removal takes out of the gravity list.
pub open spec fn removed_from(indices: Seq<Option<usize>>, dead: Seq<bool>, i: int) -> nat
    decreases dead.len() - i,
{
    if i < 0 || i >= dead.len() {
        0
    } else {
        (if dead[i] && indices[i] is Some {
            1nat
        } else {
            0nat
        }) + removed_from(indices, dead, i + 1)
    }
}

proof fn lemma_kept_from_bounds(dead: Seq<bool>, i: int)
    requires
        0 <= i <= dead.len(),
    ensures
        forall|m: int| 0 <= m < kept_from(dead, i).len() ==> i <= #[trigger] kept_from(dead, i)[m] < dead.len(),
        forall|a: int, b: int|
            0 <= a < b < kept_from(dead, i).len() ==> #[trigger] kept_from(dead, i)[a] < #[trigger] kept_from(dead, i)[b],
    decreases dead.len() - i,
{
    if i < dead.len() {
        lemma_kept_from_bounds(dead, i + 1);
        let r = kept_from(dead, i + 1);
        if !dead[i] {
            let s = seq![i] + r;
            assert forall|m: int| 0 <= m < s.len() implies i <= #[trigger] s[m] < dead.len() by {
                if m > 0 {
                    assert(s[m] == r[m - 1]);
                }
            }
            assert forall|a: int, b: int| 0 <= a < b < s.len() implies #[trigger] s[a] < #[trigger] s[b] by {
                assert(s[b] == r[b - 1]);
                if a > 0 {
                    assert(s[a] == r[a - 1]);
                }
            }
        }
    }
}

/// The original position of each body in the list while dead bodies are
/// removed from the back: the untouched front, then the kept bodies.
spec fn origins(dead: Seq<bool>, i: int) -> Seq<int> {
    Seq::new(i as nat, |p: int| p) + kept_from(dead, i)
}

/// A body that held no index holds none; one that held index `k` now holds
/// an index of the new gravity list whose entry is the one `k` named.
pub open spec fn same_entry<G>(before: Option<usize>, after: Option<usize>, old_list: Seq<G>, new_list: Seq<G>) -> bool {
    match before {
        None => after is None,
        Some(k) => after matches Some(x) && x < new_list.len() && new_list[x as int] == old_list[k as int],
    }
}

/// While the dead are being removed: the body's current index, if any,
/// names the entry `k` it held, through `from` (the original position of
/// each current entry).
spec fn tracks(before: Option<usize>, cur: Option<usize>, len: nat, from: Seq<int>) -> bool {
    match before {
        None => cur is None,
        Some(k) => cur matches Some(x) && x < len && from[x as int] == k,
    }
}

/// Removes the dead bodies, last first, with their physics indices; a
/// removed body's entry leaves the gravity list (when it is in range) and
/// every remaining index above it moves down by one. The bodies that stay
/// keep their order. When the indices were consistent with the gravity
/// list they still are, the list lost exactly one entry per dead body that
/// held an index, and every remaining body's index still points at its own
/// entry.
pub fn remove_dead_bodies<B, G>(
    bodies: &mut Vec<B>,
    dead: &Vec<bool>,
    physics_indices: &mut Vec<Option<usize>>,
    gravity: &mut Vec<G>,
)
    requires
        old(bodies)@.len() == dead@.len(),
        old(physics_indices)@.len() == dead@.len(),
    ensures
        ({
            let keep = kept_from(dead@, 0);
            let before = old(physics_indices)@;
            &&& final(bodies)@.len() == keep.len()
            &&& forall|m: int| 0 <= m < keep.len() ==> #[trigger] final(bodies)@[m] == old(bodies)@[keep[m]]
            &&& final(physics_indices)@.len() == keep.len()
            &&& indices_consistent(before, old(gravity)@.len()) ==> {
                &&& indices_consistent(final(physics_indices)@, final(gravity)@.len())
                &&& final(gravity)@.len() == old(gravity)@.len() - removed_from(before, dead@, 0)
                &&& forall|m: int|
                    0 <= m < keep.len() ==> same_entry(
                        before[keep[m]],
                        #[trigger] final(physics_indices)@[m],
                        old(gravity)@,
                        final(gravity)@,
                    )
                &&& indices_cover(before, old(gravity)@.len()) ==> indices_cover(
                    final(physics_indices)@,
                    final(gravity)@.len(),
                )
            }
        }),
{
    let ghost n = dead@.len() as int;
    let ghost ob = bodies@;
    let ghost oi = physics_indices@;
    let ghost og = gravity@;
    let ghost cons = indices_consistent(oi, og.len());
    let ghost cov = cons && indices_cover(oi, og.len());
    let ghost mut from: Seq<int> = Seq::new(og.len(), |x: int| x);
    let mut i: usize = dead.len();
    proof {
        assert(kept_from(dead@, n) =~= Seq::<int>::empty());
        assert(origins(dead@, n) =~= Seq::new(n as nat, |p: int| p));
    }
    while i > 0
        invariant
            0 <= i <= n,
            n == dead@.len(),
            ob.len() == n,
            oi.len() == n,
            bodies@.len() == origins(dead@, i as int).len(),
            physics_indices@.len() == bodies@.len(),
            forall|q: int| 0 <= q < bodies@.len() ==> #[trigger] bodies@[q] == ob[origins(dead@, i as int)[q]],
            cons == indices_consistent(oi, og.len()),
            cons ==> from.len() == gravity@.len(),
            cons ==> forall|x: int| 0 <= x < gravity@.len() ==> #[trigger] gravity@[x] == og[from[x]],
            cons ==> gravity@.len() == og.len() - removed_from(oi, dead@, i as int),
            cons ==> forall|q: int|
                0 <= q < physics_indices@.len() ==> tracks(
                    oi[origins(dead@, i as int)[q]],
                    #[trigger] physics_indices@[q],
                    gravity@.len(),
                    from,
                ),
            cov == (cons && indices_cover(oi, og.len())),
            cov ==> indices_cover(physics_indices@, gravity@.len()),
        decreases i,
    {
        let ghost big = i as int;
        let ghost src = origins(dead@, big);
        let ghost ind0 = physics_indices@;
        let ghost grav0 = gravity@;
        let ghost from0 = from;
        proof {
            lemma_kept_from_bounds(dead@, big);
            assert(src[big - 1] == big - 1);
            assert forall|q: int| 0 <= q < src.len() && q != big - 1 implies #[trigger] src[q] != big - 1 by {
                if q >= big {
                    assert(src[q] == kept_from(dead@, big)[q - big]);
                }
            }
        }
        i = i - 1;
        let ghost src2 = origins(dead@, i as int);
        if dead[i] {
            proof {
                assert(src2 =~= src.remove(i as int));
            }
            bodies.remove(i);
            let index = physics_indices.remove(i);
            if let Some(x) = index {
                if x < gravity.len() {
                    gravity.remove(x);
                    proof {
                        from = from.remove(x as int);
                    }
                }
                let ghost mid = physics_indices@;
                remap_physics_indices(physics_indices, x);
                proof {
                    if cons {
                        assert(tracks(oi[i as int], ind0[i as int], grav0.len(), from0));
                        let k0 = oi[i as int]->0;
                        assert forall|q: int| 0 <= q < physics_indices@.len() implies tracks(
                            oi[src2[q]],
                            #[trigger] physics_indices@[q],
                            gravity@.len(),
                            from,
                        ) by {
                            let qq = if q < i { q } else { q + 1 };
                            assert(src2[q] == src[qq]);
                            assert(mid[q] == ind0[qq]);
                            assert(tracks(oi[src[qq]], ind0[qq], grav0.len(), from0));
                            if oi[src[qq]] is Some {
                                lemma_kept_from_bounds(dead@, big);
                                if src[qq] < i {
                                    assert(oi[src[qq]]->0 != oi[i as int]->0);
                                } else {
                                    assert(oi[i as int]->0 != oi[src[qq]]->0);
                                }
                            }
                        }
                    }
                    if cov {
                        assert forall|y: int| 0 <= y < gravity@.len() implies #[trigger] is_held(physics_indices@, y) by {
                            assert(is_held(ind0, if y < x { y } else { y + 1 }));
                            let y0 = if y < x { y } else { y + 1 };
                            let q = choose|q: int| 0 <= q < ind0.len() && #[trigger] ind0[q] == Some(y0 as usize);
                            assert(q != i);
                            let q2 = if q < i { q } else { q - 1 };
                            assert(mid[q2] == ind0[q]);
                            assert(physics_indices@[q2] == Some(y as usize));
                        }
                    }
                }
            } else {
                proof {
                    if cons {
                        assert(tracks(oi[i as int], ind0[i as int], grav0.len(), from0));
                        assert forall|q: int| 0 <= q < physics_indices@.len() implies tracks(
                            oi[src2[q]],
                            #[trigger] physics_indices@[q],
                            gravity@.len(),
                            from,
                        ) by {
                            let qq = if q < i { q } else { q + 1 };
                            assert(src2[q] == src[qq]);
                            assert(physics_indices@[q] == ind0[qq]);
                        }
                    }
                    if cov {
                        assert forall|y: int| 0 <= y < gravity@.len() implies #[trigger] is_held(physics_indices@, y) by {
                            assert(is_held(ind0, y));
                            let q = choose|q: int| 0 <= q < ind0.len() && #[trigger] ind0[q] == Some(y as usize);
                            assert(q != i);
                            let q2 = if q < i { q } else { q - 1 };
                            assert(physics_indices@[q2] == ind0[q]);
                        }
                    }
                }
            }
            proof {
                assert forall|q: int| 0 <= q < bodies@.len() implies #[trigger] bodies@[q] == ob[src2[q]] by {
                    let qq = if q < i { q } else { q + 1 };
                    assert(src2[q] == src[qq]);
                }
            }
        } else {
            proof {
                assert(src2 =~= src);
            }
        }
    }
    proof {
        let keep = kept_from(dead@, 0);
        assert(origins(dead@, 0) =~= keep);
        lemma_kept_from_bounds(dead@, 0);
        if cons {
            assert forall|m: int| 0 <= m < keep.len() implies same_entry(
                oi[keep[m]],
                #[trigger] physics_indices@[m],
                og,
                gravity@,
            ) by {
                assert(tracks(oi[keep[m]], physics_indices@[m], gravity@.len(), from));
            }
            assert forall|a: int, b: int|
                0 <= a < b < physics_indices@.len() && (#[trigger] physics_indices@[a]) is Some && (
                #[trigger] physics_indices@[b]) is Some implies physics_indices@[a]->0 != physics_indices@[b]->0 by {
                assert(tracks(oi[keep[a]], physics_indices@[a], gravity@.len(), from));
                assert(tracks(oi[keep[b]], physics_indices@[b], gravity@.len(), from));
                assert(keep[a] < keep[b]);
            }
            assert forall|j: int| 0 <= j < physics_indices@.len() && (#[trigger] physics_indices@[j]) is Some implies physics_indices@[j]->0
                < gravity@.len() by {
                assert(tracks(oi[keep[j]], physics_indices@[j], gravity@.len(), from));
            }
        }
    }
}

/// Most entries the gravity simulation holds.
pub const MAX_GRAVITATIONAL_BODIES: usize = 32;

/// Registers a new body with the gravity simulation: its entry joins the
/// end of the gravity list and the body, listed last, holds the index of
/// that entry (the next free one). Consistent indices stay consistent.
pub fn register_body<G>(physics_indices: &mut Vec<Option<usize>>, gravity: &mut Vec<G>, entry: G) -> (index: usize)
    requires
        old(gravity)@.len() < MAX_GRAVITATIONAL_BODIES,
    ensures
        index == old(gravity)@.len(),
        final(gravity)@ == old(gravity)@.push(entry),
        final(physics_indices)@ == old(physics_indices)@.push(Some(index)),
        indices_consistent(old(physics_indices)@, old(gravity)@.len()) ==> indices_consistent(
            final(physics_indices)@,
            final(gravity)@.len(),
        ),
        indices_cover(old(physics_indices)@, old(gravity)@.len()) ==> indices_cover(
            final(physics_indices)@,
            final(gravity)@.len(),
        ),
{
    let index = gravity.len();
    gravity.push(entry);
    physics_indices.push(Some(index));
    proof {
        let before = old(physics_indices)@;
        let after = physics_indices@;
        if indices_consistent(before, old(gravity)@.len()) {
            assert forall|j: int| 0 <= j < after.len() && (#[trigger] after[j]) is Some implies after[j]->0
                < gravity@.len() by {
                if j < before.len() {
                    assert(after[j] == before[j]);
                }
            }
            assert forall|a: int, c: int|
                0 <= a < c < after.len() && (#[trigger] after[a]) is Some && (#[trigger] after[c]) is Some implies after[a]->0
                != after[c]->0 by {
                assert(after[a] == before[a]);
                if c < before.len() {
                    assert(after[c] == before[c]);
                }
            }
        }
        if indices_cover(before, old(gravity)@.len()) {
            assert forall|k: int| 0 <= k < gravity@.len() implies #[trigger] is_held(after, k) by {
                if k < old(gravity)@.len() {
                    assert(is_held(before, k));
                    let j = choose|j: int| 0 <= j < before.len() && #[trigger] before[j] == Some(k as usize);
                    assert(after[j] == before[j]);
                } else {
                    assert(after[before.len() as int] == Some(k as usize));
                }
            }
        }
    }
    index
}

/// Only stars and neutron stars leave a remnant: a star leaves a neutron
/// star, a neutron star a black hole, and every other body type nothing.
/// So the chain of remnants from any body ends within two steps.
pub proof fn lemma_remnant_chain(t: LargeBodyType)
    ensures
        spec_remnant_of(t) is Some <==> (t == LargeBodyType::Star || t == LargeBodyType::NeutronStar),
        t == LargeBodyType::Star ==> spec_remnant_of(t) == Some(LargeBodyType::NeutronStar),
        t == LargeBodyType::NeutronStar ==> spec_remnant_of(t) == Some(LargeBodyType::BlackHole),
        spec_remnant_of(t) matches Some(u) ==> (spec_remnant_of(u) matches Some(v) ==> spec_remnant_of(v) is None),
{
}

} // verus!
