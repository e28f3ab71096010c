//! The death pass: every enemy that died this frame is reported, taken out
//! of the chain or blob it belonged to, replaced by its children if it
//! splits on death, and removed from the enemy list.
use vstd::prelude::*;
use crate::engine::EntityId;
use crate::scene::enemy::behaviors::blob::{phase_for_count, BlobCoreData};
use crate::scene::enemy::behaviors::{other_than, without_id};
use crate::scene::enemy::behaviors::shield::ShieldGeneration;
use crate::scene::enemy::behaviors::snake::SnakeChain;
use crate::scene::enemy::behaviors::splitter::SplitterData;

verus! {

/// What the death pass needs to know of an enemy's kind.
#[derive(Debug, Clone, PartialEq)]
pub enum EnemyKind {
    /// An enemy that leaves nothing behind and belongs to nothing.
    Plain,
    /// A splitter with its generations.
    Splitter(SplitterData),
    /// An orbiting shield with its generations.
    Shield(ShieldGeneration),
    /// The core of a blob, with the nodes it grew.
    BlobCore(BlobCoreData),
    /// A node of the blob whose core is `core_id`.
    BlobNode { core_id: EntityId },
    /// A snake head with its chain of segments.
    Snake(SnakeChain),
    /// A segment of the snake whose head is `head_id`.
    SnakeSegment { head_id: EntityId },
}

/// One enemy as the death pass reads and rewrites it.
#[derive(Debug, Clone, PartialEq)]
pub struct EnemyRecord {
    pub id: EntityId,
    pub alive: bool,
    pub kind: EnemyKind,
}

/// What a dead enemy leaves behind: nothing, or two children of the next
/// generation (`SPLIT_CHILD_COUNT`) with this data.
#[derive(Debug, Clone, Copy, PartialEq, Eq, Structural)]
pub enum Offspring {
    Nothing,
    Splitters(SplitterData),
    Shields(ShieldGeneration),
}

/// What an enemy of this kind leaves when it dies: splitters and shields
/// before their last generation split into the next one.
pub open spec fn offspring_of(kind: EnemyKind) -> Offspring {
    match kind {
        EnemyKind::Splitter(d) => if d.current_generation < d.max_generation {
            Offspring::Splitters(
                SplitterData { current_generation: (d.current_generation + 1) as u8, max_generation: d.max_generation },
            )
        } else {
            Offspring::Nothing
        },
        EnemyKind::Shield(g) => if g.current_generation < g.max_generation {
            Offspring::Shields(
                ShieldGeneration {
                    current_generation: (g.current_generation + 1) as u8,
                    max_generation: g.max_generation,
                    core_id: g.core_id,
                },
            )
        } else {
            Offspring::Nothing
        },
        _ => Offspring::Nothing,
    }
}

/// What a dead enemy of this kind leaves behind (see `offspring_of`).
pub fn offspring(kind: &EnemyKind) -> (o: Offspring)
    ensures
        o == offspring_of(*kind),
{
    match kind {
        EnemyKind::Splitter(d) => if d.splits_on_death() {
            Offspring::Splitters(d.next_generation())
        } else {
            Offspring::Nothing
        },
        EnemyKind::Shield(g) => if g.spawns_on_death() {
            Offspring::Shields(g.next_generation())
        } else {
            Offspring::Nothing
        },
        _ => Offspring::Nothing,
    }
}

/// A living enemy of this kind with id `id`.
pub open spec fn spawned(id: int, kind: EnemyKind) -> EnemyRecord {
    EnemyRecord { id: EntityId(id as u32), alive: true, kind }
}

/// The children an enemy of this kind leaves when it dies, numbered from
/// `first`: two of the next generation, or none.
pub open spec fn children_of(kind: EnemyKind, first: int) -> Seq<EnemyRecord> {
    match offspring_of(kind) {
        Offspring::Splitters(d) => seq![spawned(first, EnemyKind::Splitter(d)), spawned(first + 1, EnemyKind::Splitter(d))],
        Offspring::Shields(g) => seq![spawned(first, EnemyKind::Shield(g)), spawned(first + 1, EnemyKind::Shield(g))],
        Offspring::Nothing => Seq::empty(),
    }
}

/// The children of all the dead enemies, in the order the dead are
/// listed, numbered consecutively from `next`.
pub open spec fn all_children(enemies: Seq<EnemyRecord>, next: int) -> Seq<EnemyRecord>
    decreases enemies.len(),
{
    if enemies.len() == 0 {
        Seq::empty()
    } else {
        let rest = all_children(enemies.drop_last(), next);
        let e = enemies.last();
        if e.alive {
            rest
        } else {
            rest + children_of(e.kind, next + rest.len())
        }
    }
}

/// The ids of the dead enemies, in list order.
pub open spec fn dead_ids(enemies: Seq<EnemyRecord>) -> Seq<EntityId>
    decreases enemies.len(),
{
    if enemies.len() == 0 {
        Seq::empty()
    } else if enemies.last().alive {
        dead_ids(enemies.drop_last())
    } else {
        dead_ids(enemies.drop_last()).push(enemies.last().id)
    }
}

/// The living enemies, in list order.
pub open spec fn living(enemies: Seq<EnemyRecord>) -> Seq<EnemyRecord> {
    enemies.filter(|e: EnemyRecord| e.alive)
}

/// The enemy a member of a snake (`nodes` false) or of a blob (`nodes`
/// true) belongs to.
pub open spec fn owner_of(kind: EnemyKind, nodes: bool) -> Option<EntityId> {
    match kind {
        EnemyKind::SnakeSegment { head_id } => if nodes { None } else { Some(head_id) },
        EnemyKind::BlobNode { core_id } => if nodes { Some(core_id) } else { None },
        _ => None,
    }
}

/// Whether `member` is a dead segment of the snake head `owner` (`nodes`
/// false) or a dead node of the blob core `owner` (`nodes` true).
pub open spec fn member_died(enemies: Seq<EnemyRecord>, owner: EntityId, member: EntityId, nodes: bool) -> bool {
    exists|i: int|
        0 <= i < enemies.len() && !(#[trigger] enemies[i]).alive && enemies[i].id == member && owner_of(
            enemies[i].kind,
            nodes,
        ) == Some(owner)
}

/// The ids in `ids` that are not dead members of `owner`, in order.
pub open spec fn without_dead_members(
    ids: Seq<EntityId>,
    enemies: Seq<EnemyRecord>,
    owner: EntityId,
    nodes: bool,
) -> Seq<EntityId> {
    ids.filter(|s: EntityId| !member_died(enemies, owner, s, nodes))
}

/// How a living enemy comes out of the death pass over `enemies`: a snake
/// head loses its dead segments from its chain; a blob core that lost
/// nodes forgets them and takes the phase of its new node count; every
/// other enemy is unchanged.
pub open spec fn unlinked(before: EnemyRecord, after: EnemyRecord, enemies: Seq<EnemyRecord>) -> bool {
    &&& after.id == before.id
    &&& after.alive == before.alive
    &&& match before.kind {
        EnemyKind::Snake(c) => after.kind matches EnemyKind::Snake(c2) && c2.segment_ids@ == without_dead_members(
            c.segment_ids@,
            enemies,
            before.id,
            false,
        ) && c2.max_segments == c.max_segments,
        EnemyKind::BlobCore(c) => after.kind matches EnemyKind::BlobCore(c2) && if exists|m: EntityId|
            member_died(enemies, before.id, m, true) {
            &&& c2.nodes() == without_dead_members(c.nodes(), enemies, before.id, true)
            &&& c2.spec_max_size() == c.spec_max_size()
            &&& c2.spec_phase() == phase_for_count(c2.nodes().len())
        } else {
            c2 == c
        },
        _ => after.kind == before.kind,
    }
}

/// The (owner, member) pairs of the dead snake segments (`nodes` false)
/// or dead blob nodes (`nodes` true), in list order.
pub open spec fn dead_links(enemies: Seq<EnemyRecord>, nodes: bool) -> Seq<(EntityId, EntityId)>
    decreases enemies.len(),
{
    if enemies.len() == 0 {
        Seq::empty()
    } else {
        let rest = dead_links(enemies.drop_last(), nodes);
        let e = enemies.last();
        match owner_of(e.kind, nodes) {
            Some(o) => if e.alive {
                rest
            } else {
                rest.push((o, e.id))
            },
            None => rest,
        }
    }
}

/// Enemy ids are unique.
pub open spec fn ids_distinct(enemies: Seq<EnemyRecord>) -> bool {
    forall|i: int, j: int| 0 <= i < j < enemies.len() ==> (#[trigger] enemies[i]).id != (#[trigger] enemies[j]).id
}

proof fn lemma_filter_all(s: Seq<EntityId>, p: spec_fn(EntityId) -> bool)
    requires
        forall|x: EntityId| #[trigger] p(x),
    ensures
        s.filter(p) == s,
    decreases s.len(),
{
    if s.len() > 0 {
        lemma_filter_all(s.drop_last(), p);
        assert(p(s.last()));
        assert(s.drop_last().push(s.last()) =~= s);
        s.drop_last().lemma_filter_push(s.last(), p);
    }
}

/// Both predicates hold.
spec fn both(p: spec_fn(EntityId) -> bool, q: spec_fn(EntityId) -> bool) -> spec_fn(EntityId) -> bool {
    |x: EntityId| p(x) && q(x)
}

proof fn lemma_filter_filter(s: Seq<EntityId>, p: spec_fn(EntityId) -> bool, q: spec_fn(EntityId) -> bool)
    ensures
        s.filter(p).filter(q) == s.filter(both(p, q)),
    decreases s.len(),
{
    if s.len() > 0 {
        let front = s.drop_last();
        let x = s.last();
        lemma_filter_filter(front, p, q);
        assert(front.push(x) =~= s);
        front.lemma_filter_push(x, p);
        front.lemma_filter_push(x, both(p, q));
        if p(x) {
            front.filter(p).lemma_filter_push(x, q);
        }
    }
}

proof fn lemma_push_contains<T>(s: Seq<T>, y: T, z: T)
    ensures
        s.push(y).contains(z) <==> (s.contains(z) || z == y),
{
    if s.push(y).contains(z) {
        let i = choose|i: int| 0 <= i < s.push(y).len() && s.push(y)[i] == z;
        if i < s.len() {
            assert(s[i] == z);
        }
    }
    if s.contains(z) {
        let i = choose|i: int| 0 <= i < s.len() && s[i] == z;
        assert(s.push(y)[i] == z);
    }
    if z == y {
        assert(s.push(y)[s.len() as int] == z);
    }
}

/// Each pair of `dead_links` is a dead member with its owner, and each
/// dead member appears there.
proof fn lemma_dead_links_exact(enemies: Seq<EnemyRecord>, nodes: bool)
    ensures
        forall|o: EntityId, m: EntityId| #[trigger]
            dead_links(enemies, nodes).contains((o, m)) <==> member_died(enemies, o, m, nodes),
    decreases enemies.len(),
{
    if enemies.len() > 0 {
        let front = enemies.drop_last();
        let n = enemies.len() - 1;
        lemma_dead_links_exact(front, nodes);
        let r = dead_links(front, nodes);
        let e = enemies.last();
        assert forall|o: EntityId, m: EntityId| #[trigger]
            dead_links(enemies, nodes).contains((o, m)) <==> member_died(enemies, o, m, nodes) by {
            match owner_of(e.kind, nodes) {
                Some(o2) => if !e.alive {
                    lemma_push_contains(r, (o2, e.id), (o, m));
                },
                None => {},
            }
            if member_died(enemies, o, m, nodes) {
                let i = choose|i: int|
                    0 <= i < enemies.len() && !(#[trigger] enemies[i]).alive && enemies[i].id == m && owner_of(
                        enemies[i].kind,
                        nodes,
                    ) == Some(o);
                if i < n {
                    assert(enemies[i] == front[i]);
                    assert(member_died(front, o, m, nodes));
                }
            }
            if member_died(front, o, m, nodes) {
                let i = choose|i: int|
                    0 <= i < front.len() && !(#[trigger] front[i]).alive && front[i].id == m && owner_of(
                        front[i].kind,
                        nodes,
                    ) == Some(o);
                assert(enemies[i] == front[i]);
            }
            if !e.alive && e.id == m && owner_of(e.kind, nodes) == Some(o) {
                assert(enemies[n] == e);
            }
        }
    }
}

/// A prefix of the list leaves no more children than the whole list, and
/// how many there are does not depend on the first id.
proof fn lemma_children_prefix(enemies: Seq<EnemyRecord>, i: int, next: int, other: int)
    requires
        0 <= i <= enemies.len(),
    ensures
        all_children(enemies.take(i), next).len() <= all_children(enemies, other).len(),
        all_children(enemies, next).len() == all_children(enemies, other).len(),
    decreases enemies.len(),
{
    if enemies.len() > 0 {
        let front = enemies.drop_last();
        if i == enemies.len() {
            assert(enemies.take(i) =~= enemies);
            lemma_children_prefix(front, front.len() as int, next, other);
        } else {
            assert(enemies.take(i) =~= front.take(i));
            lemma_children_prefix(front, i, next, other);
        }
    }
}

/// The children of the dead are alive and numbered consecutively from
/// `next`, in order.
pub proof fn lemma_children_numbered(enemies: Seq<EnemyRecord>, next: int)
    ensures
        forall|k: int|
            0 <= k < all_children(enemies, next).len() ==> (#[trigger] all_children(enemies, next)[k]).alive
                && all_children(enemies, next)[k].id == EntityId((next + k) as u32),
    decreases enemies.len(),
{
    if enemies.len() > 0 {
        let front = enemies.drop_last();
        lemma_children_numbered(front, next);
        let rest = all_children(front, next);
        let e = enemies.last();
        if !e.alive {
            let c = children_of(e.kind, next + rest.len());
            assert forall|k: int| 0 <= k < all_children(enemies, next).len() implies (#[trigger] all_children(
                enemies,
                next,
            )[k]).alive && all_children(enemies, next)[k].id == EntityId((next + k) as u32) by {
                if k < rest.len() {
                    assert(all_children(enemies, next)[k] == rest[k]);
                } else {
                    assert(all_children(enemies, next)[k] == c[k - rest.len()]);
                }
            }
        }
    }
}

/// The pairs among `links` whose owner is `owner` (their members), first
/// `k` of them.
spec fn dropped_by(links: Seq<(EntityId, EntityId)>, k: int, owner: EntityId) -> spec_fn(EntityId) -> bool {
    |s: EntityId| !links.take(k).contains((owner, s))
}

proof fn lemma_dropped_step(links: Seq<(EntityId, EntityId)>, k: int, owner: EntityId)
    requires
        0 <= k < links.len(),
    ensures
        links[k].0 == owner ==> both(dropped_by(links, k, owner), other_than(links[k].1)) == dropped_by(
            links,
            k + 1,
            owner,
        ),
        links[k].0 != owner ==> dropped_by(links, k, owner) == dropped_by(links, k + 1, owner),
{
    assert(links.take(k + 1) =~= links.take(k).push(links[k]));
    assert forall|x: EntityId| #[trigger] dropped_by(links, k + 1, owner)(x) == (dropped_by(links, k, owner)(x) && (
    links[k].0 == owner ==> x != links[k].1)) by {
        lemma_push_contains(links.take(k), links[k], (owner, x));
    }
    if links[k].0 == owner {
        assert(both(dropped_by(links, k, owner), other_than(links[k].1)) =~= dropped_by(links, k + 1, owner));
    } else {
        assert(dropped_by(links, k, owner) =~= dropped_by(links, k + 1, owner));
    }
}

/// Takes the dead segments listed in `links` out of a snake chain.
fn unlink_segments(chain: &mut SnakeChain, owner: EntityId, links: &Vec<(EntityId, EntityId)>)
    ensures
        final(chain).segment_ids@ == old(chain).segment_ids@.filter(dropped_by(links@, links@.len() as int, owner)),
        final(chain).max_segments == old(chain).max_segments,
{
    let ghost orig = chain.segment_ids@;
    proof {
        assert(links@.take(0) =~= Seq::<(EntityId, EntityId)>::empty());
        lemma_filter_all(orig, dropped_by(links@, 0, owner));
    }
    let mut k: usize = 0;
    while k < links.len()
        invariant
            k <= links@.len(),
            chain.segment_ids@ == orig.filter(dropped_by(links@, k as int, owner)),
            chain.max_segments == old(chain).max_segments,
            orig == old(chain).segment_ids@,
        decreases links.len() - k,
    {
        let (o, m) = links[k];
        proof {
            lemma_dropped_step(links@, k as int, owner);
        }
        if o.0 == owner.0 {
            let ghost prev = chain.segment_ids@;
            chain.remove_segment(m);
            proof {
                assert(chain.segment_ids@ == without_id(prev, m));
                lemma_filter_filter(orig, dropped_by(links@, k as int, owner), other_than(m));
            }
        }
        k = k + 1;
    }
    proof {
        assert(links@.take(links@.len() as int) =~= links@);
    }
}

/// Takes the dead nodes listed in `links` out of a blob core; a core that
/// lost none is left as it was.
fn unlink_nodes(core: &mut BlobCoreData, owner: EntityId, links: &Vec<(EntityId, EntityId)>)
    ensures
        (exists|m: EntityId| links@.contains((owner, m))) ==> {
            &&& final(core).nodes() == old(core).nodes().filter(dropped_by(links@, links@.len() as int, owner))
            &&& final(core).spec_max_size() == old(core).spec_max_size()
            &&& final(core).spec_phase() == phase_for_count(final(core).nodes().len())
        },
        !(exists|m: EntityId| links@.contains((owner, m))) ==> *final(core) == *old(core),
{
    let ghost orig = core.nodes();
    proof {
        assert(links@.take(0) =~= Seq::<(EntityId, EntityId)>::empty());
        lemma_filter_all(orig, dropped_by(links@, 0, owner));
    }
    let mut any = false;
    let mut k: usize = 0;
    while k < links.len()
        invariant
            k <= links@.len(),
            orig == old(core).nodes(),
            any == exists|j: int| 0 <= j < k && (#[trigger] links@[j]).0 == owner,
            any ==> {
                &&& core.nodes() == orig.filter(dropped_by(links@, k as int, owner))
                &&& core.spec_max_size() == old(core).spec_max_size()
                &&& core.spec_phase() == phase_for_count(core.nodes().len())
            },
            !any ==> *core == *old(core),
            !any ==> orig.filter(dropped_by(links@, k as int, owner)) == orig,
        decreases links.len() - k,
    {
        let (o, m) = links[k];
        proof {
            lemma_dropped_step(links@, k as int, owner);
        }
        if o.0 == owner.0 {
            let ghost prev = core.nodes();
            core.remove_node(m);
            proof {
                assert(core.nodes() == without_id(prev, m));
                lemma_filter_filter(orig, dropped_by(links@, k as int, owner), other_than(m));
            }
            any = true;
        }
        k = k + 1;
    }
    proof {
        assert(links@.take(links@.len() as int) =~= links@);
        if exists|m: EntityId| links@.contains((owner, m)) {
            let m = choose|m: EntityId| links@.contains((owner, m));
            let j = choose|j: int| 0 <= j < links@.len() && links@[j] == (owner, m);
            assert(links@[j].0 == owner);
        }
        if any {
            let j = choose|j: int| 0 <= j < k && (#[trigger] links@[j]).0 == owner;
            assert(links@.contains((owner, links@[j].1)));
        }
    }
}

/// Applies the death pass's unlinking to one living enemy.
fn unlink_record(
    e: EnemyRecord,
    seg_links: &Vec<(EntityId, EntityId)>,
    node_links: &Vec<(EntityId, EntityId)>,
    Ghost(enemies): Ghost<Seq<EnemyRecord>>,
) -> (r: EnemyRecord)
    requires
        seg_links@ == dead_links(enemies, false),
        node_links@ == dead_links(enemies, true),
    ensures
        unlinked(e, r, enemies),
{
    proof {
        lemma_dead_links_exact(enemies, false);
        lemma_dead_links_exact(enemies, true);
    }
    let EnemyRecord { id, alive, kind } = e;
    match kind {
        EnemyKind::Snake(mut chain) => {
            let ghost c = chain;
            unlink_segments(&mut chain, id, seg_links);
            proof {
                let p = dropped_by(seg_links@, seg_links@.len() as int, id);
                assert(seg_links@.take(seg_links@.len() as int) =~= seg_links@);
                assert(p =~= (|s: EntityId| !member_died(enemies, id, s, false)));
            }
            EnemyRecord { id, alive, kind: EnemyKind::Snake(chain) }
        },
        EnemyKind::BlobCore(mut core) => {
            let ghost c = core;
            unlink_nodes(&mut core, id, node_links);
            proof {
                let p = dropped_by(node_links@, node_links@.len() as int, id);
                assert(node_links@.take(node_links@.len() as int) =~= node_links@);
                assert(p =~= (|s: EntityId| !member_died(enemies, id, s, true)));
                if exists|m: EntityId| member_died(enemies, id, m, true) {
                    let m = choose|m: EntityId| member_died(enemies, id, m, true);
                    assert(node_links@.contains((id, m)));
                }
            }
            EnemyRecord { id, alive, kind: EnemyKind::BlobCore(core) }
        },
        other => EnemyRecord { id, alive, kind: other },
    }
}

/// The death pass. Every dead enemy is reported (its id, in list order:
/// the returned ids are the die events); a dead snake segment is taken out
/// of its head's chain and a dead blob node out of its core's node list
/// (which then takes the phase of its new node count); a dead splitter or
/// shield before its last generation leaves two children of the next
/// generation, appended after the survivors with fresh ids counted up from
/// `next_id`; the dead are removed and the survivors keep their order.
/// A snake head's death leaves its segments alive: they only die of
/// routed damage.
pub fn handle_deaths(enemies: &mut Vec<EnemyRecord>, next_id: &mut u32) -> (died: Vec<EntityId>)
    requires
        ids_distinct(old(enemies)@),
        *old(next_id) + all_children(old(enemies)@, *old(next_id) as int).len() <= u32::MAX,
    ensures
        ({
            let before = old(enemies)@;
            let kept = living(before);
            let kids = all_children(before, *old(next_id) as int);
            &&& died@ == dead_ids(before)
            &&& final(enemies)@.len() == kept.len() + kids.len()
            &&& forall|m: int| 0 <= m < kept.len() ==> unlinked(kept[m], #[trigger] final(enemies)@[m], before)
            &&& forall|m: int| 0 <= m < kids.len() ==> #[trigger] final(enemies)@[kept.len() + m] == kids[m]
            &&& *final(next_id) == *old(next_id) + kids.len()
        }),
        forall|m: int| 0 <= m < final(enemies)@.len() ==> (#[trigger] final(enemies)@[m]).alive,
{
    let ghost before = enemies@;
    let ghost next0 = *next_id as int;
    let mut died: Vec<EntityId> = Vec::new();
    let mut seg_links: Vec<(EntityId, EntityId)> = Vec::new();
    let mut node_links: Vec<(EntityId, EntityId)> = Vec::new();
    let mut kids: Vec<EnemyRecord> = Vec::new();
    let mut i: usize = 0;
    while i < enemies.len()
        invariant
            enemies@ == before,
            i <= before.len(),
            next0 + all_children(before, next0).len() <= u32::MAX,
            died@ == dead_ids(before.take(i as int)),
            seg_links@ == dead_links(before.take(i as int), false),
            node_links@ == dead_links(before.take(i as int), true),
            kids@ == all_children(before.take(i as int), next0),
            *next_id == next0 + kids@.len(),
        decreases before.len() - i,
    {
        let e = &enemies[i];
        proof {
            assert(before.take(i + 1).drop_last() =~= before.take(i as int));
            assert(before.take(i + 1).last() == before[i as int]);
            lemma_children_prefix(before, i + 1, next0, next0);
        }
        if !e.alive {
            died.push(e.id);
            match &e.kind {
                EnemyKind::SnakeSegment { head_id } => seg_links.push((*head_id, e.id)),
                EnemyKind::BlobNode { core_id } => node_links.push((*core_id, e.id)),
                _ => {},
            }
            match offspring(&e.kind) {
                Offspring::Splitters(d) => {
                    kids.push(EnemyRecord { id: EntityId(*next_id), alive: true, kind: EnemyKind::Splitter(d) });
                    kids.push(
                        EnemyRecord { id: EntityId(*next_id + 1), alive: true, kind: EnemyKind::Splitter(d) },
                    );
                    *next_id = *next_id + 2;
                },
                Offspring::Shields(g) => {
                    kids.push(EnemyRecord { id: EntityId(*next_id), alive: true, kind: EnemyKind::Shield(g) });
                    kids.push(EnemyRecord { id: EntityId(*next_id + 1), alive: true, kind: EnemyKind::Shield(g) });
                    *next_id = *next_id + 2;
                },
                Offspring::Nothing => {},
            }
        }
        i = i + 1;
    }
    proof {
        assert(before.take(before.len() as int) =~= before);
    }
    let mut rest: Vec<EnemyRecord> = Vec::new();
    std::mem::swap(enemies, &mut rest);
    proof {
        assert(rest@ == before);
        assert(before.skip(0) =~= before);
    }
    let ghost f = |e: EnemyRecord| e.alive;
    let mut j: usize = 0;
    while rest.len() > 0
        invariant
            rest@ == before.skip(j as int),
            j <= before.len(),
            before.len() <= usize::MAX,
            seg_links@ == dead_links(before, false),
            node_links@ == dead_links(before, true),
            f == (|e: EnemyRecord| e.alive),
            enemies@.len() == before.take(j as int).filter(f).len(),
            forall|m: int|
                0 <= m < enemies@.len() ==> unlinked(
                    before.take(j as int).filter(f)[m],
                    #[trigger] enemies@[m],
                    before,
                ),
        decreases rest.len(),
    {
        let e = rest.remove(0);
        proof {
            assert(e == before[j as int]);
            assert(before.skip(j as int).remove(0) =~= before.skip(j + 1));
            assert(before.take(j + 1) =~= before.take(j as int).push(e));
            before.take(j as int).lemma_filter_push(e, f);
        }
        if e.alive {
            let r = unlink_record(e, &seg_links, &node_links, Ghost(before));
            enemies.push(r);
        }
        j = j + 1;
    }
    proof {
        assert(before.take(j as int) =~= before);
    }
    proof {
        assert(before.take(j as int).filter(f) == living(before));
    }
    enemies.append(&mut kids);
    proof {
        let kept = living(before);
        lemma_children_numbered(before, next0);
        assert forall|m: int| 0 <= m < enemies@.len() implies (#[trigger] enemies@[m]).alive by {
            if m < kept.len() {
                before.lemma_filter_pred(f, m);
                assert(unlinked(kept[m], enemies@[m], before));
            } else {
                assert(enemies@[m] == all_children(before, next0)[m - kept.len()]);
            }
        }
    }
    died
}

/// Removes the dead enemies, keeping the living ones in order, and returns
/// the ids of the removed ones in list order.
pub fn cleanup_dead_enemies(enemies: &mut Vec<EnemyRecord>) -> (destroyed: Vec<EntityId>)
    ensures
        final(enemies)@ == living(old(enemies)@),
        destroyed@ == dead_ids(old(enemies)@),
{
    let ghost before = enemies@;
    let ghost f = |e: EnemyRecord| e.alive;
    let mut rest: Vec<EnemyRecord> = Vec::new();
    std::mem::swap(enemies, &mut rest);
    let n = rest.len();
    proof {
        assert(rest@ == before);
        assert(before.len() == n);
        assert(before.skip(0) =~= before);
    }
    let mut destroyed: Vec<EntityId> = Vec::new();
    let mut j: usize = 0;
    while rest.len() > 0
        invariant
            rest@ == before.skip(j as int),
            j <= before.len(),
            before.len() <= usize::MAX,
            f == (|e: EnemyRecord| e.alive),
            enemies@ == before.take(j as int).filter(f),
            destroyed@ == dead_ids(before.take(j as int)),
        decreases rest.len(),
    {
        let e = rest.remove(0);
        proof {
            assert(e == before[j as int]);
            assert(before.skip(j as int).remove(0) =~= before.skip(j + 1));
            assert(before.take(j + 1) =~= before.take(j as int).push(e));
            assert(before.take(j + 1).drop_last() =~= before.take(j as int));
            before.take(j as int).lemma_filter_push(e, f);
        }
        if e.alive {
            enemies.push(e);
        } else {
            destroyed.push(e.id);
        }
        j = j + 1;
    }
    proof {
        assert(before.take(j as int) =~= before);
    }
    destroyed
}

/// Splitting goes one generation at a time and stops at the last one: a
/// splitter or shield below its last generation leaves children exactly
/// one generation further on, never past the last, and one at its last
/// generation leaves nothing.
pub proof fn lemma_offspring_generations(kind: EnemyKind)
    ensures
        kind matches EnemyKind::Splitter(d) ==> (d.current_generation < d.max_generation <==> offspring_of(kind) is Splitters),
        offspring_of(kind) matches Offspring::Splitters(c) ==> (kind matches EnemyKind::Splitter(d) && c.current_generation
            == d.current_generation + 1 && c.current_generation <= c.max_generation && c.max_generation
            == d.max_generation),
        kind matches EnemyKind::Shield(g) ==> (g.current_generation < g.max_generation <==> offspring_of(kind) is Shields),
        offspring_of(kind) matches Offspring::Shields(c) ==> (kind matches EnemyKind::Shield(g) && c.current_generation
            == g.current_generation + 1 && c.current_generation <= c.max_generation && c.max_generation
            == g.max_generation && c.core_id == g.core_id),
        !(kind is Splitter) && !(kind is Shield) ==> offspring_of(kind) == Offspring::Nothing,
{
}

} // verus!
