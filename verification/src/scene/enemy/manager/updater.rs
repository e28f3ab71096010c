//! Per-frame enemy update passes: blob connectivity and blob growth.
use vstd::prelude::*;
use crate::random::random_index;
use crate::scene::enemy::manager::ranking::{
    select_ranked, stable_rank, select_keyed, keyed_rank, distinct_positions, key_precedes, count_before,
};
use crate::engine::EntityId;
use crate::scene::enemy::behaviors::blob::{
    BlobNodeType, GridPos, grid_in_range, connected_to_core, flood_fill_from_core, contains_pos, adjacent_seq,
    get_adjacent_positions, connected_neighbors, count_connected_neighbors, manhattan, manhattan_fits,
    manhattan_distance, pos_lt, pos_less, origin, spec_is_edge, is_edge_position,
    connected_neighbors_upto, BLOB_MAX_FACTORY_COUNT, BlobPhase, BlobCoreData, is_grid_path, is_adjacent,
    lemma_extend_connection,
};

verus! {

/// What the blob passes read of one enemy of the enemy list.
#[derive(Debug, Clone, Copy, PartialEq, Eq)]
pub enum BlobMember {
    /// A blob core.
    Core { id: EntityId },
    /// A blob node grown by the core `core_id`.
    Node {
        core_id: EntityId,
        node_type: BlobNodeType,
        grid_position: GridPos,
        connected_to_core: bool,
    },
    /// Any other enemy.
    Other,
}

/// `e` is the core `c`.
pub open spec fn is_core_of(e: BlobMember, c: EntityId) -> bool {
    e matches BlobMember::Core { id } && id == c
}

/// `e` is a node of core `c` at grid position `p`.
pub open spec fn is_node_at(e: BlobMember, c: EntityId, p: GridPos) -> bool {
    e matches BlobMember::Node { core_id, grid_position, .. } && core_id == c && grid_position == p
}

/// `l` is the last place of core `c` in the list.
pub open spec fn last_core_index(entries: Seq<BlobMember>, c: EntityId, l: int) -> bool {
    &&& 0 <= l < entries.len()
    &&& is_core_of(entries[l], c)
    &&& forall|j: int| l < j < entries.len() ==> !is_core_of(#[trigger] entries[j], c)
}

/// Positions of the nodes of core `c` listed after its last place `l`: the
/// grid the connectivity pass sees for that core.
pub open spec fn blob_grid(entries: Seq<BlobMember>, c: EntityId, l: int) -> Set<GridPos> {
    Set::new(|p: GridPos| exists|i: int| 0 <= i && l < i < entries.len() && #[trigger] is_node_at(entries[i], c, p))
}

/// No node of core `c` listed after `i` sits at position `p`.
pub open spec fn last_at_position(entries: Seq<BlobMember>, c: EntityId, p: GridPos, i: int) -> bool {
    forall|j: int| i < j < entries.len() ==> !is_node_at(#[trigger] entries[j], c, p)
}

/// The connectivity flag the pass gives entry `i`: a node listed after
/// its core's last place, and last among that core's nodes at its
/// position, is connected iff its position is reachable from the core
/// through that core's grid; every other entry keeps its flag.
pub open spec fn checked_member(entries: Seq<BlobMember>, i: int) -> BlobMember {
    match entries[i] {
        BlobMember::Node { core_id, node_type, grid_position, connected_to_core: was } => {
            if exists|l: int| last_core_index(entries, core_id, l) && l < i && last_at_position(
                entries,
                core_id,
                grid_position,
                i,
            ) {
                let l = choose|l: int| last_core_index(entries, core_id, l);
                BlobMember::Node {
                    core_id,
                    node_type,
                    grid_position,
                    connected_to_core: connected_to_core(blob_grid(entries, core_id, l), grid_position),
                }
            } else {
                entries[i]
            }
        },
        _ => entries[i],
    }
}

/// The last place of a core in the list is unique.
proof fn lemma_last_core_unique(entries: Seq<BlobMember>, c: EntityId, l1: int, l2: int)
    requires
        last_core_index(entries, c, l1),
        last_core_index(entries, c, l2),
    ensures
        l1 == l2,
{
    if l1 < l2 {
        assert(is_core_of(entries[l2], c));
    } else if l2 < l1 {
        assert(is_core_of(entries[l1], c));
    }
}

fn same_id(a: EntityId, b: EntityId) -> (r: bool)
    ensures
        r == (a == b),
{
    a.0 == b.0
}

/// Whether entry `l` (a core) is that core's last place in the list.
fn is_last_core(entries: &Vec<BlobMember>, l: usize, c: EntityId) -> (r: bool)
    requires
        l < entries.len(),
        is_core_of(entries@[l as int], c),
    ensures
        r == last_core_index(entries@, c, l as int),
{
    let mut j = l + 1;
    while j < entries.len()
        invariant
            l < j <= entries.len(),
            forall|k: int| l < k < j ==> !is_core_of(#[trigger] entries@[k], c),
        decreases entries.len() - j,
    {
        match entries[j] {
            BlobMember::Core { id } => {
                if same_id(id, c) {
                    return false;
                }
            },
            _ => {},
        }
        j = j + 1;
    }
    true
}

/// Whether no node of core `c` after entry `i` sits at `p`.
fn is_last_at_position(entries: &Vec<BlobMember>, c: EntityId, p: GridPos, i: usize) -> (r: bool)
    requires
        i < entries.len(),
    ensures
        r == last_at_position(entries@, c, p, i as int),
{
    let mut j = i + 1;
    while j < entries.len()
        invariant
            i < j <= entries.len(),
            forall|k: int| i < k < j ==> !is_node_at(#[trigger] entries@[k], c, p),
        decreases entries.len() - j,
    {
        match entries[j] {
            BlobMember::Node { core_id, grid_position, .. } => {
                if same_id(core_id, c) && grid_position.0 == p.0 && grid_position.1 == p.1
                    && grid_position.2 == p.2 {
                    return false;
                }
            },
            _ => {},
        }
        j = j + 1;
    }
    true
}

/// Positions of the nodes of core `c` listed after entry `l`.
fn collect_blob_grid(entries: &Vec<BlobMember>, c: EntityId, l: usize) -> (occ: Vec<GridPos>)
    requires
        l < entries.len(),
    ensures
        occ@.to_set() == blob_grid(entries@, c, l as int),
{
    let mut occ: Vec<GridPos> = Vec::new();
    let mut i = l + 1;
    while i < entries.len()
        invariant
            l < i <= entries.len(),
            forall|p: GridPos| occ@.contains(p) <==> exists|k: int| l < k < i && #[trigger] is_node_at(entries@[k], c, p),
        decreases entries.len() - i,
    {
        let ghost before = occ@;
        match entries[i] {
            BlobMember::Node { core_id, grid_position, .. } => {
                if same_id(core_id, c) {
                    occ.push(grid_position);
                }
            },
            _ => {},
        }
        proof {
            assert forall|p: GridPos| occ@.contains(p) <==> exists|k: int| l < k < i + 1 && #[trigger] is_node_at(entries@[k], c, p) by {
                if occ@.contains(p) {
                    let m = choose|m: int| 0 <= m < occ@.len() && occ@[m] == p;
                    if m < before.len() {
                        assert(before[m] == p);
                        assert(before.contains(p));
                        let k2 = choose|k2: int| l < k2 < i && #[trigger] is_node_at(entries@[k2], c, p);
                        assert(l < k2 < i + 1 && is_node_at(entries@[k2], c, p));
                    } else {
                        assert(is_node_at(entries@[i as int], c, p));
                    }
                }
                if exists|k: int| l < k < i + 1 && #[trigger] is_node_at(entries@[k], c, p) {
                    let k = choose|k: int| l < k < i + 1 && #[trigger] is_node_at(entries@[k], c, p);
                    if k < i {
                        assert(exists|k2: int| l < k2 < i && #[trigger] is_node_at(entries@[k2], c, p));
                        assert(before.contains(p));
                        let m = choose|m: int| 0 <= m < before.len() && before[m] == p;
                        assert(occ@[m] == p);
                    } else {
                        assert(occ@[occ@.len() - 1] == p);
                    }
                }
            }
        }
        i = i + 1;
    }
    proof {
        assert(occ@.to_set() =~= blob_grid(entries@, c, l as int));
    }
    occ
}

/// The whole list after one connectivity pass.
pub open spec fn checked_list(entries: Seq<BlobMember>) -> Seq<BlobMember> {
    Seq::new(entries.len(), |i: int| checked_member(entries, i))
}

/// `a` and `b` are the same enemy but for the connectivity flag.
pub open spec fn same_but_flag(a: BlobMember, b: BlobMember) -> bool {
    match (a, b) {
        (
            BlobMember::Node { core_id: c1, node_type: t1, grid_position: p1, .. },
            BlobMember::Node { core_id: c2, node_type: t2, grid_position: p2, .. },
        ) => c1 == c2 && t1 == t2 && p1 == p2,
        _ => a == b,
    }
}

/// A connectivity pass changes nothing but node flags.
pub proof fn lemma_checked_keeps_shape(entries: Seq<BlobMember>, i: int)
    requires
        0 <= i < entries.len(),
    ensures
        same_but_flag(checked_list(entries)[i], entries[i]),
{
}

/// Running the connectivity pass a second time changes nothing: the flags
/// depend only on the cores, node kinds and positions, which the pass
/// leaves as they are.
pub proof fn lemma_connectivity_idempotent(entries: Seq<BlobMember>)
    ensures
        checked_list(checked_list(entries)) == checked_list(entries),
{
    let es = entries;
    let es2 = checked_list(es);
    assert forall|j: int| 0 <= j < es.len() implies same_but_flag(#[trigger] es2[j], es[j]) by {
        lemma_checked_keeps_shape(es, j);
    }
    assert forall|j: int, c: EntityId| 0 <= j < es.len() implies (#[trigger] is_core_of(es2[j], c) == is_core_of(es[j], c)) by {
        assert(same_but_flag(es2[j], es[j]));
    }
    assert forall|j: int, c: EntityId, p: GridPos| 0 <= j < es.len() implies (#[trigger] is_node_at(es2[j], c, p) == is_node_at(es[j], c, p)) by {
        assert(same_but_flag(es2[j], es[j]));
    }
    assert forall|c: EntityId, l: int| last_core_index(es2, c, l) == last_core_index(es, c, l) by {
        if last_core_index(es, c, l) {
            assert forall|j: int| l < j < es2.len() implies !is_core_of(#[trigger] es2[j], c) by {
                assert(!is_core_of(es[j], c));
            }
        }
        if last_core_index(es2, c, l) {
            assert(is_core_of(es[l], c));
            assert forall|j: int| l < j < es.len() implies !is_core_of(#[trigger] es[j], c) by {
                assert(!is_core_of(es2[j], c));
            }
        }
    }
    assert forall|c: EntityId, l: int| blob_grid(es2, c, l) == blob_grid(es, c, l) by {
        assert forall|p: GridPos| blob_grid(es2, c, l).contains(p) == blob_grid(es, c, l).contains(p) by {
            if blob_grid(es, c, l).contains(p) {
                let i = choose|i: int| 0 <= i && l < i < es.len() && #[trigger] is_node_at(es[i], c, p);
                assert(is_node_at(es2[i], c, p));
            }
            if blob_grid(es2, c, l).contains(p) {
                let i = choose|i: int| 0 <= i && l < i < es2.len() && #[trigger] is_node_at(es2[i], c, p);
                assert(is_node_at(es[i], c, p));
            }
        }
        assert(blob_grid(es2, c, l) =~= blob_grid(es, c, l));
    }
    assert forall|c: EntityId, p: GridPos, i: int| 0 <= i < es.len() implies last_at_position(es2, c, p, i) == last_at_position(es, c, p, i) by {
        if last_at_position(es, c, p, i) {
            assert forall|j: int| i < j < es2.len() implies !is_node_at(#[trigger] es2[j], c, p) by {
                assert(!is_node_at(es[j], c, p));
            }
        }
        if last_at_position(es2, c, p, i) {
            assert forall|j: int| i < j < es.len() implies !is_node_at(#[trigger] es[j], c, p) by {
                assert(!is_node_at(es2[j], c, p));
            }
        }
    }
    assert forall|i: int| 0 <= i < es.len() implies #[trigger] checked_list(es2)[i] == es2[i] by {
        assert(same_but_flag(es2[i], es[i]));
        match es[i] {
            BlobMember::Node { core_id, node_type, grid_position, .. } => {
                if exists|l: int| last_core_index(es, core_id, l) && l < i && last_at_position(es, core_id, grid_position, i) {
                    let l = choose|l: int| last_core_index(es, core_id, l) && l < i && last_at_position(es, core_id, grid_position, i);
                    let l1 = choose|l: int| last_core_index(es, core_id, l);
                    let l2 = choose|l: int| last_core_index(es2, core_id, l);
                    assert(last_core_index(es2, core_id, l));
                    lemma_last_core_unique(es, core_id, l, l1);
                    lemma_last_core_unique(es2, core_id, l, l2);
                    assert(last_at_position(es2, core_id, grid_position, i));
                } else {
                    assert(!(exists|l: int| last_core_index(es2, core_id, l) && l < i && last_at_position(es2, core_id, grid_position, i))) by {
                        if exists|l: int| last_core_index(es2, core_id, l) && l < i && last_at_position(es2, core_id, grid_position, i) {
                            let l = choose|l: int| last_core_index(es2, core_id, l) && l < i && last_at_position(es2, core_id, grid_position, i);
                            assert(last_core_index(es, core_id, l));
                            assert(last_at_position(es, core_id, grid_position, i));
                        }
                    }
                }
            },
            _ => {},
        }
    }
    assert(checked_list(es2) =~= es2);
}

/// Entry `i` once the cores whose last place lies before `l` have been
/// processed.
pub open spec fn after_cores(es: Seq<BlobMember>, l: int, i: int) -> BlobMember {
    match es[i] {
        BlobMember::Node { core_id, .. } => if exists|m: int| 0 <= m < l && last_core_index(es, core_id, m) {
            checked_member(es, i)
        } else {
            es[i]
        },
        _ => es[i],
    }
}

/// Entry `j` while core `c`, whose last place is `l`, has had its nodes
/// before position `i` processed.
pub open spec fn during_core(es: Seq<BlobMember>, l: int, c: EntityId, i: int, j: int) -> BlobMember {
    match es[j] {
        BlobMember::Node { core_id, .. } => if exists|m: int| 0 <= m < l && last_core_index(es, core_id, m) {
            checked_member(es, j)
        } else if core_id == c && l < j < i {
            checked_member(es, j)
        } else {
            es[j]
        },
        _ => es[j],
    }
}

/// A node listed no later than its core's last place keeps its flag.
proof fn lemma_checked_before_core(es: Seq<BlobMember>, c: EntityId, l: int, j: int)
    requires
        last_core_index(es, c, l),
        0 <= j <= l,
        es[j] matches BlobMember::Node { core_id, .. } && core_id == c,
    ensures
        checked_member(es, j) == es[j],
{
    if exists|m: int| last_core_index(es, c, m) && m < j {
        let m = choose|m: int| last_core_index(es, c, m) && m < j;
        lemma_last_core_unique(es, c, l, m);
    }
}

/// Check connectivity of blob nodes and mark disconnected ones: for each
/// blob core, flood-fill its grid from the core and set each of its nodes'
/// flag to whether the node's position was reached (see `checked_member`
/// for exactly which entries change). Only positions the flood fill
/// reaches must lie strictly inside the i32 range, since only their
/// neighbours are computed.
pub fn check_blob_connectivity(entries: &mut Vec<BlobMember>)
    requires
        forall|c: EntityId, l: int, p: GridPos|
            #![trigger last_core_index(old(entries)@, c, l), connected_to_core(blob_grid(old(entries)@, c, l), p)]
            last_core_index(old(entries)@, c, l) && connected_to_core(blob_grid(old(entries)@, c, l), p) ==> grid_in_range(p),
    ensures
        final(entries)@.len() == old(entries)@.len(),
        forall|i: int| 0 <= i < old(entries)@.len() ==> #[trigger] final(entries)@[i] == checked_member(old(entries)@, i),
{
    let n = entries.len();
    let mut result: Vec<BlobMember> = Vec::new();
    let mut k: usize = 0;
    while k < n
        invariant
            n == entries.len(),
            k <= n,
            result@ == entries@.take(k as int),
        decreases n - k,
    {
        result.push(entries[k]);
        proof {
            assert(entries@.take(k + 1) == entries@.take(k as int).push(entries@[k as int]));
        }
        k = k + 1;
    }
    proof {
        assert(entries@.take(n as int) == entries@);
    }
    let ghost es = entries@;
    let mut l: usize = 0;
    while l < n
        invariant
            n == entries.len(),
            es == entries@,
            l <= n,
            result@.len() == n,
            forall|c: EntityId, l: int, p: GridPos|
                #![trigger last_core_index(es, c, l), connected_to_core(blob_grid(es, c, l), p)]
                last_core_index(es, c, l) && connected_to_core(blob_grid(es, c, l), p) ==> grid_in_range(p),
            forall|i: int| 0 <= i < n ==> #[trigger] result@[i] == after_cores(es, l as int, i),
        decreases n - l,
    {
        let mut processed = false;
        match entries[l] {
            BlobMember::Core { id: c } => {
                if is_last_core(entries, l, c) {
                    processed = true;
                    let occ = collect_blob_grid(entries, c, l);
                    proof {
                        assert forall|p: GridPos| #[trigger] connected_to_core(occ@.to_set(), p) implies grid_in_range(p) by {
                            assert(last_core_index(es, c, l as int));
                            assert(connected_to_core(blob_grid(es, c, l as int), p));
                        }
                    }
                    let connected = flood_fill_from_core(&occ);
                    let mut i = l + 1;
                    proof {
                        assert forall|j: int| 0 <= j < n implies #[trigger] result@[j] == during_core(es, l as int, c, i as int, j) by {}
                    }
                    while i < n
                        invariant
                            n == entries.len(),
                            es == entries@,
                            l < i <= n,
                            result@.len() == n,
                            last_core_index(es, c, l as int),
                            occ@.to_set() == blob_grid(es, c, l as int),
                            forall|p: GridPos| connected@.contains(p) <==> connected_to_core(occ@.to_set(), p),
                            forall|j: int| 0 <= j < n ==> #[trigger] result@[j] == during_core(es, l as int, c, i as int, j),
                        decreases n - i,
                    {
                        let ghost before = result@;
                        match entries[i] {
                            BlobMember::Node { core_id, node_type, grid_position, connected_to_core: was } => {
                                if same_id(core_id, c) {
                                    let last = is_last_at_position(entries, c, grid_position, i);
                                    if last {
                                        let reached = contains_pos(&connected, grid_position);
                                        result.set(i, BlobMember::Node { core_id, node_type, grid_position, connected_to_core: reached });
                                    }
                                    proof {
                                        let l_chosen = choose|m: int| last_core_index(es, c, m);
                                        lemma_last_core_unique(es, c, l as int, l_chosen);
                                        assert(!exists|m: int| 0 <= m < l && last_core_index(es, c, m)) by {
                                            if exists|m: int| 0 <= m < l && last_core_index(es, c, m) {
                                                let m = choose|m: int| 0 <= m < l && last_core_index(es, c, m);
                                                lemma_last_core_unique(es, c, l as int, m);
                                            }
                                        }
                                        if !last {
                                            assert(!(exists|m: int| last_core_index(es, c, m) && m < i && last_at_position(es, c, grid_position, i as int)));
                                        }
                                    }
                                }
                            },
                            _ => {},
                        }
                        proof {
                            assert forall|j: int| 0 <= j < n implies #[trigger] result@[j] == during_core(es, l as int, c, i + 1, j) by {
                                if j != i {
                                    assert(result@[j] == before[j]);
                                }
                            }
                        }
                        i = i + 1;
                    }
                    proof {
                        assert forall|j: int| 0 <= j < n implies #[trigger] result@[j] == after_cores(es, l + 1, j) by {
                            assert(result@[j] == during_core(es, l as int, c, n as int, j));
                            match es[j] {
                                BlobMember::Node { core_id, .. } => {
                                    if core_id == c {
                                        assert(exists|m: int| 0 <= m < l + 1 && last_core_index(es, core_id, m));
                                        if j <= l {
                                            lemma_checked_before_core(es, c, l as int, j);
                                        }
                                    } else {
                                        if exists|m: int| 0 <= m < l + 1 && last_core_index(es, core_id, m) {
                                            let m = choose|m: int| 0 <= m < l + 1 && last_core_index(es, core_id, m);
                                            assert(m != l);
                                        }
                                    }
                                },
                                _ => {},
                            }
                        }
                    }
                }
            },
            _ => {},
        }
        proof {
            if !processed {
                assert forall|j: int| 0 <= j < n implies #[trigger] result@[j] == after_cores(es, l + 1, j) by {
                    match es[j] {
                        BlobMember::Node { core_id, .. } => {
                            if exists|m: int| 0 <= m < l + 1 && last_core_index(es, core_id, m) {
                                let m = choose|m: int| 0 <= m < l + 1 && last_core_index(es, core_id, m);
                                assert(m != l);
                            }
                        },
                        _ => {},
                    }
                }
            }
        }
        l = l + 1;
    }
    proof {
        assert forall|i: int| 0 <= i < n implies #[trigger] result@[i] == checked_member(es, i) by {
            match es[i] {
                BlobMember::Node { core_id, .. } => {
                    if exists|m: int| last_core_index(es, core_id, m) {
                        let m = choose|m: int| last_core_index(es, core_id, m);
                        assert(0 <= m < n);
                    }
                },
                _ => {},
            }
        }
    }
    *entries = result;
}

/// `p` is free and borders a connected position: a place the blob can
/// grow into.
pub open spec fn is_growth_candidate(occupied: Seq<GridPos>, connected: Seq<GridPos>, p: GridPos) -> bool {
    !occupied.contains(p) && exists|i: int, d: int|
        0 <= i < connected.len() && 0 <= d < 6 && #[trigger] adjacent_seq(connected[i])[d] == p
}

/// Growth from the connected positions cannot overflow: they and their
/// free neighbours lie within the grid, and those neighbours' distances
/// from the core fit an `i32`.
pub open spec fn growth_safe(occupied: Seq<GridPos>, connected: Seq<GridPos>) -> bool {
    forall|i: int| 0 <= i < connected.len() ==> {
        &&& grid_in_range(#[trigger] connected[i])
        &&& forall|d: int| 0 <= d < 6 && !occupied.contains(#[trigger] adjacent_seq(connected[i])[d])
            ==> grid_in_range(adjacent_seq(connected[i])[d]) && manhattan_fits(adjacent_seq(connected[i])[d])
    }
}

/// Priority of a bolstering spawn at `p`: many connected neighbours first
/// (weighted ten times more when the blob is damaged), then nearness to
/// the core.
pub open spec fn bolster_priority(connected: Seq<GridPos>, p: GridPos, is_damaged: bool) -> int {
    connected_neighbors(connected, p) * (if is_damaged { 1000int } else { 100int }) - manhattan(p)
}

/// `(pa, a)` comes no later than `(pb, b)` when ranking by priority,
/// highest first, then by position, smallest first.
pub open spec fn ranks_first(pa: int, a: GridPos, pb: int, b: GridPos) -> bool {
    pa > pb || (pa == pb && (a == b || pos_lt(a, b)))
}

/// The best candidate so far, when there is one, ranks no later than
/// `q` of priority `prio`.
pub open spec fn best_beats(best: Option<(GridPos, i32)>, prio: int, q: GridPos) -> bool {
    match best {
        Some((p, pr)) => ranks_first(pr as int, p, prio, q),
        None => false,
    }
}

/// The bolstering choice in terms of the cells themselves: a spawn that
/// ranks first by priority has, among the candidates with as many
/// connected neighbours, the least Manhattan distance from the core; among
/// those as far from the core, the most connected neighbours; and in all,
/// the greatest value of neighbours times the weight (a thousand when
/// damaged, a hundred otherwise) minus distance.
pub proof fn lemma_bolstering_choice(occupied: Seq<GridPos>, connected: Seq<GridPos>, is_damaged: bool, p: GridPos)
    requires
        forall|q: GridPos|
            is_growth_candidate(occupied, connected, q) ==> ranks_first(
                bolster_priority(connected, p, is_damaged),
                p,
                bolster_priority(connected, q, is_damaged),
                q,
            ),
    ensures
        forall|q: GridPos|
            is_growth_candidate(occupied, connected, q) && connected_neighbors(connected, q) == connected_neighbors(
                connected,
                p,
            ) ==> manhattan(p) <= manhattan(q),
        forall|q: GridPos|
            is_growth_candidate(occupied, connected, q) && manhattan(q) == manhattan(p) ==> connected_neighbors(
                connected,
                q,
            ) <= connected_neighbors(connected, p),
        forall|q: GridPos|
            is_growth_candidate(occupied, connected, q) ==> connected_neighbors(connected, q) * (if is_damaged {
                1000int
            } else {
                100int
            }) - manhattan(q) <= connected_neighbors(connected, p) * (if is_damaged {
                1000int
            } else {
                100int
            }) - manhattan(p),
{
    assert forall|q: GridPos| is_growth_candidate(occupied, connected, q) implies connected_neighbors(connected, q) * (
    if is_damaged {
        1000int
    } else {
        100int
    }) - manhattan(q) <= connected_neighbors(connected, p) * (if is_damaged {
        1000int
    } else {
        100int
    }) - manhattan(p) by {
        assert(ranks_first(bolster_priority(connected, p, is_damaged), p, bolster_priority(connected, q, is_damaged), q));
    }
}

/// Where a bolstering blob grows: the growth candidate of highest
/// priority, the smallest position among equals; `None` when the blob has
/// nowhere to grow. Among candidates with as many connected neighbours the
/// one nearest the core is taken (see `lemma_bolstering_choice`).
pub fn choose_bolstering_spawn(occupied: &Vec<GridPos>, connected: &Vec<GridPos>, is_damaged: bool) -> (r: Option<GridPos>)
    requires
        growth_safe(occupied@, connected@),
    ensures
        r is None <==> !exists|p: GridPos| is_growth_candidate(occupied@, connected@, p),
        r matches Some(p) ==> is_growth_candidate(occupied@, connected@, p) && forall|q: GridPos|
            is_growth_candidate(occupied@, connected@, q) ==> ranks_first(
                bolster_priority(connected@, p, is_damaged),
                p,
                bolster_priority(connected@, q, is_damaged),
                q,
            ),
        r matches Some(p) ==> forall|q: GridPos|
            is_growth_candidate(occupied@, connected@, q) && connected_neighbors(connected@, q) == connected_neighbors(
                connected@,
                p,
            ) ==> manhattan(p) <= manhattan(q),
{
    let weight: i32 = if is_damaged { 1000 } else { 100 };
    let mut best: Option<(GridPos, i32)> = None;
    let mut i: usize = 0;
    while i < connected.len()
        invariant
            growth_safe(occupied@, connected@),
            weight == (if is_damaged { 1000int } else { 100int }),
            i <= connected.len(),
            best matches Some((p, pr)) ==> pr == bolster_priority(connected@, p, is_damaged)
                && is_growth_candidate(occupied@, connected@, p),
            forall|i2: int, d2: int|
                0 <= i2 < i && 0 <= d2 < 6 && !occupied@.contains(#[trigger] adjacent_seq(connected@[i2])[d2])
                    ==> best_beats(best, bolster_priority(connected@, adjacent_seq(connected@[i2])[d2], is_damaged), adjacent_seq(connected@[i2])[d2]),
        decreases connected.len() - i,
    {
        let pos = connected[i];
        let adj = get_adjacent_positions(pos);
        let mut d: usize = 0;
        while d < 6
            invariant
                growth_safe(occupied@, connected@),
                weight == (if is_damaged { 1000int } else { 100int }),
                i < connected.len(),
                pos == connected@[i as int],
                adj@ == adjacent_seq(pos),
                d <= 6,
                best matches Some((p, pr)) ==> pr == bolster_priority(connected@, p, is_damaged)
                    && is_growth_candidate(occupied@, connected@, p),
                forall|i2: int, d2: int|
                    ((0 <= i2 < i && 0 <= d2 < 6) || (i2 == i && 0 <= d2 < d)) && !occupied@.contains(
                        #[trigger] adjacent_seq(connected@[i2])[d2],
                    ) ==> best_beats(best, bolster_priority(connected@, adjacent_seq(connected@[i2])[d2], is_damaged), adjacent_seq(connected@[i2])[d2]),
            decreases 6 - d,
        {
            let a = adj[d];
            if !contains_pos(occupied, a) {
                proof {
                    assert(adjacent_seq(connected@[i as int])[d as int] == a);
                    assert(grid_in_range(a) && manhattan_fits(a));
                }
                let count = count_connected_neighbors(a, connected);
                let dist = manhattan_distance(a);
                let priority: i32 = (count as i32) * weight - dist;
                let ghost old_best = best;
                let better = match best {
                    None => true,
                    Some((bp, bpr)) => priority > bpr || (priority == bpr && pos_less(a, bp)),
                };
                if better {
                    best = Some((a, priority));
                }
                proof {
                    assert(is_growth_candidate(occupied@, connected@, a));
                    assert forall|i2: int, d2: int|
                        ((0 <= i2 < i && 0 <= d2 < 6) || (i2 == i && 0 <= d2 < d + 1)) && !occupied@.contains(
                            #[trigger] adjacent_seq(connected@[i2])[d2],
                        ) implies best_beats(best, bolster_priority(connected@, adjacent_seq(connected@[i2])[d2], is_damaged), adjacent_seq(connected@[i2])[d2]) by {
                        let q = adjacent_seq(connected@[i2])[d2];
                        if i2 == i && d2 == d {
                            assert(q == a);
                        } else {
                            assert(best_beats(old_best, bolster_priority(connected@, q, is_damaged), q));
                        }
                    }
                }
            } else {
                proof {
                    assert(adjacent_seq(connected@[i as int])[d as int] == a);
                }
            }
            d = d + 1;
        }
        i = i + 1;
    }
    proof {
        assert forall|q: GridPos| is_growth_candidate(occupied@, connected@, q) implies best_beats(best, bolster_priority(connected@, q, is_damaged), q) by {
            let (i2, d2) = choose|i2: int, d2: int|
                0 <= i2 < connected@.len() && 0 <= d2 < 6 && #[trigger] adjacent_seq(connected@[i2])[d2] == q;
        }
        if let Some((p, pr)) = best {
            assert forall|q: GridPos| is_growth_candidate(occupied@, connected@, q) implies ranks_first(
                bolster_priority(connected@, p, is_damaged),
                p,
                bolster_priority(connected@, q, is_damaged),
                q,
            ) by {
                assert(best_beats(best, bolster_priority(connected@, q, is_damaged), q));
            }
            lemma_bolstering_choice(occupied@, connected@, is_damaged, p);
        }
    }
    match best {
        Some((p, _)) => Some(p),
        None => None,
    }
}

/// Positions the growth pass sees as occupied for core `c`: the core
/// itself and every node of `c` in the list.
pub open spec fn occupied_grid(entries: Seq<BlobMember>, c: EntityId) -> Set<GridPos> {
    Set::new(|p: GridPos| p == origin() || exists|i: int| 0 <= i < entries.len() && #[trigger] is_node_at(entries[i], c, p))
}

/// `e` is a node of core `c` at `p` that is connected to its core.
pub open spec fn is_connected_node_at(e: BlobMember, c: EntityId, p: GridPos) -> bool {
    e matches BlobMember::Node { core_id, grid_position, connected_to_core, .. } && core_id == c
        && grid_position == p && connected_to_core
}

/// Positions the growth pass sees as connected for core `c`: the core
/// itself and every node of `c` flagged as connected.
pub open spec fn connected_grid(entries: Seq<BlobMember>, c: EntityId) -> Set<GridPos> {
    Set::new(|p: GridPos| p == origin() || exists|i: int| 0 <= i < entries.len() && #[trigger] is_connected_node_at(entries[i], c, p))
}

/// Collects the occupied and the connected grid positions of core `c`,
/// each listed once, the core's origin first.
pub fn collect_blob_positions(entries: &Vec<BlobMember>, c: EntityId) -> (r: (Vec<GridPos>, Vec<GridPos>))
    ensures
        r.0@.no_duplicates(),
        r.1@.no_duplicates(),
        r.0@.to_set() == occupied_grid(entries@, c),
        r.1@.to_set() == connected_grid(entries@, c),
        r.0@[0] == origin(),
        r.1@[0] == origin(),
{
    let mut occupied: Vec<GridPos> = Vec::new();
    let mut connected: Vec<GridPos> = Vec::new();
    occupied.push((0i32, 0i32, 0i32));
    connected.push((0i32, 0i32, 0i32));
    proof {
        assert forall|p: GridPos| occupied@.contains(p) <==> p == origin() by {
            if p == origin() {
                assert(occupied@[0] == p);
            }
        }
        assert forall|p: GridPos| connected@.contains(p) <==> p == origin() by {
            if p == origin() {
                assert(connected@[0] == p);
            }
        }
    }
    let mut i: usize = 0;
    while i < entries.len()
        invariant
            i <= entries.len(),
            occupied@.len() >= 1,
            connected@.len() >= 1,
            occupied@[0] == origin(),
            connected@[0] == origin(),
            occupied@.no_duplicates(),
            connected@.no_duplicates(),
            forall|p: GridPos| occupied@.contains(p) <==> (p == origin() || exists|k: int| 0 <= k < i && #[trigger] is_node_at(entries@[k], c, p)),
            forall|p: GridPos| connected@.contains(p) <==> (p == origin() || exists|k: int| 0 <= k < i && #[trigger] is_connected_node_at(entries@[k], c, p)),
        decreases entries.len() - i,
    {
        let ghost occ0 = occupied@;
        let ghost con0 = connected@;
        match entries[i] {
            BlobMember::Node { core_id, grid_position, connected_to_core, .. } => {
                if same_id(core_id, c) {
                    if !contains_pos(&occupied, grid_position) {
                        occupied.push(grid_position);
                    }
                    if connected_to_core && !contains_pos(&connected, grid_position) {
                        connected.push(grid_position);
                    }
                }
            },
            _ => {},
        }
        proof {
            assert(occupied@[0] == origin());
            assert(connected@[0] == origin());
            assert forall|p: GridPos| occupied@.contains(p) <==> (p == origin() || exists|k: int| 0 <= k < i + 1 && #[trigger] is_node_at(entries@[k], c, p)) by {
                if occupied@.contains(p) && !occ0.contains(p) {
                    assert(is_node_at(entries@[i as int], c, p));
                }
                if occ0.contains(p) {
                    let m = choose|m: int| 0 <= m < occ0.len() && occ0[m] == p;
                    assert(occupied@[m] == p);
                    if p != origin() {
                        let k = choose|k: int| 0 <= k < i && #[trigger] is_node_at(entries@[k], c, p);
                        assert(0 <= k < i + 1);
                    }
                }
                if exists|k: int| 0 <= k < i + 1 && #[trigger] is_node_at(entries@[k], c, p) {
                    let k = choose|k: int| 0 <= k < i + 1 && #[trigger] is_node_at(entries@[k], c, p);
                    if k < i {
                        assert(occ0.contains(p));
                    } else if !occ0.contains(p) {
                        assert(occupied@[occupied@.len() - 1] == p);
                    }
                }
            }
            assert forall|p: GridPos| connected@.contains(p) <==> (p == origin() || exists|k: int| 0 <= k < i + 1 && #[trigger] is_connected_node_at(entries@[k], c, p)) by {
                if connected@.contains(p) && !con0.contains(p) {
                    assert(is_connected_node_at(entries@[i as int], c, p));
                }
                if con0.contains(p) {
                    let m = choose|m: int| 0 <= m < con0.len() && con0[m] == p;
                    assert(connected@[m] == p);
                    if p != origin() {
                        let k = choose|k: int| 0 <= k < i && #[trigger] is_connected_node_at(entries@[k], c, p);
                        assert(0 <= k < i + 1);
                    }
                }
                if exists|k: int| 0 <= k < i + 1 && #[trigger] is_connected_node_at(entries@[k], c, p) {
                    let k = choose|k: int| 0 <= k < i + 1 && #[trigger] is_connected_node_at(entries@[k], c, p);
                    if k < i {
                        assert(con0.contains(p));
                    } else if !con0.contains(p) {
                        assert(connected@[connected@.len() - 1] == p);
                    }
                }
            }
        }
        i = i + 1;
    }
    proof {
        assert(occupied@.to_set() =~= occupied_grid(entries@, c));
        assert(connected@.to_set() =~= connected_grid(entries@, c));
    }
    (occupied, connected)
}

/// The connected positions that border a free position, in list order.
pub open spec fn edge_filter(connected: Seq<GridPos>) -> Seq<GridPos> {
    connected.filter(|p: GridPos| spec_is_edge(p, connected))
}

/// The connected positions on the edge of the blob (at least one free
/// neighbour among the connected positions), in list order.
pub fn edge_positions(connected: &Vec<GridPos>) -> (edges: Vec<GridPos>)
    requires
        forall|i: int| 0 <= i < connected.len() ==> grid_in_range(#[trigger] connected@[i]),
    ensures
        edges@ == edge_filter(connected@),
{
    let mut edges: Vec<GridPos> = Vec::new();
    let mut i: usize = 0;
    while i < connected.len()
        invariant
            i <= connected.len(),
            forall|k: int| 0 <= k < connected.len() ==> grid_in_range(#[trigger] connected@[k]),
            edges@ == connected@.take(i as int).filter(|p: GridPos| spec_is_edge(p, connected@)),
        decreases connected.len() - i,
    {
        let p = connected[i];
        proof {
            assert(connected@.take(i + 1).drop_last() == connected@.take(i as int));
            reveal_with_fuel(Seq::filter, 1);
        }
        if is_edge_position(p, connected) {
            edges.push(p);
        }
        i = i + 1;
    }
    proof {
        assert(connected@.take(connected@.len() as int) == connected@);
    }
    edges
}

/// Grid-space dot product of a position with the player's approximate
/// grid direction.
pub open spec fn dot(p: GridPos, g: GridPos) -> int {
    p.0 * g.0 + p.1 * g.1 + p.2 * g.2
}

/// The dot product can be computed in `i32`, term by term, left to right.
pub open spec fn dot_fits(p: GridPos, g: GridPos) -> bool {
    &&& i32::MIN <= p.0 * g.0 <= i32::MAX
    &&& i32::MIN <= p.1 * g.1 <= i32::MAX
    &&& i32::MIN <= p.2 * g.2 <= i32::MAX
    &&& i32::MIN <= p.0 * g.0 + p.1 * g.1 <= i32::MAX
    &&& i32::MIN <= dot(p, g) <= i32::MAX
}

/// Grid-space dot product of `p` and `g`.
pub fn dot_product(p: GridPos, g: GridPos) -> (d: i32)
    requires
        dot_fits(p, g),
    ensures
        d == dot(p, g),
{
    p.0 * g.0 + p.1 * g.1 + p.2 * g.2
}

/// How well `p` points toward the player: ten times the dot product when
/// it is positive, a flat penalty otherwise.
pub open spec fn alignment_score(p: GridPos, g: GridPos) -> int {
    if dot(p, g) > 0 {
        dot(p, g) * 10
    } else {
        -1000
    }
}

/// The alignment score can be computed in `i32`.
pub open spec fn alignment_fits(p: GridPos, g: GridPos) -> bool {
    dot_fits(p, g) && (dot(p, g) > 0 ==> dot(p, g) * 10 <= i32::MAX)
}

/// Alignment score of `p` toward the player's grid direction `g`.
pub fn alignment(p: GridPos, g: GridPos) -> (s: i32)
    requires
        alignment_fits(p, g),
    ensures
        s == alignment_score(p, g),
{
    let d = dot_product(p, g);
    if d > 0 {
        d * 10
    } else {
        -1000
    }
}

/// The larger of `len / divisor` and 1: how many of the best-ranked
/// candidates a random pick chooses among.
pub open spec fn top_share(len: int, divisor: int) -> int {
    if len / divisor >= 1 {
        len / divisor
    } else {
        1
    }
}

/// Entry `i` is a connected base node of core `c` on the edge of the
/// connected grid with at least two connected neighbours: a node that may
/// be upgraded to a factory.
pub open spec fn is_factory_candidate(entries: Seq<BlobMember>, c: EntityId, connected: Seq<GridPos>, i: int) -> bool {
    match entries[i] {
        BlobMember::Node { core_id, node_type, grid_position, connected_to_core } => {
            &&& core_id == c
            &&& node_type == BlobNodeType::Base
            &&& connected_to_core
            &&& connected.contains(grid_position)
            &&& spec_is_edge(grid_position, connected)
            &&& connected_neighbors(connected, grid_position) >= 2
        },
        _ => false,
    }
}

/// Grid position of a node (the origin for any other entry).
pub open spec fn member_position(e: BlobMember) -> GridPos {
    match e {
        BlobMember::Node { grid_position, .. } => grid_position,
        _ => origin(),
    }
}

/// Indices of the factory candidates among the first `m` entries, in
/// list order.
pub open spec fn factory_candidates(entries: Seq<BlobMember>, c: EntityId, connected: Seq<GridPos>, m: int) -> Seq<usize>
    decreases m,
{
    if m <= 0 {
        Seq::empty()
    } else if is_factory_candidate(entries, c, connected, m - 1) {
        factory_candidates(entries, c, connected, m - 1).push((m - 1) as usize)
    } else {
        factory_candidates(entries, c, connected, m - 1)
    }
}

/// Alignment scores of the candidates `cands`.
pub open spec fn candidate_scores(entries: Seq<BlobMember>, cands: Seq<usize>, g: GridPos) -> Seq<i32> {
    Seq::new(cands.len(), |k: int| alignment_score(member_position(entries[cands[k] as int]), g) as i32)
}

/// Number of factory nodes of core `c` among the first `m` entries,
/// connected or not.
pub open spec fn factory_count(entries: Seq<BlobMember>, c: EntityId, m: int) -> nat
    decreases m,
{
    if m <= 0 {
        0
    } else {
        factory_count(entries, c, m - 1) + match entries[m - 1] {
            BlobMember::Node { core_id, node_type, .. } => if core_id == c && node_type == BlobNodeType::Factory {
                1nat
            } else {
                0nat
            },
            _ => 0nat,
        }
    }
}

/// Upgrading a candidate to a factory cannot overflow.
pub open spec fn factory_upgrade_safe(entries: Seq<BlobMember>, c: EntityId, connected: Seq<GridPos>, g: GridPos) -> bool {
    &&& forall|i: int| 0 <= i < connected.len() ==> grid_in_range(#[trigger] connected[i])
    &&& forall|i: int| 0 <= i < entries.len() && is_factory_candidate(entries, c, connected, i)
        ==> alignment_fits(#[trigger] member_position(entries[i]), g)
}

/// The factory candidates of core `c` with their alignment scores, and the
/// number of factories core `c` already has.
pub fn factory_candidates_of(entries: &Vec<BlobMember>, c: EntityId, connected: &Vec<GridPos>, g: GridPos) -> (r: (Vec<usize>, Vec<i32>, usize))
    requires
        factory_upgrade_safe(entries@, c, connected@, g),
    ensures
        r.0@ == factory_candidates(entries@, c, connected@, entries@.len() as int),
        r.1@ == candidate_scores(entries@, r.0@, g),
        r.2 == factory_count(entries@, c, entries@.len() as int),
{
    let mut cands: Vec<usize> = Vec::new();
    let mut scores: Vec<i32> = Vec::new();
    let mut factories: usize = 0;
    let mut i: usize = 0;
    while i < entries.len()
        invariant
            i <= entries.len(),
            factory_upgrade_safe(entries@, c, connected@, g),
            cands@ == factory_candidates(entries@, c, connected@, i as int),
            scores@ == candidate_scores(entries@, cands@, g),
            factories == factory_count(entries@, c, i as int),
            factories <= i,
        decreases entries.len() - i,
    {
        match entries[i] {
            BlobMember::Node { core_id, node_type, grid_position, connected_to_core } => {
                if same_id(core_id, c) && node_type == BlobNodeType::Factory {
                    factories = factories + 1;
                }
                if same_id(core_id, c) && node_type == BlobNodeType::Base && connected_to_core
                    && contains_pos(connected, grid_position) {
                    let j = first_index_of_pos(connected, grid_position);
                    proof {
                        assert(grid_in_range(connected@[j as int]));
                    }
                    if is_edge_position(grid_position, connected) && count_connected_neighbors(grid_position, connected) >= 2 {
                        proof {
                            assert(is_factory_candidate(entries@, c, connected@, i as int));
                            assert(member_position(entries@[i as int]) == grid_position);
                        }
                        let score = alignment(grid_position, g);
                        let ghost before = scores@;
                        cands.push(i);
                        scores.push(score);
                        proof {
                            assert(scores@ =~= candidate_scores(entries@, cands@, g));
                        }
                    }
                }
            },
            _ => {},
        }
        i = i + 1;
    }
    (cands, scores, factories)
}

/// Index of the first occurrence of `p` in `positions`, which lists it.
fn first_index_of_pos(positions: &Vec<GridPos>, p: GridPos) -> (j: usize)
    requires
        positions@.contains(p),
    ensures
        j < positions.len(),
        positions@[j as int] == p,
{
    let mut j: usize = 0;
    while j < positions.len()
        invariant
            j <= positions.len(),
            positions@.contains(p),
            forall|k: int| 0 <= k < j ==> positions@[k] != p,
        decreases positions.len() - j,
    {
        if positions[j].0 == p.0 && positions[j].1 == p.1 && positions[j].2 == p.2 {
            return j;
        }
        j = j + 1;
    }
    proof {
        let k = choose|k: int| 0 <= k < positions@.len() && positions@[k] == p;
        assert(false);
    }
    0
}

/// The member list after a blob's growth tick: the node at entry
/// `upgrade` (if it is a node) becomes a factory first, then a new
/// connected base node of core `c` at `growth` (if any) joins the end of
/// the list. At most one node joins per tick.
pub open spec fn ticked_members(
    entries: Seq<BlobMember>,
    c: EntityId,
    upgrade: Option<usize>,
    growth: Option<GridPos>,
) -> Seq<BlobMember> {
    let upgraded = match upgrade {
        Some(e) => if e < entries.len() {
            match entries[e as int] {
                BlobMember::Node { core_id, grid_position, connected_to_core, .. } => entries.update(
                    e as int,
                    BlobMember::Node { core_id, node_type: BlobNodeType::Factory, grid_position, connected_to_core },
                ),
                _ => entries,
            }
        } else {
            entries
        },
        None => entries,
    };
    match growth {
        Some(p) => upgraded.push(
            BlobMember::Node { core_id: c, node_type: BlobNodeType::Base, grid_position: p, connected_to_core: true },
        ),
        None => upgraded,
    }
}

/// The growth a core takes this tick: none once the blob has reached its
/// size limit, otherwise the planned one.
pub open spec fn gated_growth(growth: Option<GridPos>, core: BlobCoreData) -> Option<GridPos> {
    if core.nodes().len() >= core.spec_max_size() {
        None
    } else {
        growth
    }
}

/// Applies a blob core's growth tick: the factory upgrade first, then the
/// new node, which is also recorded in the core's node list under
/// `new_node_id` (see `ticked_members`). A blob at its size limit grows
/// no node (see `gated_growth`).
pub fn apply_blob_tick(
    entries: &mut Vec<BlobMember>,
    core: &mut BlobCoreData,
    c: EntityId,
    upgrade: Option<usize>,
    growth: Option<GridPos>,
    new_node_id: EntityId,
)
    ensures
        final(entries)@ == ticked_members(old(entries)@, c, upgrade, gated_growth(growth, *old(core))),
        gated_growth(growth, *old(core)) is Some ==> final(core).nodes() == old(core).nodes().push(new_node_id),
        gated_growth(growth, *old(core)) is None ==> *final(core) == *old(core),
        final(core).spec_max_size() == old(core).spec_max_size(),
        gated_growth(growth, *old(core)) is Some ==> final(core).phase_matches(),
{
    if let Some(e) = upgrade {
        if e < entries.len() {
            match entries[e] {
                BlobMember::Node { core_id, grid_position, connected_to_core, .. } => {
                    entries.set(
                        e,
                        BlobMember::Node { core_id, node_type: BlobNodeType::Factory, grid_position, connected_to_core },
                    );
                },
                _ => {},
            }
        }
    }
    let growth = if core.is_at_max_capacity() {
        None
    } else {
        growth
    };
    if let Some(p) = growth {
        entries.push(BlobMember::Node { core_id: c, node_type: BlobNodeType::Base, grid_position: p, connected_to_core: true });
        core.add_node(new_node_id);
    }
}

/// Connectivity to the core survives adding cells to the grid.
proof fn lemma_connected_grows(small: Set<GridPos>, large: Set<GridPos>, q: GridPos)
    requires
        small.subset_of(large),
        connected_to_core(small, q),
    ensures
        connected_to_core(large, q),
{
    let path = choose|path: Seq<GridPos>| #[trigger] is_grid_path(small, path) && path.last() == q;
    assert(is_grid_path(large, path));
}

/// A growth tick followed by the connectivity pass: the node grown next to
/// a cell that the core's grid reaches is flagged connected.
pub proof fn lemma_grown_node_connected(
    entries: Seq<BlobMember>,
    c: EntityId,
    l: int,
    upgrade: Option<usize>,
    p: GridPos,
    q: GridPos,
)
    requires
        last_core_index(entries, c, l),
        connected_to_core(blob_grid(entries, c, l), q),
        is_adjacent(q, p),
    ensures
        checked_member(ticked_members(entries, c, upgrade, Some(p)), entries.len() as int)
            == (BlobMember::Node { core_id: c, node_type: BlobNodeType::Base, grid_position: p, connected_to_core: true }),
{
    let t = ticked_members(entries, c, upgrade, Some(p));
    let n = entries.len() as int;
    assert(t.len() == n + 1);
    assert forall|i: int| 0 <= i < n implies (#[trigger] is_core_of(t[i], c) <==> is_core_of(entries[i], c))
        && (forall|x: GridPos| is_node_at(entries[i], c, x) ==> is_node_at(t[i], c, x)) by {
    }
    assert(last_core_index(t, c, l));
    let grid = blob_grid(entries, c, l);
    let tgrid = blob_grid(t, c, l);
    assert(grid.subset_of(tgrid)) by {
        assert forall|x: GridPos| grid.contains(x) implies tgrid.contains(x) by {
            let i = choose|i: int| 0 <= i && l < i < entries.len() && #[trigger] is_node_at(entries[i], c, x);
            assert(is_node_at(t[i], c, x));
        }
    }
    assert(is_node_at(t[n], c, p));
    assert(tgrid.contains(p));
    lemma_connected_grows(grid, tgrid, q);
    lemma_extend_connection(tgrid, q, p);
    assert(last_at_position(t, c, p, n));
    let l2 = choose|m: int| last_core_index(t, c, m);
    lemma_last_core_unique(t, c, l, l2);
}

/// A connected base node of core `c` at an edge of the connected grid with
/// at least two connected neighbours, stated on the entry itself.
pub open spec fn upgradable(e: BlobMember, c: EntityId, connected: Seq<GridPos>) -> bool {
    &&& e matches BlobMember::Node { core_id, node_type, grid_position, connected_to_core }
    &&& e->core_id == c
    &&& e->node_type == BlobNodeType::Base
    &&& e->connected_to_core
    &&& connected.contains(e->grid_position)
    &&& spec_is_edge(e->grid_position, connected)
    &&& connected_neighbors(connected, e->grid_position) >= 2
}

/// The factory candidates among the first `m` entries are exactly the
/// entries that are connected base nodes of the core, at an edge of the
/// connected grid, with at least two connected neighbours, in list order.
pub proof fn lemma_factory_candidates_exact(entries: Seq<BlobMember>, c: EntityId, connected: Seq<GridPos>, m: int)
    requires
        0 <= m <= entries.len(),
        entries.len() <= usize::MAX,
    ensures
        forall|i: int|
            0 <= i < m ==> (factory_candidates(entries, c, connected, m).contains(i as usize) <==> upgradable(
                #[trigger] entries[i],
                c,
                connected,
            )),
        forall|k: int|
            0 <= k < factory_candidates(entries, c, connected, m).len() ==> #[trigger] factory_candidates(
                entries,
                c,
                connected,
                m,
            )[k] < m,
    decreases m,
{
    if m > 0 {
        lemma_factory_candidates_exact(entries, c, connected, m - 1);
        let prev = factory_candidates(entries, c, connected, m - 1);
        let cur = factory_candidates(entries, c, connected, m);
        assert(is_factory_candidate(entries, c, connected, m - 1) <==> upgradable(entries[m - 1], c, connected));
        assert forall|i: int| 0 <= i < m implies (cur.contains(i as usize) <==> upgradable(
            #[trigger] entries[i],
            c,
            connected,
        )) by {
            assert(is_factory_candidate(entries, c, connected, i) <==> upgradable(entries[i], c, connected));
            if is_factory_candidate(entries, c, connected, m - 1) {
                assert(cur == prev.push((m - 1) as usize));
                assert(cur[prev.len() as int] == (m - 1) as usize);
            } else {
                assert(cur == prev);
            }
            if i < m - 1 {
                assert(prev.contains(i as usize) <==> upgradable(entries[i], c, connected));
                if cur.contains(i as usize) {
                    let k = choose|k: int| 0 <= k < cur.len() && cur[k] == i as usize;
                    if k < prev.len() {
                        assert(cur[k] == prev[k]);
                        assert(prev.contains(i as usize));
                    } else {
                        assert(cur[k] == (m - 1) as usize);
                    }
                }
                if prev.contains(i as usize) {
                    let k = choose|k: int| 0 <= k < prev.len() && prev[k] == i as usize;
                    assert(cur[k] == prev[k]);
                    assert(cur.contains(i as usize));
                }
            } else {
                if prev.contains(i as usize) {
                    let k = choose|k: int| 0 <= k < prev.len() && prev[k] == i as usize;
                    assert(prev[k] < m - 1);
                }
                if cur.contains(i as usize) {
                    let k = choose|k: int| 0 <= k < cur.len() && cur[k] == i as usize;
                    if k < prev.len() {
                        assert(cur[k] == prev[k]);
                        assert(prev[k] < m - 1);
                    }
                }
            }
        }
        assert forall|k: int| 0 <= k < cur.len() implies #[trigger] cur[k] < m by {
            if k < prev.len() {
                assert(cur[k] == prev[k]);
            }
        }
    }
}

/// Which node a blob upgrades to a factory, given the random pick among
/// the best-aligned candidates: the candidate at position `pick` once the
/// candidates are stably sorted by descending alignment score.  `None`
/// when the core already has its maximum of factories or has no
/// candidate.
pub fn choose_factory_upgrade(entries: &Vec<BlobMember>, c: EntityId, connected: &Vec<GridPos>, g: GridPos, pick: usize) -> (r: Option<usize>)
    requires
        factory_upgrade_safe(entries@, c, connected@, g),
        pick < top_share(factory_candidates(entries@, c, connected@, entries@.len() as int).len() as int, 10),
    ensures
        ({
            let cands = factory_candidates(entries@, c, connected@, entries@.len() as int);
            &&& r is None <==> (factory_count(entries@, c, entries@.len() as int) >= BLOB_MAX_FACTORY_COUNT
                || cands.len() == 0)
            &&& r matches Some(e) ==> exists|k: int| 0 <= k < cands.len() && cands[k] == e && stable_rank(
                candidate_scores(entries@, cands, g),
                k,
            ) == pick
        }),
        r matches Some(e) ==> e < entries.len() && upgradable(entries@[e as int], c, connected@),
        r is None && factory_count(entries@, c, entries@.len() as int) < BLOB_MAX_FACTORY_COUNT ==> forall|i: int|
            0 <= i < entries.len() ==> !upgradable(#[trigger] entries@[i], c, connected@),
{
    let n = entries.len();
    proof {
        lemma_factory_candidates_exact(entries@, c, connected@, n as int);
    }
    let (cands, scores, factories) = factory_candidates_of(entries, c, connected, g);
    if factories < BLOB_MAX_FACTORY_COUNT as usize && cands.len() > 0 {
        proof {
            assert(cands@.len() / 10 <= cands@.len());
        }
        let k = select_ranked(&scores, pick);
        Some(cands[k])
    } else {
        None
    }
}

/// Which node a blob upgrades to a factory: a random one among the best
/// tenth (at least one) of the candidates ranked by alignment with the
/// player.  `None` when the core already has its maximum of factories or
/// has no candidate.
pub fn choose_factory_upgrade_random(entries: &Vec<BlobMember>, c: EntityId, connected: &Vec<GridPos>, g: GridPos) -> (r: Option<usize>)
    requires
        factory_upgrade_safe(entries@, c, connected@, g),
    ensures
        ({
            let cands = factory_candidates(entries@, c, connected@, entries@.len() as int);
            &&& r is None <==> (factory_count(entries@, c, entries@.len() as int) >= BLOB_MAX_FACTORY_COUNT
                || cands.len() == 0)
            &&& r matches Some(e) ==> exists|k: int| 0 <= k < cands.len() && cands[k] == e && stable_rank(
                candidate_scores(entries@, cands, g),
                k,
            ) < top_share(cands.len() as int, 10)
        }),
        r matches Some(e) ==> e < entries.len() && upgradable(entries@[e as int], c, connected@),
        r is None && factory_count(entries@, c, entries@.len() as int) < BLOB_MAX_FACTORY_COUNT ==> forall|i: int|
            0 <= i < entries.len() ==> !upgradable(#[trigger] entries@[i], c, connected@),
{
    let (cands, _scores, _factories) = factory_candidates_of(entries, c, connected, g);
    let share = if cands.len() / 10 >= 1 { cands.len() / 10 } else { 1 };
    let pick = random_index(share);
    choose_factory_upgrade(entries, c, connected, g, pick)
}

/// Every position the blob can grow into, each once, with its number of
/// connected neighbours.
pub fn growth_candidates(occupied: &Vec<GridPos>, connected: &Vec<GridPos>) -> (cands: Vec<(GridPos, usize)>)
    requires
        growth_safe(occupied@, connected@),
    ensures
        distinct_candidates(cands@),
        forall|k: int| 0 <= k < cands.len() ==> is_growth_candidate(occupied@, connected@, #[trigger] cands@[k].0)
            && cands@[k].1 == connected_neighbors(connected@, cands@[k].0) && grid_in_range(cands@[k].0)
            && manhattan_fits(cands@[k].0),
        forall|p: GridPos| is_growth_candidate(occupied@, connected@, p) ==> exists|k: int| 0 <= k < cands.len() && #[trigger] cands@[k].0 == p,
{
    let mut cands: Vec<(GridPos, usize)> = Vec::new();
    let mut i: usize = 0;
    while i < connected.len()
        invariant
            growth_safe(occupied@, connected@),
            i <= connected.len(),
            distinct_candidates(cands@),
            forall|k: int| 0 <= k < cands.len() ==> is_growth_candidate(occupied@, connected@, #[trigger] cands@[k].0)
                && cands@[k].1 == connected_neighbors(connected@, cands@[k].0) && grid_in_range(cands@[k].0)
                && manhattan_fits(cands@[k].0),
            forall|i2: int, d2: int| 0 <= i2 < i && 0 <= d2 < 6 && !occupied@.contains(#[trigger] adjacent_seq(connected@[i2])[d2])
                ==> exists|k: int| 0 <= k < cands.len() && #[trigger] cands@[k].0 == adjacent_seq(connected@[i2])[d2],
        decreases connected.len() - i,
    {
        let pos = connected[i];
        let adj = get_adjacent_positions(pos);
        let mut d: usize = 0;
        while d < 6
            invariant
                growth_safe(occupied@, connected@),
                i < connected.len(),
                pos == connected@[i as int],
                adj@ == adjacent_seq(pos),
                d <= 6,
                distinct_candidates(cands@),
                forall|k: int| 0 <= k < cands.len() ==> is_growth_candidate(occupied@, connected@, #[trigger] cands@[k].0)
                    && cands@[k].1 == connected_neighbors(connected@, cands@[k].0) && grid_in_range(cands@[k].0)
                    && manhattan_fits(cands@[k].0),
                forall|i2: int, d2: int| ((0 <= i2 < i && 0 <= d2 < 6) || (i2 == i && 0 <= d2 < d)) && !occupied@.contains(#[trigger] adjacent_seq(connected@[i2])[d2])
                    ==> exists|k: int| 0 <= k < cands.len() && #[trigger] cands@[k].0 == adjacent_seq(connected@[i2])[d2],
            decreases 6 - d,
        {
            let a = adj[d];
            let ghost before = cands@;
            proof {
                assert(adjacent_seq(connected@[i as int])[d as int] == a);
            }
            if !contains_pos(occupied, a) && !candidates_contain(&cands, a) {
                proof {
                    assert(grid_in_range(a) && manhattan_fits(a));
                    assert(is_growth_candidate(occupied@, connected@, a));
                }
                let count = count_connected_neighbors(a, connected);
                cands.push((a, count));
                proof {
                    assert forall|x: int, y: int| 0 <= x < cands@.len() && 0 <= y < cands@.len() && x != y implies cands@[x].0 != cands@[y].0 by {
                        if x < before.len() && y < before.len() {
                            assert(cands@[x] == before[x] && cands@[y] == before[y]);
                        } else if x < before.len() {
                            assert(cands@[x] == before[x]);
                        } else {
                            assert(cands@[y] == before[y]);
                        }
                    }
                }
            }
            proof {
                assert forall|i2: int, d2: int| ((0 <= i2 < i && 0 <= d2 < 6) || (i2 == i && 0 <= d2 < d + 1)) && !occupied@.contains(#[trigger] adjacent_seq(connected@[i2])[d2])
                    implies exists|k: int| 0 <= k < cands.len() && #[trigger] cands@[k].0 == adjacent_seq(connected@[i2])[d2] by {
                    let q = adjacent_seq(connected@[i2])[d2];
                    if i2 == i && d2 == d {
                        if cands@.len() > before.len() {
                            assert(cands@[cands@.len() - 1].0 == q);
                        } else {
                            let k = choose|k: int| 0 <= k < before.len() && before[k].0 == q;
                            assert(cands@[k] == before[k]);
                        }
                    } else {
                        let k = choose|k: int| 0 <= k < before.len() && #[trigger] before[k].0 == q;
                        assert(cands@[k] == before[k]);
                    }
                }
            }
            d = d + 1;
        }
        i = i + 1;
    }
    proof {
        assert forall|p: GridPos| is_growth_candidate(occupied@, connected@, p) implies exists|k: int| 0 <= k < cands.len() && #[trigger] cands@[k].0 == p by {
            let (i2, d2) = choose|i2: int, d2: int| 0 <= i2 < connected@.len() && 0 <= d2 < 6 && #[trigger] adjacent_seq(connected@[i2])[d2] == p;
        }
    }
    cands
}

/// No two candidates share a position.
pub open spec fn distinct_candidates(c: Seq<(GridPos, usize)>) -> bool {
    forall|x: int, y: int| 0 <= x < c.len() && 0 <= y < c.len() && x != y ==> c[x].0 != c[y].0
}

/// Whether some candidate sits at `p`.
fn candidates_contain(cands: &Vec<(GridPos, usize)>, p: GridPos) -> (r: bool)
    ensures
        r == exists|k: int| 0 <= k < cands.len() && cands@[k].0 == p,
{
    let mut k: usize = 0;
    while k < cands.len()
        invariant
            k <= cands.len(),
            forall|j: int| 0 <= j < k ==> cands@[j].0 != p,
        decreases cands.len() - k,
    {
        let (q, _) = cands[k];
        if q.0 == p.0 && q.1 == p.1 && q.2 == p.2 {
            return true;
        }
        k = k + 1;
    }
    false
}

/// Score of a backfill position with `count` connected neighbours: when
/// damaged, density first and then nearness to the core; otherwise
/// density balanced with alignment toward the player (a strong bonus for
/// facing the player, a mild penalty for facing away).
pub open spec fn backfill_score(p: GridPos, count: int, is_damaged: bool, g: GridPos) -> int {
    if is_damaged {
        count * 1000 - manhattan(p)
    } else {
        count * 100 + if dot(p, g) > 0 { dot(p, g) * 50 } else { dot(p, g) * 10 }
    }
}

/// The backfill score of `p` can be computed in `i32`.
pub open spec fn backfill_fits(p: GridPos, count: int, g: GridPos) -> bool {
    &&& dot_fits(p, g)
    &&& i32::MIN <= (if dot(p, g) > 0 { dot(p, g) * 50 } else { dot(p, g) * 10 }) <= i32::MAX
    &&& i32::MIN <= count * 100 + (if dot(p, g) > 0 { dot(p, g) * 50 } else { dot(p, g) * 10 }) <= i32::MAX
}

/// Fewest connected neighbours a backfill position needs: any gap when
/// damaged, only well-enclosed gaps otherwise.
pub open spec fn backfill_threshold(is_damaged: bool) -> int {
    if is_damaged { 1 } else { 3 }
}

/// Backfill score of a candidate.
fn backfill(p: GridPos, count: usize, is_damaged: bool, g: GridPos) -> (s: i32)
    requires
        count <= 6,
        manhattan_fits(p),
        !is_damaged ==> backfill_fits(p, count as int, g),
    ensures
        s == backfill_score(p, count as int, is_damaged, g),
{
    if is_damaged {
        (count as i32) * 1000 - manhattan_distance(p)
    } else {
        let d = dot_product(p, g);
        let alignment = if d > 0 { d * 50 } else { d * 10 };
        (count as i32) * 100 + alignment
    }
}

/// The backfill ranking in terms of the cells themselves: when gap `p`
/// ranks no later than gap `q` (with `cp` and `cq` connected neighbours),
/// then with as many neighbours a healthy blob's `p` is at least as well
/// aligned with the player (dot product with the player's direction) and a
/// damaged blob's `p` at least as near the core; with equal alignment
/// (healthy) or distance (damaged), `p` has at least as many neighbours.
pub proof fn lemma_backfill_order(p: GridPos, cp: int, q: GridPos, cq: int, is_damaged: bool, g: GridPos)
    requires
        ranks_first(backfill_score(p, cp, is_damaged, g), p, backfill_score(q, cq, is_damaged, g), q),
    ensures
        !is_damaged && cp == cq ==> dot(q, g) <= dot(p, g),
        !is_damaged && dot(q, g) == dot(p, g) ==> cq <= cp,
        !is_damaged && cp == cq && dot(q, g) > 0 && dot(p, g) <= 0 ==> false,
        is_damaged && cp == cq ==> manhattan(p) <= manhattan(q),
        is_damaged && manhattan(p) == manhattan(q) ==> cq <= cp,
        is_damaged ==> cq * 1000 - manhattan(q) <= cp * 1000 - manhattan(p),
        !is_damaged ==> cq * 100 + (if dot(q, g) > 0 {
            dot(q, g) * 50
        } else {
            dot(q, g) * 10
        }) <= cp * 100 + (if dot(p, g) > 0 {
            dot(p, g) * 50
        } else {
            dot(p, g) * 10
        }),
{
}

/// Where a reaching blob backfills: among the candidates with enough
/// connected neighbours, the one of highest backfill score, the smallest
/// position among equals; `None` when no candidate has enough neighbours.
pub fn choose_backfill(cands: &Vec<(GridPos, usize)>, is_damaged: bool, g: GridPos) -> (r: Option<GridPos>)
    requires
        forall|k: int| 0 <= k < cands.len() ==> (#[trigger] cands@[k]).1 <= 6 && manhattan_fits(cands@[k].0)
            && (!is_damaged && cands@[k].1 >= 3 ==> backfill_fits(cands@[k].0, cands@[k].1 as int, g)),
    ensures
        r is None <==> forall|k: int| 0 <= k < cands.len() ==> (#[trigger] cands@[k]).1 < backfill_threshold(is_damaged),
        r matches Some(p) ==> exists|k: int| 0 <= k < cands.len() && (#[trigger] cands@[k]).0 == p
            && cands@[k].1 >= backfill_threshold(is_damaged) && forall|k2: int|
                0 <= k2 < cands.len() && cands@[k2].1 >= backfill_threshold(is_damaged) ==> ranks_first(
                    backfill_score(p, cands@[k].1 as int, is_damaged, g),
                    p,
                    backfill_score(cands@[k2].0, cands@[k2].1 as int, is_damaged, g),
                    cands@[k2].0,
                ),
        r matches Some(p) ==> exists|k: int|
            0 <= k < cands.len() && (#[trigger] cands@[k]).0 == p && forall|k2: int|
                0 <= k2 < cands.len() && cands@[k2].1 >= backfill_threshold(is_damaged) && cands@[k2].1 == cands@[k].1
                    ==> if is_damaged {
                    manhattan(p) <= manhattan(cands@[k2].0)
                } else {
                    dot(cands@[k2].0, g) <= dot(p, g)
                },
{
    let threshold: usize = if is_damaged { 1 } else { 3 };
    let mut best: Option<(GridPos, i32)> = None;
    let mut best_k: usize = 0;
    let mut k: usize = 0;
    while k < cands.len()
        invariant
            forall|j: int| 0 <= j < cands.len() ==> (#[trigger] cands@[j]).1 <= 6 && manhattan_fits(cands@[j].0)
                && (!is_damaged && cands@[j].1 >= 3 ==> backfill_fits(cands@[j].0, cands@[j].1 as int, g)),
            threshold == backfill_threshold(is_damaged),
            k <= cands.len(),
            best is None <==> forall|j: int| 0 <= j < k ==> (#[trigger] cands@[j]).1 < threshold,
            best matches Some((p, pr)) ==> best_k < k && cands@[best_k as int].0 == p && cands@[best_k as int].1 >= threshold
                && pr == backfill_score(p, cands@[best_k as int].1 as int, is_damaged, g),
            forall|j: int| 0 <= j < k && (#[trigger] cands@[j]).1 >= threshold ==> best_beats(
                best,
                backfill_score(cands@[j].0, cands@[j].1 as int, is_damaged, g),
                cands@[j].0,
            ),
        decreases cands.len() - k,
    {
        let (p, count) = cands[k];
        if count >= threshold {
            let score = backfill(p, count, is_damaged, g);
            let ghost old_best = best;
            let better = match best {
                None => true,
                Some((bp, bs)) => score > bs || (score == bs && pos_less(p, bp)),
            };
            if better {
                best = Some((p, score));
                best_k = k;
            }
            proof {
                assert forall|j: int| 0 <= j < k + 1 && (#[trigger] cands@[j]).1 >= threshold implies best_beats(
                    best,
                    backfill_score(cands@[j].0, cands@[j].1 as int, is_damaged, g),
                    cands@[j].0,
                ) by {
                    if j < k {
                        assert(best_beats(old_best, backfill_score(cands@[j].0, cands@[j].1 as int, is_damaged, g), cands@[j].0));
                    }
                }
            }
        }
        k = k + 1;
    }
    match best {
        Some((p, _)) => {
            proof {
                let kk = best_k as int;
                assert(cands@[kk].0 == p);
                assert forall|k2: int|
                    0 <= k2 < cands.len() && cands@[k2].1 >= backfill_threshold(is_damaged) && cands@[k2].1 == cands@[kk].1
                        implies if is_damaged {
                        manhattan(p) <= manhattan(cands@[k2].0)
                    } else {
                        dot(cands@[k2].0, g) <= dot(p, g)
                    } by {
                    assert(best_beats(best, backfill_score(cands@[k2].0, cands@[k2].1 as int, is_damaged, g), cands@[k2].0));
                    lemma_backfill_order(p, cands@[kk].1 as int, cands@[k2].0, cands@[k2].1 as int, is_damaged, g);
                }
            }
            Some(p)
        },
        None => None,
    }
}

/// Defensive ranking keys of the candidates: nearer to the core first.
pub open spec fn defensive_keys(cands: Seq<(GridPos, usize)>) -> Seq<(GridPos, i32)> {
    Seq::new(cands.len(), |k: int| (cands[k].0, (-manhattan(cands[k].0)) as i32))
}

/// `q` lies nearer the core than `p`: a smaller Manhattan distance, ties
/// broken by position.
pub open spec fn nearer(q: GridPos, p: GridPos) -> bool {
    manhattan(q) < manhattan(p) || (manhattan(q) == manhattan(p) && pos_lt(q, p))
}

/// All positions the blob can grow into.
pub open spec fn candidate_set(occupied: Seq<GridPos>, connected: Seq<GridPos>) -> Set<GridPos> {
    Set::new(|q: GridPos| is_growth_candidate(occupied, connected, q))
}

/// The positions the blob can grow into that lie nearer the core than `p`.
pub open spec fn nearer_candidates(occupied: Seq<GridPos>, connected: Seq<GridPos>, p: GridPos) -> Set<GridPos> {
    candidate_set(occupied, connected).filter(|q: GridPos| nearer(q, p))
}

/// The positions of the first `m` candidates.
spec fn listed_prefix(cands: Seq<(GridPos, usize)>, m: int) -> Set<GridPos> {
    Set::new(|q: GridPos| exists|j: int| 0 <= j < m && #[trigger] cands[j].0 == q)
}

/// Counting the candidates ahead of candidate `k` in the defensive order
/// among the first `m` counts the listed positions nearer than it.
proof fn lemma_prefix_nearer_count(cands: Seq<(GridPos, usize)>, k: int, m: int)
    requires
        distinct_candidates(cands),
        forall|j: int| 0 <= j < cands.len() ==> manhattan_fits(#[trigger] cands[j].0),
        0 <= k < cands.len(),
        0 <= m <= cands.len(),
    ensures
        listed_prefix(cands, m).finite(),
        listed_prefix(cands, m).len() == m,
        listed_prefix(cands, m).filter(|q: GridPos| nearer(q, cands[k].0)).finite(),
        listed_prefix(cands, m).filter(|q: GridPos| nearer(q, cands[k].0)).len() == count_before(
            |j: int, i: int| key_precedes(defensive_keys(cands), j, i),
            k,
            m,
        ),
    decreases m,
{
    let p = cands[k].0;
    let f = |q: GridPos| nearer(q, p);
    if m == 0 {
        assert(listed_prefix(cands, 0) =~= Set::<GridPos>::empty());
        assert(listed_prefix(cands, 0).filter(f) =~= Set::<GridPos>::empty());
    } else {
        lemma_prefix_nearer_count(cands, k, m - 1);
        let x = cands[m - 1].0;
        let prev = listed_prefix(cands, m - 1);
        assert(listed_prefix(cands, m) =~= prev.insert(x)) by {
            assert forall|q: GridPos| listed_prefix(cands, m).contains(q) implies prev.insert(x).contains(q) by {
                let j = choose|j: int| 0 <= j < m && #[trigger] cands[j].0 == q;
                if j < m - 1 {
                    assert(prev.contains(q));
                }
            }
            assert(listed_prefix(cands, m).contains(x));
        }
        assert(!prev.contains(x)) by {
            if prev.contains(x) {
                let j = choose|j: int| 0 <= j < m - 1 && #[trigger] cands[j].0 == x;
                assert(cands[j].0 == cands[m - 1].0);
            }
        }
        let keys = defensive_keys(cands);
        assert(key_precedes(keys, m - 1, k) == nearer(x, p)) by {
            assert(keys[m - 1].1 == (-manhattan(x)) as i32);
            assert(keys[k].1 == (-manhattan(p)) as i32);
        }
        if nearer(x, p) {
            assert(listed_prefix(cands, m).filter(f) =~= prev.filter(f).insert(x));
        } else {
            assert(listed_prefix(cands, m).filter(f) =~= prev.filter(f));
        }
    }
}

/// The positions of the first `m` of a list of distinct candidates are
/// `m` distinct positions.
proof fn lemma_listed_prefix_len(cands: Seq<(GridPos, usize)>, m: int)
    requires
        distinct_candidates(cands),
        0 <= m <= cands.len(),
    ensures
        listed_prefix(cands, m).finite(),
        listed_prefix(cands, m).len() == m,
    decreases m,
{
    if m == 0 {
        assert(listed_prefix(cands, 0) =~= Set::<GridPos>::empty());
    } else {
        lemma_listed_prefix_len(cands, m - 1);
        let x = cands[m - 1].0;
        let prev = listed_prefix(cands, m - 1);
        assert(listed_prefix(cands, m) =~= prev.insert(x)) by {
            assert forall|q: GridPos| listed_prefix(cands, m).contains(q) implies prev.insert(x).contains(q) by {
                let j = choose|j: int| 0 <= j < m && #[trigger] cands[j].0 == q;
                if j < m - 1 {
                    assert(prev.contains(q));
                }
            }
            assert(listed_prefix(cands, m).contains(x));
        }
        assert(!prev.contains(x)) by {
            if prev.contains(x) {
                let j = choose|j: int| 0 <= j < m - 1 && #[trigger] cands[j].0 == x;
                assert(cands[j].0 == cands[m - 1].0);
            }
        }
    }
}

/// A candidate list as `growth_candidates` returns it holds every growth
/// candidate once, so it is as long as the set of candidates.
proof fn lemma_candidate_count(occupied: Seq<GridPos>, connected: Seq<GridPos>, cands: Seq<(GridPos, usize)>)
    requires
        distinct_candidates(cands),
        forall|j: int| 0 <= j < cands.len() ==> is_growth_candidate(occupied, connected, #[trigger] cands[j].0),
        forall|q: GridPos| is_growth_candidate(occupied, connected, q) ==> exists|j: int| 0 <= j < cands.len() && #[trigger] cands[j].0 == q,
    ensures
        candidate_set(occupied, connected).finite(),
        candidate_set(occupied, connected).len() == cands.len(),
{
    lemma_listed_prefix_len(cands, cands.len() as int);
    assert(candidate_set(occupied, connected) =~= listed_prefix(cands, cands.len() as int)) by {
        assert forall|q: GridPos| #[trigger] candidate_set(occupied, connected).contains(q) implies listed_prefix(cands, cands.len() as int).contains(q) by {
            let j = choose|j: int| 0 <= j < cands.len() && #[trigger] cands[j].0 == q;
        }
    }
}

/// For a candidate list as `growth_candidates` returns it, the candidates
/// ahead of candidate `k` in the defensive order are the growth candidates
/// nearer the core, and the list holds every growth candidate once.
proof fn lemma_defensive_rank(
    occupied: Seq<GridPos>,
    connected: Seq<GridPos>,
    cands: Seq<(GridPos, usize)>,
    k: int,
)
    requires
        distinct_candidates(cands),
        forall|j: int| 0 <= j < cands.len() ==> is_growth_candidate(occupied, connected, #[trigger] cands[j].0)
            && manhattan_fits(cands[j].0),
        forall|q: GridPos| is_growth_candidate(occupied, connected, q) ==> exists|j: int| 0 <= j < cands.len() && #[trigger] cands[j].0 == q,
        0 <= k < cands.len(),
    ensures
        candidate_set(occupied, connected).finite(),
        candidate_set(occupied, connected).len() == cands.len(),
        nearer_candidates(occupied, connected, cands[k].0).len() == keyed_rank(defensive_keys(cands), k),
{
    lemma_prefix_nearer_count(cands, k, cands.len() as int);
    assert(candidate_set(occupied, connected) =~= listed_prefix(cands, cands.len() as int)) by {
        assert forall|q: GridPos| #[trigger] candidate_set(occupied, connected).contains(q) implies listed_prefix(cands, cands.len() as int).contains(q) by {
            let j = choose|j: int| 0 <= j < cands.len() && #[trigger] cands[j].0 == q;
        }
    }
    assert(nearer_candidates(occupied, connected, cands[k].0) =~= listed_prefix(cands, cands.len() as int).filter(
        |q: GridPos| nearer(q, cands[k].0),
    ));
}

/// Where a damaged blob with no gap to backfill grows, given the random
/// pick among the nearest fifth: the candidate at position `pick` once the
/// candidates are ordered by distance from the core, then by position.
pub fn choose_defensive(cands: &Vec<(GridPos, usize)>, pick: usize) -> (r: GridPos)
    requires
        cands.len() > 0,
        distinct_candidates(cands@),
        forall|k: int| 0 <= k < cands.len() ==> manhattan_fits(#[trigger] cands@[k].0),
        pick < top_share(cands.len() as int, 5),
    ensures
        exists|k: int| 0 <= k < cands.len() && (#[trigger] cands@[k]).0 == r && keyed_rank(defensive_keys(cands@), k) == pick,
{
    let mut keys: Vec<(GridPos, i32)> = Vec::new();
    let mut k: usize = 0;
    while k < cands.len()
        invariant
            k <= cands.len(),
            forall|j: int| 0 <= j < cands.len() ==> manhattan_fits(#[trigger] cands@[j].0),
            keys@ == defensive_keys(cands@.take(k as int)),
        decreases cands.len() - k,
    {
        let (p, _) = cands[k];
        let dist = manhattan_distance(p);
        keys.push((p, -dist));
        proof {
            assert(keys@ =~= defensive_keys(cands@.take(k + 1)));
        }
        k = k + 1;
    }
    proof {
        assert(cands@.take(cands@.len() as int) == cands@);
        assert(pick < cands.len()) by {
            assert(cands@.len() / 5 <= cands@.len());
        }
        assert(distinct_positions(keys@));
    }
    let i = select_keyed(&keys, pick);
    let (p, _) = cands[i];
    p
}

/// Alignment scores of the edge positions.
pub open spec fn edge_scores(edges: Seq<GridPos>, g: GridPos) -> Seq<i32> {
    Seq::new(edges.len(), |k: int| alignment_score(edges[k], g) as i32)
}

/// The edge a healthy reaching blob grows from, given the random pick
/// among the best-aligned tenth: the edge at position `pick` once the
/// edges are stably sorted by descending alignment with the player.
pub fn choose_aggressive_edge(edges: &Vec<GridPos>, g: GridPos, pick: usize) -> (r: GridPos)
    requires
        edges.len() > 0,
        forall|k: int| 0 <= k < edges.len() ==> alignment_fits(#[trigger] edges@[k], g),
        pick < top_share(edges.len() as int, 10),
    ensures
        exists|k: int| 0 <= k < edges.len() && edges@[k] == r && stable_rank(edge_scores(edges@, g), k) == pick,
{
    let mut scores: Vec<i32> = Vec::new();
    let mut k: usize = 0;
    while k < edges.len()
        invariant
            k <= edges.len(),
            forall|j: int| 0 <= j < edges.len() ==> alignment_fits(#[trigger] edges@[j], g),
            scores@ == edge_scores(edges@.take(k as int), g),
        decreases edges.len() - k,
    {
        let s = alignment(edges[k], g);
        scores.push(s);
        proof {
            assert(scores@ =~= edge_scores(edges@.take(k + 1), g));
        }
        k = k + 1;
    }
    proof {
        assert(edges@.take(edges@.len() as int) == edges@);
        assert(edges@.len() / 10 <= edges@.len());
    }
    let i = select_ranked(&scores, pick);
    edges[i]
}

/// Neighbours of `edge` that are free, in neighbour order.
pub open spec fn free_neighbors(edge: GridPos, occupied: Seq<GridPos>) -> Seq<GridPos> {
    adjacent_seq(edge).filter(|q: GridPos| !occupied.contains(q))
}

/// `d` is a step of one along exactly one axis.
pub open spec fn is_axis_step(d: GridPos) -> bool {
    ||| (d.0 == 1 || d.0 == -1) && d.1 == 0 && d.2 == 0
    ||| d.0 == 0 && (d.1 == 1 || d.1 == -1) && d.2 == 0
    ||| d.0 == 0 && d.1 == 0 && (d.2 == 1 || d.2 == -1)
}

/// The position a healthy blob grows into from `edge`, given the step
/// toward the player: the next position along that step when it is free;
/// otherwise the free neighbour of `edge` at position `fallback_pick`
/// among the free neighbours; `None` when `edge` has no free neighbour.
pub fn spawn_toward(edge: GridPos, direction: GridPos, occupied: &Vec<GridPos>, fallback_pick: usize) -> (r: Option<GridPos>)
    requires
        grid_in_range(edge),
        is_axis_step(direction),
        occupied@.contains((
            (edge.0 + direction.0) as i32,
            (edge.1 + direction.1) as i32,
            (edge.2 + direction.2) as i32,
        )) && free_neighbors(edge, occupied@).len() > 0 ==> fallback_pick < free_neighbors(edge, occupied@).len(),
    ensures
        ({
            let next = ((edge.0 + direction.0) as i32, (edge.1 + direction.1) as i32, (edge.2 + direction.2) as i32);
            let free = free_neighbors(edge, occupied@);
            &&& !occupied@.contains(next) ==> r == Some(next)
            &&& occupied@.contains(next) && free.len() > 0 ==> r == Some(free[fallback_pick as int])
            &&& occupied@.contains(next) && free.len() == 0 ==> r is None
        }),
        r matches Some(p) ==> is_adjacent(edge, p) && !occupied@.contains(p),
{
    let next = (edge.0 + direction.0, edge.1 + direction.1, edge.2 + direction.2);
    if !contains_pos(occupied, next) {
        return Some(next);
    }
    let adj = get_adjacent_positions(edge);
    let mut free: Vec<GridPos> = Vec::new();
    let mut d: usize = 0;
    while d < 6
        invariant
            d <= 6,
            adj@ == adjacent_seq(edge),
            free@ == adjacent_seq(edge).take(d as int).filter(|q: GridPos| !occupied@.contains(q)),
        decreases 6 - d,
    {
        proof {
            assert(adjacent_seq(edge).take(d + 1).drop_last() == adjacent_seq(edge).take(d as int));
            reveal_with_fuel(Seq::filter, 1);
        }
        if !contains_pos(occupied, adj[d]) {
            free.push(adj[d]);
        }
        d = d + 1;
    }
    proof {
        assert(adjacent_seq(edge).take(6) == adjacent_seq(edge));
    }
    if free.len() > 0 {
        let p = free[fallback_pick];
        proof {
            let pred = |q: GridPos| !occupied@.contains(q);
            adjacent_seq(edge).lemma_filter_pred(pred, fallback_pick as int);
            assert(free@.contains(p));
            adjacent_seq(edge).lemma_filter_contains_rev(pred, p);
            crate::scene::enemy::behaviors::blob::lemma_adjacent_seq_complete(edge, p);
        }
        Some(p)
    } else {
        None
    }
}

/// What a reaching blob does this growth tick.
#[derive(Debug, Clone, Copy, PartialEq, Eq)]
pub enum ReachingPlan {
    /// Nowhere to grow.
    Nothing,
    /// Grow a node at this position.
    Spawn(GridPos),
    /// Grow from this edge position one step toward the player; the step
    /// is worked out from world positions (see `spawn_toward`).
    Reach { edge: GridPos },
}

/// Growth and scoring in the reaching phase cannot overflow.
pub open spec fn reaching_safe(occupied: Seq<GridPos>, connected: Seq<GridPos>, is_damaged: bool, g: GridPos) -> bool {
    &&& growth_safe(occupied, connected)
    &&& forall|i: int| 0 <= i < connected.len() && spec_is_edge(#[trigger] connected[i], connected) ==> alignment_fits(connected[i], g)
    &&& !is_damaged ==> forall|p: GridPos| is_growth_candidate(occupied, connected, p) && connected_neighbors(connected, p) >= 3
        ==> #[trigger] backfill_fits(p, connected_neighbors(connected, p), g)
}

/// `p` is a backfill candidate: a growth candidate with enough connected
/// neighbours.
pub open spec fn is_backfill_candidate(occupied: Seq<GridPos>, connected: Seq<GridPos>, is_damaged: bool, p: GridPos) -> bool {
    is_growth_candidate(occupied, connected, p) && connected_neighbors(connected, p) >= backfill_threshold(is_damaged)
}

/// `p` is the best backfill position: a backfill candidate ranking first
/// by backfill score, then by position.
pub open spec fn is_best_backfill(occupied: Seq<GridPos>, connected: Seq<GridPos>, is_damaged: bool, g: GridPos, p: GridPos) -> bool {
    &&& is_backfill_candidate(occupied, connected, is_damaged, p)
    &&& forall|q: GridPos| #[trigger] is_backfill_candidate(occupied, connected, is_damaged, q) ==> ranks_first(
        backfill_score(p, connected_neighbors(connected, p), is_damaged, g),
        p,
        backfill_score(q, connected_neighbors(connected, q), is_damaged, g),
        q,
    )
}

/// The plan of reaching-phase growth for a given roll and pick: backfill
/// the best gap when there is one and the blob is damaged or the roll is
/// below 3 (a 30% chance for a roll drawn from 0..10); else a damaged blob
/// grows at the candidate with exactly `pick` candidates nearer the core,
/// and a healthy one reaches from the edge position of stable alignment
/// rank `pick`; nothing when there is no such position.
pub open spec fn reaching_plan_for(
    occupied: Seq<GridPos>,
    connected: Seq<GridPos>,
    is_damaged: bool,
    g: GridPos,
    roll: int,
    pick: int,
    r: ReachingPlan,
) -> bool {
    if (exists|q: GridPos| is_backfill_candidate(occupied, connected, is_damaged, q)) && (is_damaged || roll < 3) {
        r matches ReachingPlan::Spawn(p) && is_best_backfill(occupied, connected, is_damaged, g, p)
    } else if is_damaged {
        if exists|q: GridPos| is_growth_candidate(occupied, connected, q) {
            r matches ReachingPlan::Spawn(p) && is_growth_candidate(occupied, connected, p)
                && nearer_candidates(occupied, connected, p).len() == pick
        } else {
            r == ReachingPlan::Nothing
        }
    } else {
        if edge_filter(connected).len() > 0 {
            r matches ReachingPlan::Reach { edge } && exists|k: int|
                0 <= k < edge_filter(connected).len() && edge_filter(connected)[k] == edge
                    && stable_rank(edge_scores(edge_filter(connected), g), k) == pick
        } else {
            r == ReachingPlan::Nothing
        }
    }
}

/// The picks a reaching plan may be given: among the nearest fifth of
/// the growth candidates when damaged, among the best-aligned tenth of the
/// edge positions when healthy (at least one; see `top_share`).
pub open spec fn reaching_pick_ok(occupied: Seq<GridPos>, connected: Seq<GridPos>, is_damaged: bool, pick: int) -> bool {
    &&& 0 <= pick
    &&& is_damaged ==> pick < top_share(candidate_set(occupied, connected).len() as int, 5)
    &&& !is_damaged ==> pick < top_share(edge_filter(connected).len() as int, 10)
}

/// What reaching-phase growth may plan: a spawn only at a growth
/// candidate; when damaged, the best backfill if there is one, else a
/// candidate among the nearest fifth, else nothing; when healthy, the best
/// backfill, or a reach from an edge position among the best-aligned
/// tenth, or nothing when there is no edge position.
pub open spec fn reaching_outcome(
    occupied: Seq<GridPos>,
    connected: Seq<GridPos>,
    is_damaged: bool,
    g: GridPos,
    r: ReachingPlan,
) -> bool {
    &&& r matches ReachingPlan::Spawn(p) ==> is_growth_candidate(occupied, connected, p)
    &&& is_damaged && (exists|q: GridPos| is_backfill_candidate(occupied, connected, is_damaged, q)) ==> (r matches ReachingPlan::Spawn(p)
        && is_best_backfill(occupied, connected, is_damaged, g, p))
    &&& is_damaged && !(exists|q: GridPos| is_backfill_candidate(occupied, connected, is_damaged, q))
        && (exists|q: GridPos| is_growth_candidate(occupied, connected, q)) ==> (r matches ReachingPlan::Spawn(p)
        && nearer_candidates(occupied, connected, p).len() < top_share(candidate_set(occupied, connected).len() as int, 5))
    &&& is_damaged && !(exists|q: GridPos| is_growth_candidate(occupied, connected, q)) ==> r == ReachingPlan::Nothing
    &&& !is_damaged ==> match r {
        ReachingPlan::Spawn(p) => is_best_backfill(occupied, connected, is_damaged, g, p),
        ReachingPlan::Reach { edge } => exists|k: int| 0 <= k < edge_filter(connected).len() && edge_filter(connected)[k] == edge
            && stable_rank(edge_scores(edge_filter(connected), g), k) < top_share(edge_filter(connected).len() as int, 10),
        ReachingPlan::Nothing => edge_filter(connected).len() == 0,
    }
}

/// A plan for an allowed pick is a possible reaching outcome.
pub proof fn lemma_plan_is_outcome(
    occupied: Seq<GridPos>,
    connected: Seq<GridPos>,
    is_damaged: bool,
    g: GridPos,
    roll: int,
    pick: int,
    r: ReachingPlan,
)
    requires
        reaching_pick_ok(occupied, connected, is_damaged, pick),
        reaching_plan_for(occupied, connected, is_damaged, g, roll, pick, r),
    ensures
        reaching_outcome(occupied, connected, is_damaged, g, r),
{
}

/// Reaching-phase growth for a given roll and pick (see
/// `reaching_plan_for`).
pub fn plan_reaching_growth_with(
    occupied: &Vec<GridPos>,
    connected: &Vec<GridPos>,
    is_damaged: bool,
    g: GridPos,
    roll: usize,
    pick: usize,
) -> (r: ReachingPlan)
    requires
        reaching_safe(occupied@, connected@, is_damaged, g),
        reaching_pick_ok(occupied@, connected@, is_damaged, pick as int),
    ensures
        reaching_plan_for(occupied@, connected@, is_damaged, g, roll as int, pick as int, r),
{
    let cands = growth_candidates(occupied, connected);
    proof {
        assert forall|k: int| 0 <= k < cands.len() implies (#[trigger] cands@[k]).1 <= 6 && manhattan_fits(cands@[k].0)
            && (!is_damaged && cands@[k].1 >= 3 ==> backfill_fits(cands@[k].0, cands@[k].1 as int, g)) by {
            crate::scene::enemy::behaviors::blob::lemma_neighbors_bounds(connected@, cands@[k].0, 6);
        }
        lemma_candidate_count(occupied@, connected@, cands@);
    }
    let mut has_backfill = false;
    let threshold: usize = if is_damaged { 1 } else { 3 };
    let mut k: usize = 0;
    while k < cands.len()
        invariant
            k <= cands.len(),
            threshold == backfill_threshold(is_damaged),
            has_backfill == exists|j: int| 0 <= j < k && (#[trigger] cands@[j]).1 >= threshold,
        decreases cands.len() - k,
    {
        if cands[k].1 >= threshold {
            has_backfill = true;
        }
        k = k + 1;
    }
    let should_backfill = has_backfill && (is_damaged || roll < 3);
    proof {
        lemma_backfill_candidates_listed(occupied@, connected@, is_damaged, cands@);
    }
    if should_backfill {
        let best = choose_backfill(&cands, is_damaged, g);
        match best {
            Some(p) => {
                proof {
                    lemma_best_backfill(occupied@, connected@, is_damaged, g, cands@, p);
                }
                return ReachingPlan::Spawn(p);
            },
            None => {
                return ReachingPlan::Nothing;
            },
        }
    }
    if is_damaged {
        if cands.len() > 0 {
            let p = choose_defensive(&cands, pick);
            proof {
                let kk = choose|kk: int| 0 <= kk < cands.len() && (#[trigger] cands@[kk]).0 == p && keyed_rank(defensive_keys(cands@), kk) == pick;
                assert(is_growth_candidate(occupied@, connected@, cands@[kk].0));
                lemma_defensive_rank(occupied@, connected@, cands@, kk);
            }
            return ReachingPlan::Spawn(p);
        } else {
            proof {
                assert forall|q: GridPos| !is_growth_candidate(occupied@, connected@, q) by {
                    if is_growth_candidate(occupied@, connected@, q) {
                        let kk = choose|kk: int| 0 <= kk < cands.len() && #[trigger] cands@[kk].0 == q;
                    }
                }
            }
            return ReachingPlan::Nothing;
        }
    }
    let edges = edge_positions(connected);
    if edges.len() > 0 {
        proof {
            assert forall|k2: int| 0 <= k2 < edges.len() implies alignment_fits(#[trigger] edges@[k2], g) by {
                lemma_edge_filter_member(connected@, k2);
            }
        }
        let edge = choose_aggressive_edge(&edges, g, pick);
        ReachingPlan::Reach { edge }
    } else {
        ReachingPlan::Nothing
    }
}

/// Reaching-phase growth: backfill the best gap (always when damaged,
/// with a 30% chance otherwise), else when damaged grow at a random one of
/// the nearest fifth of the free positions, else reach toward the player
/// from a random one of the best-aligned tenth of the edge positions. The
/// roll is drawn from 0..10 and the pick uniformly from the allowed share;
/// the plan is `plan_reaching_growth_with` for them.
pub fn plan_reaching_growth(occupied: &Vec<GridPos>, connected: &Vec<GridPos>, is_damaged: bool, g: GridPos) -> (r: ReachingPlan)
    requires
        reaching_safe(occupied@, connected@, is_damaged, g),
    ensures
        exists|roll: int, pick: int| 0 <= roll < 10 && reaching_pick_ok(occupied@, connected@, is_damaged, pick)
            && #[trigger] reaching_plan_for(occupied@, connected@, is_damaged, g, roll, pick, r),
        reaching_outcome(occupied@, connected@, is_damaged, g, r),
{
    let share = if is_damaged {
        let cands = growth_candidates(occupied, connected);
        proof {
            lemma_candidate_count(occupied@, connected@, cands@);
        }
        if cands.len() / 5 >= 1 { cands.len() / 5 } else { 1 }
    } else {
        proof {
            assert forall|i: int| 0 <= i < connected.len() implies grid_in_range(#[trigger] connected@[i]) by {}
        }
        let edges = edge_positions(connected);
        if edges.len() / 10 >= 1 { edges.len() / 10 } else { 1 }
    };
    let roll = if is_damaged { 0 } else { random_index(10) };
    let pick = random_index(share);
    let r = plan_reaching_growth_with(occupied, connected, is_damaged, g, roll, pick);
    proof {
        lemma_plan_is_outcome(occupied@, connected@, is_damaged, g, roll as int, pick as int, r);
    }
    r
}

/// A member of the edge filter is a connected position on the edge.
proof fn lemma_edge_filter_member(connected: Seq<GridPos>, k: int)
    requires
        0 <= k < edge_filter(connected).len(),
    ensures
        connected.contains(edge_filter(connected)[k]),
        spec_is_edge(edge_filter(connected)[k], connected),
{
    let f = |p: GridPos| spec_is_edge(p, connected);
    assert(connected.filter(f).contains(edge_filter(connected)[k]));
    connected.lemma_filter_contains_rev(f, edge_filter(connected)[k]);
    connected.lemma_filter_pred(f, k);
}

/// The candidate list holds a backfill candidate exactly when some
/// position is one.
proof fn lemma_backfill_candidates_listed(
    occupied: Seq<GridPos>,
    connected: Seq<GridPos>,
    is_damaged: bool,
    cands: Seq<(GridPos, usize)>,
)
    requires
        forall|k: int| 0 <= k < cands.len() ==> is_growth_candidate(occupied, connected, #[trigger] cands[k].0)
            && cands[k].1 == connected_neighbors(connected, cands[k].0),
        forall|p: GridPos| is_growth_candidate(occupied, connected, p) ==> exists|k: int| 0 <= k < cands.len() && #[trigger] cands[k].0 == p,
    ensures
        (exists|j: int| 0 <= j < cands.len() && (#[trigger] cands[j]).1 >= backfill_threshold(is_damaged)) <==> (exists|q: GridPos| is_backfill_candidate(occupied, connected, is_damaged, q)),
{
    if exists|q: GridPos| is_backfill_candidate(occupied, connected, is_damaged, q) {
        let q = choose|q: GridPos| is_backfill_candidate(occupied, connected, is_damaged, q);
        let j = choose|j: int| 0 <= j < cands.len() && #[trigger] cands[j].0 == q;
        assert(cands[j].1 >= backfill_threshold(is_damaged));
    }
    if exists|j: int| 0 <= j < cands.len() && (#[trigger] cands[j]).1 >= backfill_threshold(is_damaged) {
        let j = choose|j: int| 0 <= j < cands.len() && (#[trigger] cands[j]).1 >= backfill_threshold(is_damaged);
        assert(is_backfill_candidate(occupied, connected, is_damaged, cands[j].0));
    }
}

/// The best backfill among the listed candidates is the best of all.
proof fn lemma_best_backfill(
    occupied: Seq<GridPos>,
    connected: Seq<GridPos>,
    is_damaged: bool,
    g: GridPos,
    cands: Seq<(GridPos, usize)>,
    p: GridPos,
)
    requires
        forall|k: int| 0 <= k < cands.len() ==> is_growth_candidate(occupied, connected, #[trigger] cands[k].0)
            && cands[k].1 == connected_neighbors(connected, cands[k].0),
        forall|q: GridPos| is_growth_candidate(occupied, connected, q) ==> exists|k: int| 0 <= k < cands.len() && #[trigger] cands[k].0 == q,
        exists|k: int| 0 <= k < cands.len() && (#[trigger] cands[k]).0 == p
            && cands[k].1 >= backfill_threshold(is_damaged) && forall|k2: int|
                0 <= k2 < cands.len() && cands[k2].1 >= backfill_threshold(is_damaged) ==> ranks_first(
                    backfill_score(p, cands[k].1 as int, is_damaged, g),
                    p,
                    backfill_score(cands[k2].0, cands[k2].1 as int, is_damaged, g),
                    cands[k2].0,
                ),
    ensures
        is_best_backfill(occupied, connected, is_damaged, g, p),
{
    let k = choose|k: int| 0 <= k < cands.len() && (#[trigger] cands[k]).0 == p
        && cands[k].1 >= backfill_threshold(is_damaged) && forall|k2: int|
            0 <= k2 < cands.len() && cands[k2].1 >= backfill_threshold(is_damaged) ==> ranks_first(
                backfill_score(p, cands[k].1 as int, is_damaged, g),
                p,
                backfill_score(cands[k2].0, cands[k2].1 as int, is_damaged, g),
                cands[k2].0,
            );
    assert forall|q: GridPos| #[trigger] is_backfill_candidate(occupied, connected, is_damaged, q) implies ranks_first(
        backfill_score(p, connected_neighbors(connected, p), is_damaged, g),
        p,
        backfill_score(q, connected_neighbors(connected, q), is_damaged, g),
        q,
    ) by {
        let k2 = choose|k2: int| 0 <= k2 < cands.len() && #[trigger] cands[k2].0 == q;
    }
}

/// Number of free neighbours of `edge`.
fn count_free_neighbors(edge: GridPos, occupied: &Vec<GridPos>) -> (n: usize)
    requires
        grid_in_range(edge),
    ensures
        n == free_neighbors(edge, occupied@).len(),
{
    let adj = get_adjacent_positions(edge);
    let mut n: usize = 0;
    let mut d: usize = 0;
    while d < 6
        invariant
            d <= 6,
            adj@ == adjacent_seq(edge),
            n == adjacent_seq(edge).take(d as int).filter(|q: GridPos| !occupied@.contains(q)).len(),
            n <= d,
        decreases 6 - d,
    {
        proof {
            assert(adjacent_seq(edge).take(d + 1).drop_last() == adjacent_seq(edge).take(d as int));
            reveal_with_fuel(Seq::filter, 1);
        }
        if !contains_pos(occupied, adj[d]) {
            n = n + 1;
        }
        d = d + 1;
    }
    proof {
        assert(adjacent_seq(edge).take(6) == adjacent_seq(edge));
    }
    n
}

/// The position a healthy blob grows into from `edge` along the step
/// toward the player, or, when that position is taken, a random free
/// neighbour of `edge`; `None` when `edge` has no free neighbour.
pub fn spawn_toward_random(edge: GridPos, direction: GridPos, occupied: &Vec<GridPos>) -> (r: Option<GridPos>)
    requires
        grid_in_range(edge),
        is_axis_step(direction),
    ensures
        ({
            let next = ((edge.0 + direction.0) as i32, (edge.1 + direction.1) as i32, (edge.2 + direction.2) as i32);
            let free = free_neighbors(edge, occupied@);
            &&& !occupied@.contains(next) ==> r == Some(next)
            &&& occupied@.contains(next) && free.len() > 0 ==> exists|k: int| 0 <= k < free.len() && r == Some(free[k])
            &&& occupied@.contains(next) && free.len() == 0 ==> r is None
        }),
        r matches Some(p) ==> is_adjacent(edge, p) && !occupied@.contains(p),
{
    let free = count_free_neighbors(edge, occupied);
    let pick = if free > 0 { random_index(free) } else { 0 };
    spawn_toward(edge, direction, occupied, pick)
}

/// What a bolstering blob plans: a spawn at the growth candidate that
/// ranks first by bolstering priority, or nothing when there is none.
pub open spec fn bolstering_outcome(occupied: Seq<GridPos>, connected: Seq<GridPos>, is_damaged: bool, r: ReachingPlan) -> bool {
    match r {
        ReachingPlan::Spawn(p) => is_growth_candidate(occupied, connected, p) && forall|q: GridPos|
            is_growth_candidate(occupied, connected, q) ==> ranks_first(
                bolster_priority(connected, p, is_damaged),
                p,
                bolster_priority(connected, q, is_damaged),
                q,
            ),
        ReachingPlan::Nothing => !exists|p: GridPos| is_growth_candidate(occupied, connected, p),
        ReachingPlan::Reach { .. } => false,
    }
}

/// This growth tick's plan for a blob in the given phase, for a given
/// roll and pick: bolstering blobs fill in around the core (see
/// `choose_bolstering_spawn`), reaching blobs follow
/// `plan_reaching_growth_with`.
pub fn plan_blob_growth_with(
    phase: BlobPhase,
    occupied: &Vec<GridPos>,
    connected: &Vec<GridPos>,
    is_damaged: bool,
    g: GridPos,
    roll: usize,
    pick: usize,
) -> (r: ReachingPlan)
    requires
        reaching_safe(occupied@, connected@, is_damaged, g),
        phase == BlobPhase::Reaching ==> reaching_pick_ok(occupied@, connected@, is_damaged, pick as int),
    ensures
        phase == BlobPhase::Bolstering ==> bolstering_outcome(occupied@, connected@, is_damaged, r),
        phase == BlobPhase::Reaching ==> reaching_plan_for(occupied@, connected@, is_damaged, g, roll as int, pick as int, r),
{
    match phase {
        BlobPhase::Bolstering => match choose_bolstering_spawn(occupied, connected, is_damaged) {
            Some(p) => ReachingPlan::Spawn(p),
            None => ReachingPlan::Nothing,
        },
        BlobPhase::Reaching => plan_reaching_growth_with(occupied, connected, is_damaged, g, roll, pick),
    }
}

/// This growth tick's plan for a blob in the given phase: bolstering blobs
/// fill in around the core (see `choose_bolstering_spawn`), reaching blobs
/// follow `plan_reaching_growth`, which draws the roll and the pick.
pub fn plan_blob_growth(phase: BlobPhase, occupied: &Vec<GridPos>, connected: &Vec<GridPos>, is_damaged: bool, g: GridPos) -> (r: ReachingPlan)
    requires
        reaching_safe(occupied@, connected@, is_damaged, g),
    ensures
        phase == BlobPhase::Bolstering ==> bolstering_outcome(occupied@, connected@, is_damaged, r),
        phase == BlobPhase::Reaching ==> exists|roll: int, pick: int| 0 <= roll < 10 && reaching_pick_ok(occupied@, connected@, is_damaged, pick)
            && #[trigger] reaching_plan_for(occupied@, connected@, is_damaged, g, roll, pick, r),
        phase == BlobPhase::Reaching ==> reaching_outcome(occupied@, connected@, is_damaged, g, r),
{
    match phase {
        BlobPhase::Bolstering => match choose_bolstering_spawn(occupied, connected, is_damaged) {
            Some(p) => ReachingPlan::Spawn(p),
            None => ReachingPlan::Nothing,
        },
        BlobPhase::Reaching => plan_reaching_growth(occupied, connected, is_damaged, g),
    }
}

/// A plan grows from the blob's connected cells: a spawn position is a
/// growth candidate, and a reach starts from a connected cell.
pub open spec fn grows_from_connected(plan: ReachingPlan, occupied: Seq<GridPos>, connected: Seq<GridPos>) -> bool {
    match plan {
        ReachingPlan::Spawn(p) => is_growth_candidate(occupied, connected, p),
        ReachingPlan::Reach { edge } => connected.contains(edge),
        ReachingPlan::Nothing => true,
    }
}

/// Every plan of the growth planner grows from the blob's connected cells,
/// in either phase.
pub proof fn lemma_plans_grow_from_connected(
    occupied: Seq<GridPos>,
    connected: Seq<GridPos>,
    is_damaged: bool,
    g: GridPos,
    r: ReachingPlan,
)
    requires
        reaching_outcome(occupied, connected, is_damaged, g, r) || bolstering_outcome(occupied, connected, is_damaged, r),
    ensures
        grows_from_connected(r, occupied, connected),
{
    if let ReachingPlan::Reach { edge } = r {
        if reaching_outcome(occupied, connected, is_damaged, g, r) {
            if is_damaged {
                assert(!(exists|q: GridPos| is_growth_candidate(occupied, connected, q)) ==> r == ReachingPlan::Nothing);
                if exists|q: GridPos| is_backfill_candidate(occupied, connected, is_damaged, q) {
                } else if exists|q: GridPos| is_growth_candidate(occupied, connected, q) {
                }
            } else {
                let k = choose|k: int| 0 <= k < edge_filter(connected).len() && edge_filter(connected)[k] == edge
                    && stable_rank(edge_scores(edge_filter(connected), g), k) < top_share(
                    edge_filter(connected).len() as int,
                    10,
                );
                lemma_edge_filter_member(connected, k);
            }
        }
    }
}

/// The cell a blob grows into this tick for its plan: the planned spawn
/// position; for a reach, the step from the edge toward the player when
/// that cell is free, else a random free neighbour of the edge; nothing
/// otherwise. A plan that grows from the connected cells (every plan of
/// the planner does) grows into a free cell next to a connected one.
#[verifier::spinoff_prover]
pub fn growth_position(plan: ReachingPlan, direction: GridPos, occupied: &Vec<GridPos>, connected: &Vec<GridPos>) -> (r:
    Option<GridPos>)
    requires
        is_axis_step(direction),
        forall|i: int| 0 <= i < connected.len() ==> grid_in_range(#[trigger] connected@[i]),
        plan matches ReachingPlan::Reach { edge } ==> grid_in_range(edge),
    ensures
        plan == ReachingPlan::Nothing ==> r is None,
        plan matches ReachingPlan::Spawn(p) ==> r == Some(p),
        plan matches ReachingPlan::Reach { edge } ==> ({
            let next = ((edge.0 + direction.0) as i32, (edge.1 + direction.1) as i32, (edge.2 + direction.2) as i32);
            let free = free_neighbors(edge, occupied@);
            &&& !occupied@.contains(next) ==> r == Some(next)
            &&& occupied@.contains(next) && free.len() > 0 ==> exists|k: int| 0 <= k < free.len() && r == Some(free[k])
            &&& occupied@.contains(next) && free.len() == 0 ==> r is None
        }),
        grows_from_connected(plan, occupied@, connected@) ==> (r matches Some(p) ==> !occupied@.contains(p) && exists|q: GridPos|
            connected@.contains(q) && is_adjacent(q, p)),
{
    match plan {
        ReachingPlan::Nothing => None,
        ReachingPlan::Spawn(p) => {
            proof {
                if is_growth_candidate(occupied@, connected@, p) {
                    let (i, d) = choose|i: int, d: int|
                        0 <= i < connected@.len() && 0 <= d < 6 && #[trigger] adjacent_seq(connected@[i])[d] == p;
                    let q = connected@[i];
                    assert(adjacent_seq(q).contains(p));
                    crate::scene::enemy::behaviors::blob::lemma_adjacent_seq_complete(q, p);
                    assert(connected@.contains(q));
                }
            }
            Some(p)
        },
        ReachingPlan::Reach { edge } => {
            spawn_toward_random(edge, direction, occupied)
        },
    }
}

/// Reaching from the edges: an edge better aligned with the player (a
/// larger positive dot product with the player's direction) comes before
/// a less aligned one in the ranking the reach is picked from, and an edge
/// facing the player comes before one facing away.
pub proof fn lemma_aligned_edge_ranks_first(edges: Seq<GridPos>, g: GridPos, i: int, j: int)
    requires
        0 <= i < edges.len(),
        0 <= j < edges.len(),
        alignment_fits(edges[i], g),
        alignment_fits(edges[j], g),
        dot(edges[j], g) > 0,
        dot(edges[j], g) > dot(edges[i], g),
    ensures
        stable_rank(edge_scores(edges, g), j) < stable_rank(edge_scores(edges, g), i),
{
    let s = edge_scores(edges, g);
    assert(s[j] > s[i]);
    crate::scene::enemy::manager::ranking::lemma_stable_rank_order(s, i, j);
}

/// Upgrading to a factory: a candidate node better aligned with the player
/// comes before a less aligned one in the ranking the upgrade is picked
/// from.
pub proof fn lemma_aligned_node_ranks_first(entries: Seq<BlobMember>, cands: Seq<usize>, g: GridPos, i: int, j: int)
    requires
        0 <= i < cands.len(),
        0 <= j < cands.len(),
        alignment_fits(member_position(entries[cands[i] as int]), g),
        alignment_fits(member_position(entries[cands[j] as int]), g),
        dot(member_position(entries[cands[j] as int]), g) > 0,
        dot(member_position(entries[cands[j] as int]), g) > dot(member_position(entries[cands[i] as int]), g),
    ensures
        stable_rank(candidate_scores(entries, cands, g), j) < stable_rank(candidate_scores(entries, cands, g), i),
{
    let s = candidate_scores(entries, cands, g);
    assert(s[j] > s[i]);
    crate::scene::enemy::manager::ranking::lemma_stable_rank_order(s, i, j);
}

/// Growing defensively: a candidate nearer the core (smaller Manhattan
/// distance) comes before a farther one in the ranking the defensive
/// growth is picked from.
pub proof fn lemma_nearer_candidate_ranks_first(cands: Seq<(GridPos, usize)>, i: int, j: int)
    requires
        distinct_candidates(cands),
        0 <= i < cands.len(),
        0 <= j < cands.len(),
        manhattan_fits(cands[i].0),
        manhattan_fits(cands[j].0),
        manhattan(cands[j].0) < manhattan(cands[i].0),
    ensures
        keyed_rank(defensive_keys(cands), j) < keyed_rank(defensive_keys(cands), i),
{
    let c = defensive_keys(cands);
    assert(c[j].1 > c[i].1);
    assert(distinct_positions(c));
    crate::scene::enemy::manager::ranking::lemma_keyed_rank_order(c, i, j);
}

/// How often a healthy reaching blob backfills: when some gap qualifies,
/// the plan backfills for exactly the rolls 0, 1 and 2 of the ten (a 30%
/// chance) and reaches or does nothing otherwise; a damaged blob with a
/// gap to fill always backfills.
pub proof fn lemma_backfill_share(
    occupied: Seq<GridPos>,
    connected: Seq<GridPos>,
    is_damaged: bool,
    g: GridPos,
    roll: int,
    pick: int,
    r: ReachingPlan,
)
    requires
        exists|q: GridPos| is_backfill_candidate(occupied, connected, is_damaged, q),
        reaching_plan_for(occupied, connected, is_damaged, g, roll, pick, r),
    ensures
        !is_damaged ==> ((r is Spawn) <==> roll < 3),
        is_damaged ==> r is Spawn,
{
}

/// The nearness order used for defensive growth follows the Manhattan
/// distance from the core: a strictly nearer cell is counted as nearer, a
/// farther one never.
pub proof fn lemma_nearer_by_distance(occupied: Seq<GridPos>, connected: Seq<GridPos>, p: GridPos, q: GridPos)
    requires
        is_growth_candidate(occupied, connected, q),
    ensures
        manhattan(q) < manhattan(p) ==> nearer_candidates(occupied, connected, p).contains(q),
        manhattan(q) > manhattan(p) ==> !nearer_candidates(occupied, connected, p).contains(q),
        !nearer_candidates(occupied, connected, p).contains(p),
{
}

} // verus!
