//! Blob enemies: a stationary core that grows a network of nodes on an
//! integer grid around itself.
use vstd::prelude::*;
use crate::engine::EntityId;
use super::{remove_id, without_id};

verus! {

/// A position on the blob grid, relative to the core at the origin.
pub type GridPos = (i32, i32, i32);

/// The core's own grid position.
pub open spec fn origin() -> GridPos {
    (0i32, 0i32, 0i32)
}

/// No coordinate sits at either end of the `i32` range, so every
/// neighbour of the position is representable.
pub open spec fn grid_in_range(p: GridPos) -> bool {
    &&& i32::MIN < p.0 < i32::MAX
    &&& i32::MIN < p.1 < i32::MAX
    &&& i32::MIN < p.2 < i32::MAX
}

/// The six face neighbours of `p`, in the order +X, -X, +Y, -Y, +Z, -Z.
pub open spec fn adjacent_seq(p: GridPos) -> Seq<GridPos> {
    seq![
        ((p.0 + 1) as i32, p.1, p.2),
        ((p.0 - 1) as i32, p.1, p.2),
        (p.0, (p.1 + 1) as i32, p.2),
        (p.0, (p.1 - 1) as i32, p.2),
        (p.0, p.1, (p.2 + 1) as i32),
        (p.0, p.1, (p.2 - 1) as i32),
    ]
}

/// `a` and `b` share a face: they differ by one in exactly one coordinate.
pub open spec fn is_adjacent(a: GridPos, b: GridPos) -> bool {
    ||| (b.0 == a.0 + 1 || b.0 == a.0 - 1) && b.1 == a.1 && b.2 == a.2
    ||| b.0 == a.0 && (b.1 == a.1 + 1 || b.1 == a.1 - 1) && b.2 == a.2
    ||| b.0 == a.0 && b.1 == a.1 && (b.2 == a.2 + 1 || b.2 == a.2 - 1)
}

/// Absolute value.
pub open spec fn abs(x: int) -> int {
    if x < 0 { -x } else { x }
}

/// Sign of `x`: -1, 0 or 1.
pub open spec fn sign(x: int) -> int {
    if x > 0 { 1 } else if x < 0 { -1 } else { 0 }
}

/// Manhattan distance of `p` from the core.
pub open spec fn manhattan(p: GridPos) -> int {
    abs(p.0 as int) + abs(p.1 as int) + abs(p.2 as int)
}

/// Unit step from `p` toward the core along the axis on which `p` is
/// farthest from it; ties prefer X over Y over Z.
pub open spec fn step_toward_core(p: GridPos) -> (int, int, int) {
    let (ax, ay, az) = (abs(p.0 as int), abs(p.1 as int), abs(p.2 as int));
    if ax >= ay && ax >= az {
        (-sign(p.0 as int), 0, 0)
    } else if ay >= az {
        (0, -sign(p.1 as int), 0)
    } else {
        (0, 0, -sign(p.2 as int))
    }
}

/// Every neighbour listed by `adjacent_seq` is adjacent, and every adjacent
/// position is listed.
pub proof fn lemma_adjacent_seq_complete(p: GridPos, q: GridPos)
    requires
        grid_in_range(p),
    ensures
        is_adjacent(p, q) <==> adjacent_seq(p).contains(q),
{
    let s = adjacent_seq(p);
    if is_adjacent(p, q) {
        if q.0 == p.0 + 1 {
            assert(s[0] == q);
        } else if q.0 == p.0 - 1 {
            assert(s[1] == q);
        } else if q.1 == p.1 + 1 {
            assert(s[2] == q);
        } else if q.1 == p.1 - 1 {
            assert(s[3] == q);
        } else if q.2 == p.2 + 1 {
            assert(s[4] == q);
        } else {
            assert(s[5] == q);
        }
    }
    if s.contains(q) {
        let i = choose|i: int| 0 <= i < s.len() && s[i] == q;
        assert(0 <= i < 6);
    }
}

/// Exec test of grid equality, coordinate by coordinate.
fn same_pos(a: GridPos, b: GridPos) -> (r: bool)
    ensures
        r == (a == b),
{
    a.0 == b.0 && a.1 == b.1 && a.2 == b.2
}

/// Whether `positions` lists `p`.
pub fn contains_pos(positions: &Vec<GridPos>, p: GridPos) -> (r: bool)
    ensures
        r == positions@.contains(p),
{
    let mut i: usize = 0;
    while i < positions.len()
        invariant
            i <= positions.len(),
            forall|j: int| 0 <= j < i ==> positions@[j] != p,
        decreases positions.len() - i,
    {
        if same_pos(positions[i], p) {
            return true;
        }
        i = i + 1;
    }
    false
}

/// Get all 6 adjacent grid positions (±X, ±Y, ±Z).
pub fn get_adjacent_positions(pos: GridPos) -> (r: [GridPos; 6])
    requires
        grid_in_range(pos),
    ensures
        r@ == adjacent_seq(pos),
{
    let r = [
        (pos.0 + 1, pos.1, pos.2),
        (pos.0 - 1, pos.1, pos.2),
        (pos.0, pos.1 + 1, pos.2),
        (pos.0, pos.1 - 1, pos.2),
        (pos.0, pos.1, pos.2 + 1),
        (pos.0, pos.1, pos.2 - 1),
    ];
    assert(r@ =~= adjacent_seq(pos));
    r
}


fn abs_i32(x: i32) -> (r: i32)
    requires
        x != i32::MIN,
    ensures
        r == abs(x as int),
{
    if x < 0 { -x } else { x }
}

fn signum_i32(x: i32) -> (r: i32)
    ensures
        r == sign(x as int),
{
    if x > 0 { 1 } else if x < 0 { -1 } else { 0 }
}

/// Unit step from `from` toward the core (origin), along the axis with the
/// largest distance from it.
pub fn direction_toward_core(from: GridPos) -> (r: GridPos)
    requires
        from.0 != i32::MIN,
        from.1 != i32::MIN,
        from.2 != i32::MIN,
    ensures
        r.0 == step_toward_core(from).0,
        r.1 == step_toward_core(from).1,
        r.2 == step_toward_core(from).2,
{
    let abs_x = abs_i32(from.0);
    let abs_y = abs_i32(from.1);
    let abs_z = abs_i32(from.2);
    if abs_x >= abs_y && abs_x >= abs_z {
        (-signum_i32(from.0), 0, 0)
    } else if abs_y >= abs_z {
        (0, -signum_i32(from.1), 0)
    } else {
        (0, 0, -signum_i32(from.2))
    }
}

/// A position is on the edge of the blob when at least one of its six
/// neighbours is not occupied.
pub open spec fn spec_is_edge(pos: GridPos, occupied: Seq<GridPos>) -> bool {
    exists|d: int| 0 <= d < 6 && !occupied.contains(#[trigger] adjacent_seq(pos)[d])
}

/// Check if a grid position is on the edge of the current blob structure:
/// it has at least one empty adjacent position.
pub fn is_edge_position(pos: GridPos, occupied_positions: &Vec<GridPos>) -> (r: bool)
    requires
        grid_in_range(pos),
    ensures
        r == spec_is_edge(pos, occupied_positions@),
{
    let adj = get_adjacent_positions(pos);
    let mut d: usize = 0;
    while d < 6
        invariant
            d <= 6,
            adj@ == adjacent_seq(pos),
            forall|k: int| 0 <= k < d ==> occupied_positions@.contains(#[trigger] adjacent_seq(pos)[k]),
        decreases 6 - d,
    {
        if !contains_pos(occupied_positions, adj[d]) {
            return true;
        }
        d = d + 1;
    }
    false
}


/// `path` starts at the core, every later step is an occupied position,
/// and consecutive steps are adjacent.
pub open spec fn is_grid_path(occupied: Set<GridPos>, path: Seq<GridPos>) -> bool {
    &&& path.len() > 0
    &&& path[0] == origin()
    &&& forall|i: int| 1 <= i < path.len() ==> occupied.contains(#[trigger] path[i])
    &&& forall|i: int| #![trigger path[i]] 0 <= i < path.len() - 1 ==> is_adjacent(path[i], path[i + 1])
}

/// `p` can be reached from the core by stepping between adjacent occupied
/// positions (the core itself is always connected).
pub open spec fn connected_to_core(occupied: Set<GridPos>, p: GridPos) -> bool {
    exists|path: Seq<GridPos>| #[trigger] is_grid_path(occupied, path) && path.last() == p
}

/// The core is connected to itself.
pub proof fn lemma_origin_connected(occupied: Set<GridPos>)
    ensures
        connected_to_core(occupied, origin()),
{
    let path = seq![origin()];
    assert(is_grid_path(occupied, path));
}

/// Extending a path to an occupied neighbour of its end gives a path.
pub proof fn lemma_extend_connection(occupied: Set<GridPos>, p: GridPos, q: GridPos)
    requires
        connected_to_core(occupied, p),
        occupied.contains(q),
        is_adjacent(p, q),
    ensures
        connected_to_core(occupied, q),
{
    let path = choose|path: Seq<GridPos>| #[trigger] is_grid_path(occupied, path) && path.last() == p;
    let np = path.push(q);
    assert forall|i: int| 1 <= i < np.len() implies occupied.contains(#[trigger] np[i]) by {
        if i < path.len() {
            assert(np[i] == path[i]);
        }
    }
    assert forall|i: int| #![trigger np[i]] 0 <= i < np.len() - 1 implies is_adjacent(np[i], np[i + 1]) by {
        if i < path.len() - 1 {
            assert(np[i] == path[i] && np[i + 1] == path[i + 1]);
        }
    }
    assert(is_grid_path(occupied, np));
    assert(np.last() == q);
}

/// A set of positions that holds the core and, with each of its members,
/// every occupied neighbour, holds every position connected to the core.
pub proof fn lemma_closed_set_holds_connected(
    occupied: Set<GridPos>,
    visited: Seq<GridPos>,
    path: Seq<GridPos>,
)
    requires
        visited.contains(origin()),
        forall|k: int| 0 <= k < visited.len() ==> grid_in_range(#[trigger] visited[k]),
        forall|k: int, d: int|
            0 <= k < visited.len() && 0 <= d < 6 && occupied.contains(
                #[trigger] adjacent_seq(#[trigger] visited[k])[d],
            ) ==> visited.contains(adjacent_seq(visited[k])[d]),
        is_grid_path(occupied, path),
    ensures
        visited.contains(path.last()),
    decreases path.len(),
{
    if path.len() > 1 {
        let prefix = path.drop_last();
        assert forall|i: int| 1 <= i < prefix.len() implies occupied.contains(#[trigger] prefix[i]) by {
            assert(prefix[i] == path[i]);
        }
        assert forall|i: int| #![trigger prefix[i]] 0 <= i < prefix.len() - 1 implies is_adjacent(
            prefix[i],
            prefix[i + 1],
        ) by {
            assert(prefix[i] == path[i] && prefix[i + 1] == path[i + 1]);
        }
        assert(is_grid_path(occupied, prefix));
        lemma_closed_set_holds_connected(occupied, visited, prefix);
        let prev = prefix.last();
        let last = path.last();
        assert(prev == path[path.len() - 2]);
        assert(is_adjacent(path[path.len() - 2], path[path.len() - 1]));
        let k = choose|k: int| 0 <= k < visited.len() && visited[k] == prev;
        assert(grid_in_range(visited[k]));
        lemma_adjacent_seq_complete(prev, last);
        let d = choose|d: int| 0 <= d < adjacent_seq(prev).len() && adjacent_seq(prev)[d] == last;
        assert(occupied.contains(path[path.len() - 1]));
        assert(occupied.contains(adjacent_seq(visited[k])[d]));
    }
}

/// A sequence without repeats whose members all occur in `t` is no longer
/// than `t`.
pub proof fn lemma_distinct_within_len(s: Seq<GridPos>, t: Seq<GridPos>)
    requires
        s.no_duplicates(),
        forall|i: int| 0 <= i < s.len() ==> t.contains(#[trigger] s[i]),
    ensures
        s.len() <= t.len(),
{
    s.unique_seq_to_set();
    t.lemma_cardinality_of_set();
    assert(s.to_set().subset_of(t.to_set())) by {
        assert forall|x: GridPos| s.to_set().contains(x) implies t.to_set().contains(x) by {
            let i = choose|i: int| 0 <= i < s.len() && s[i] == x;
        }
    }
    vstd::set_lib::lemma_len_subset(s.to_set(), t.to_set());
}

/// The grid positions connected to the core (the core included), each
/// listed once: a breadth-first flood fill from the origin through the
/// occupied positions. Only the positions it reaches get their neighbours
/// computed, so only those must lie strictly inside the i32 range.
pub fn flood_fill_from_core(occupied: &Vec<GridPos>) -> (connected: Vec<GridPos>)
    requires
        forall|p: GridPos| #[trigger] connected_to_core(occupied@.to_set(), p) ==> grid_in_range(p),
    ensures
        connected@.no_duplicates(),
        forall|p: GridPos| connected@.contains(p) <==> connected_to_core(occupied@.to_set(), p),
{
    let mut visited: Vec<GridPos> = Vec::new();
    visited.push((0i32, 0i32, 0i32));
    proof {
        lemma_origin_connected(occupied@.to_set());
        assert(visited@[0] == origin());
    }
    let mut head: usize = 0;
    while head < visited.len()
        invariant
            forall|p: GridPos| #[trigger] connected_to_core(occupied@.to_set(), p) ==> grid_in_range(p),
            1 <= visited.len() <= occupied.len() + 1,
            head <= visited.len(),
            visited@[0] == origin(),
            visited@.no_duplicates(),
            forall|k: int| 1 <= k < visited.len() ==> occupied@.contains(#[trigger] visited@[k]),
            forall|k: int| 0 <= k < visited.len() ==> connected_to_core(occupied@.to_set(), #[trigger] visited@[k]),
            forall|k: int, d: int|
                0 <= k < head && 0 <= d < 6 && occupied@.contains(
                    #[trigger] adjacent_seq(#[trigger] visited@[k])[d],
                ) ==> visited@.contains(adjacent_seq(visited@[k])[d]),
        decreases occupied.len() + 1 - head,
    {
        let cur = visited[head];
        proof {
            assert(connected_to_core(occupied@.to_set(), cur));
        }
        let adj = get_adjacent_positions(cur);
        let mut d: usize = 0;
        while d < 6
            invariant
                forall|p: GridPos| #[trigger] connected_to_core(occupied@.to_set(), p) ==> grid_in_range(p),
                1 <= visited.len() <= occupied.len() + 1,
                head < visited.len(),
                d <= 6,
                cur == visited@[head as int],
                grid_in_range(cur),
                adj@ == adjacent_seq(cur),
                visited@[0] == origin(),
                visited@.no_duplicates(),
                forall|k: int| 1 <= k < visited.len() ==> occupied@.contains(#[trigger] visited@[k]),
                forall|k: int|
                    0 <= k < visited.len() ==> connected_to_core(occupied@.to_set(), #[trigger] visited@[k]),
                forall|k: int, e: int|
                    0 <= k < head && 0 <= e < 6 && occupied@.contains(
                        #[trigger] adjacent_seq(#[trigger] visited@[k])[e],
                    ) ==> visited@.contains(adjacent_seq(visited@[k])[e]),
                forall|e: int|
                    0 <= e < d && occupied@.contains(#[trigger] adjacent_seq(cur)[e])
                        ==> visited@.contains(adjacent_seq(cur)[e]),
            decreases 6 - d,
        {
            let a = adj[d];
            let ghost before = visited@;
            if contains_pos(occupied, a) && !contains_pos(&visited, a) {
                let ghost old_visited = visited@;
                proof {
                    lemma_adjacent_seq_complete(cur, a);
                    assert(adjacent_seq(cur)[d as int] == a);
                    lemma_extend_connection(occupied@.to_set(), cur, a);
                }
                visited.push(a);
                proof {
                    assert(visited@ == old_visited.push(a));
                    assert forall|k: int| 0 <= k < old_visited.len() implies old_visited[k] == visited@[k] by {}
                    let t = occupied@.push(origin());
                    assert forall|i: int| 0 <= i < visited@.len() implies t.contains(#[trigger] visited@[i]) by {
                        if i == 0 {
                            assert(t[occupied@.len() as int] == origin());
                        } else {
                            let j = choose|j: int| 0 <= j < occupied@.len() && occupied@[j] == visited@[i];
                            assert(t[j] == occupied@[j]);
                        }
                    }
                    lemma_distinct_within_len(visited@, t);
                }
            }
            proof {
                assert(adjacent_seq(cur)[d as int] == a);
                assert forall|x: GridPos| before.contains(x) implies visited@.contains(x) by {
                    let i = choose|i: int| 0 <= i < before.len() && before[i] == x;
                    assert(visited@[i] == x);
                }
                assert forall|e: int|
                    0 <= e < d + 1 && occupied@.contains(#[trigger] adjacent_seq(cur)[e])
                        implies visited@.contains(adjacent_seq(cur)[e]) by {
                    if e < d {
                        assert(before.contains(adjacent_seq(cur)[e]));
                    } else if before.contains(a) {
                        assert(visited@.contains(a));
                    } else {
                        assert(visited@[visited@.len() - 1] == a);
                    }
                }
            }
            d = d + 1;
        }
        head = head + 1;
    }
    proof {
        assert forall|p: GridPos| connected_to_core(occupied@.to_set(), p) implies visited@.contains(p) by {
            let path = choose|path: Seq<GridPos>| #[trigger] is_grid_path(occupied@.to_set(), path) && path.last() == p;
            assert(visited@[0] == origin());
            assert forall|k: int| 0 <= k < visited@.len() implies grid_in_range(#[trigger] visited@[k]) by {
                assert(connected_to_core(occupied@.to_set(), visited@[k]));
            }
            lemma_closed_set_holds_connected(occupied@.to_set(), visited@, path);
        }
    }
    visited
}


/// Largest number of nodes a blob grows.
pub const BLOB_MAX_SIZE: u32 = 5000;

/// Largest number of factory nodes a blob keeps.
pub const BLOB_MAX_FACTORY_COUNT: u32 = 100;

/// Node count from which a blob stops bolstering and reaches out.
pub const BLOB_REACHING_THRESHOLD: usize = 273;

/// Blob node type classification.
#[derive(Debug, Clone, Copy, PartialEq, Eq, Structural)]
pub enum BlobNodeType {
    Core,
    Factory,
    Base,
}

/// Blob growth phases.
#[derive(Debug, Clone, Copy, PartialEq, Eq, Structural)]
pub enum BlobPhase {
    /// Omnidirectional growth while the blob is small.
    Bolstering,
    /// Directional growth toward the player once the blob is large.
    Reaching,
}

/// The growth phase that goes with a node count.
pub open spec fn phase_for_count(node_count: nat) -> BlobPhase {
    if node_count >= BLOB_REACHING_THRESHOLD {
        BlobPhase::Reaching
    } else {
        BlobPhase::Bolstering
    }
}

/// Node bookkeeping of a blob core: the nodes it grew, its phase, and its
/// size limit.
#[derive(Debug, Clone, PartialEq)]
pub struct BlobCoreData {
    node_ids: Vec<EntityId>,
    phase: BlobPhase,
    max_size: u32,
}

impl BlobCoreData {
    /// The nodes this core grew, in the order they were added.
    pub closed spec fn nodes(&self) -> Seq<EntityId> {
        self.node_ids@
    }

    /// The size limit.
    pub closed spec fn spec_max_size(&self) -> u32 {
        self.max_size
    }

    /// The current phase.
    pub closed spec fn spec_phase(&self) -> BlobPhase {
        self.phase
    }

    /// The phase always matches the node count.
    pub closed spec fn phase_matches(&self) -> bool {
        self.phase == phase_for_count(self.node_ids@.len())
    }

    /// A core without nodes, bolstering, limited to `BLOB_MAX_SIZE` nodes.
    pub fn new() -> (c: BlobCoreData)
        ensures
            c.nodes().len() == 0,
            c.spec_phase() == BlobPhase::Bolstering,
            c.spec_max_size() == BLOB_MAX_SIZE,
            c.phase_matches(),
    {
        BlobCoreData { node_ids: Vec::new(), phase: BlobPhase::Bolstering, max_size: BLOB_MAX_SIZE }
    }

    fn update_phase(&mut self)
        ensures
            final(self).node_ids@ == old(self).node_ids@,
            final(self).max_size == old(self).max_size,
            final(self).phase_matches(),
    {
        if self.node_ids.len() >= BLOB_REACHING_THRESHOLD {
            self.phase = BlobPhase::Reaching;
        } else {
            self.phase = BlobPhase::Bolstering;
        }
    }

    /// Records a new node and re-evaluates the phase.
    pub fn add_node(&mut self, node_id: EntityId)
        ensures
            final(self).nodes() == old(self).nodes().push(node_id),
            final(self).spec_max_size() == old(self).spec_max_size(),
            final(self).spec_phase() == phase_for_count(final(self).nodes().len()),
            final(self).phase_matches(),
    {
        self.node_ids.push(node_id);
        self.update_phase();
    }

    /// Forgets a dead node and re-evaluates the phase.
    pub fn remove_node(&mut self, node_id: EntityId)
        ensures
            final(self).nodes() == without_id(old(self).nodes(), node_id),
            final(self).spec_max_size() == old(self).spec_max_size(),
            final(self).spec_phase() == phase_for_count(final(self).nodes().len()),
            final(self).phase_matches(),
    {
        remove_id(&mut self.node_ids, node_id);
        self.update_phase();
    }

    /// Number of nodes.
    pub fn node_count(&self) -> (n: usize)
        ensures
            n == self.nodes().len(),
    {
        self.node_ids.len()
    }

    /// The nodes, in the order they were added.
    pub fn node_ids(&self) -> (r: &Vec<EntityId>)
        ensures
            r@ == self.nodes(),
    {
        &self.node_ids
    }

    /// The current phase.
    pub fn phase(&self) -> (p: BlobPhase)
        ensures
            p == self.spec_phase(),
    {
        self.phase
    }

    /// The size limit.
    pub fn max_size(&self) -> (m: u32)
        ensures
            m == self.spec_max_size(),
    {
        self.max_size
    }

    /// Whether the blob has reached its size limit.
    pub fn is_at_max_capacity(&self) -> (r: bool)
        ensures
            r == (self.nodes().len() >= self.spec_max_size()),
    {
        self.node_ids.len() >= self.max_size as usize
    }
}

/// How many of the first `d` neighbours of `p` (in `adjacent_seq` order)
/// are listed in `connected`.
pub open spec fn connected_neighbors_upto(connected: Seq<GridPos>, p: GridPos, d: int) -> int
    decreases d,
{
    if d <= 0 {
        0
    } else {
        connected_neighbors_upto(connected, p, d - 1) + if connected.contains(adjacent_seq(p)[d - 1]) {
            1int
        } else {
            0int
        }
    }
}

/// How many of the six neighbours of `p` are listed in `connected`.
pub open spec fn connected_neighbors(connected: Seq<GridPos>, p: GridPos) -> int {
    connected_neighbors_upto(connected, p, 6)
}

/// Between none and all of the first `d` neighbours are connected.
pub proof fn lemma_neighbors_bounds(connected: Seq<GridPos>, p: GridPos, d: int)
    requires
        0 <= d,
    ensures
        0 <= connected_neighbors_upto(connected, p, d) <= d,
    decreases d,
{
    if d > 0 {
        lemma_neighbors_bounds(connected, p, d - 1);
    }
}

/// Counts how many of the six neighbours of `pos` are listed in
/// `connected`.
pub fn count_connected_neighbors(pos: GridPos, connected: &Vec<GridPos>) -> (n: usize)
    requires
        grid_in_range(pos),
    ensures
        n == connected_neighbors(connected@, pos),
        n <= 6,
{
    let adj = get_adjacent_positions(pos);
    let mut n: usize = 0;
    let mut d: usize = 0;
    while d < 6
        invariant
            d <= 6,
            adj@ == adjacent_seq(pos),
            n == connected_neighbors_upto(connected@, pos, d as int),
            n <= d,
        decreases 6 - d,
    {
        if contains_pos(connected, adj[d]) {
            n = n + 1;
        }
        d = d + 1;
    }
    n
}

/// Every coordinate has an `i32` absolute value and the Manhattan
/// distance from the core fits an `i32`.
pub open spec fn manhattan_fits(p: GridPos) -> bool {
    p.0 != i32::MIN && p.1 != i32::MIN && p.2 != i32::MIN && manhattan(p) <= i32::MAX
}

/// Manhattan distance of `p` from the core.
pub fn manhattan_distance(p: GridPos) -> (d: i32)
    requires
        manhattan_fits(p),
    ensures
        d == manhattan(p),
        d >= 0,
{
    abs_i32(p.0) + abs_i32(p.1) + abs_i32(p.2)
}

/// Lexicographic order on grid positions (the order of Rust's tuples).
pub open spec fn pos_lt(a: GridPos, b: GridPos) -> bool {
    a.0 < b.0 || (a.0 == b.0 && (a.1 < b.1 || (a.1 == b.1 && a.2 < b.2)))
}

/// Exec test of the lexicographic order.
pub fn pos_less(a: GridPos, b: GridPos) -> (r: bool)
    ensures
        r == pos_lt(a, b),
{
    a.0 < b.0 || (a.0 == b.0 && (a.1 < b.1 || (a.1 == b.1 && a.2 < b.2)))
}

/// A step toward the core from anywhere but the core moves along one
/// axis, by one, on an axis where the cell is farthest from the core, and
/// brings the cell one step nearer; at the core there is no step.
pub proof fn lemma_step_toward_core(p: GridPos)
    ensures
        ({
            let s = step_toward_core(p);
            let q = (p.0 + s.0, p.1 + s.1, p.2 + s.2);
            &&& p == origin() ==> s == (0int, 0int, 0int)
            &&& p != origin() ==> {
                &&& abs(s.0) + abs(s.1) + abs(s.2) == 1
                &&& abs(q.0) + abs(q.1) + abs(q.2) == manhattan(p) - 1
                &&& s.0 != 0 ==> abs(p.0 as int) >= abs(p.1 as int) && abs(p.0 as int) >= abs(p.2 as int)
                &&& s.1 != 0 ==> abs(p.1 as int) >= abs(p.0 as int) && abs(p.1 as int) >= abs(p.2 as int)
                &&& s.2 != 0 ==> abs(p.2 as int) >= abs(p.0 as int) && abs(p.2 as int) >= abs(p.1 as int)
            }
        }),
{
}

/// The connected-neighbour count of a cell is zero exactly when none of
/// its face neighbours is connected and six exactly when all of them are.
pub proof fn lemma_connected_neighbors_extremes(connected: Seq<GridPos>, p: GridPos)
    requires
        grid_in_range(p),
    ensures
        0 <= connected_neighbors(connected, p) <= 6,
        connected_neighbors(connected, p) == 0 <==> forall|q: GridPos| is_adjacent(p, q) ==> !connected.contains(q),
        connected_neighbors(connected, p) == 6 <==> forall|q: GridPos| is_adjacent(p, q) ==> connected.contains(q),
{
    lemma_neighbors_bounds(connected, p, 6);
    let a = adjacent_seq(p);
    reveal_with_fuel(connected_neighbors_upto, 7);
    assert forall|q: GridPos| is_adjacent(p, q) implies exists|d: int| 0 <= d < 6 && a[d] == q by {
        lemma_adjacent_seq_complete(p, q);
        let d = choose|d: int| 0 <= d < a.len() && a[d] == q;
    }
    if connected_neighbors(connected, p) == 0 {
        assert forall|q: GridPos| is_adjacent(p, q) implies !connected.contains(q) by {
            let d = choose|d: int| 0 <= d < 6 && a[d] == q;
        }
    }
    if forall|q: GridPos| is_adjacent(p, q) ==> !connected.contains(q) {
        assert forall|d: int| 0 <= d < 6 implies !connected.contains(#[trigger] a[d]) by {
            lemma_adjacent_seq_complete(p, a[d]);
            assert(a.contains(a[d]));
        }
    }
    if connected_neighbors(connected, p) == 6 {
        assert forall|q: GridPos| is_adjacent(p, q) implies connected.contains(q) by {
            let d = choose|d: int| 0 <= d < 6 && a[d] == q;
        }
    }
    if forall|q: GridPos| is_adjacent(p, q) ==> connected.contains(q) {
        assert forall|d: int| 0 <= d < 6 implies connected.contains(#[trigger] a[d]) by {
            lemma_adjacent_seq_complete(p, a[d]);
            assert(a.contains(a[d]));
        }
    }
}

} // verus!
