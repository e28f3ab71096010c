//! Scheduling of fractal bullet splits: bullet slots ready to split wait
//! in a queue, each frame splits at most a batch of them, oldest first,
//! and the children of a batch are paired with the slots handed out for
//! them and with fresh entity ids.
use vstd::prelude::*;
use crate::engine::EntityId;

verus! {

/// Number of splits a new queue lets through per frame.
pub const DEFAULT_SPLIT_BATCH_SIZE: usize = 1000;

/// First entity id given to fractal children, clear of the ids the entity
/// manager hands out.
pub const FIRST_FRACTAL_CHILD_ID: u32 = 1000000;

/// Whether a slot still holds an active bullet, given one flag per slot.
pub open spec fn slot_active(active: Seq<bool>, index: usize) -> bool {
    index < active.len() && active[index as int]
}

/// The queue after offering it `candidates` in order: each one whose
/// `ready` flag is set joins the back unless it is queued already.
pub open spec fn enqueued(pending: Seq<usize>, candidates: Seq<usize>, ready: Seq<bool>) -> Seq<usize>
    decreases candidates.len(),
{
    if candidates.len() == 0 {
        pending
    } else {
        let before = enqueued(pending, candidates.drop_last(), ready.drop_last());
        if ready.last() && !before.contains(candidates.last()) {
            before.push(candidates.last())
        } else {
            before
        }
    }
}

/// Offering slots to the queue keeps what was queued, in front and in
/// order, and afterwards a slot is queued exactly when it was queued
/// already or was offered with its `ready` flag set; no slot is queued
/// twice.
pub proof fn lemma_enqueued_exact(pending: Seq<usize>, candidates: Seq<usize>, ready: Seq<bool>)
    requires
        ready.len() == candidates.len(),
        pending.no_duplicates(),
    ensures
        enqueued(pending, candidates, ready).len() >= pending.len(),
        enqueued(pending, candidates, ready).take(pending.len() as int) == pending,
        enqueued(pending, candidates, ready).no_duplicates(),
        forall|x: usize|
            #[trigger] enqueued(pending, candidates, ready).contains(x) <==> (pending.contains(x) || exists|k: int|
                0 <= k < candidates.len() && ready[k] && candidates[k] == x),
    decreases candidates.len(),
{
    if candidates.len() > 0 {
        let cs = candidates.drop_last();
        let rs = ready.drop_last();
        lemma_enqueued_exact(pending, cs, rs);
        let before = enqueued(pending, cs, rs);
        let n = candidates.len() - 1;
        let cur = enqueued(pending, candidates, ready);
        if ready.last() && !before.contains(candidates.last()) {
            assert(cur == before.push(candidates.last()));
            assert(cur.take(pending.len() as int) =~= before.take(pending.len() as int));
            assert forall|a: int, b: int| 0 <= a < cur.len() && 0 <= b < cur.len() && a != b implies cur[a] != cur[b] by {
                if a < before.len() && b < before.len() {
                } else if a < before.len() {
                    assert(before.contains(cur[a]));
                } else if b < before.len() {
                    assert(before.contains(cur[b]));
                }
            }
        }
        assert forall|x: usize| #[trigger] cur.contains(x) <==> (pending.contains(x) || exists|k: int|
            0 <= k < candidates.len() && ready[k] && candidates[k] == x) by {
            if cur.contains(x) {
                let i = choose|i: int| 0 <= i < cur.len() && cur[i] == x;
                if i < before.len() {
                    assert(before[i] == cur[i]);
                    assert(before.contains(x));
                    if !pending.contains(x) {
                        let k = choose|k: int| 0 <= k < cs.len() && rs[k] && cs[k] == x;
                        assert(candidates[k] == cs[k] && ready[k] == rs[k]);
                    }
                } else {
                    assert(ready[n] && candidates[n] == x);
                }
            }
            if pending.contains(x) || exists|k: int| 0 <= k < candidates.len() && ready[k] && candidates[k] == x {
                if pending.contains(x) {
                    assert(before.contains(x));
                } else {
                    let k = choose|k: int| 0 <= k < candidates.len() && ready[k] && candidates[k] == x;
                    if k < n {
                        assert(candidates[k] == cs[k] && ready[k] == rs[k]);
                        assert(before.contains(x));
                    }
                }
                if before.contains(x) {
                    let i = choose|i: int| 0 <= i < before.len() && before[i] == x;
                    if ready.last() && !before.contains(candidates.last()) {
                        assert(cur[i] == x);
                    }
                } else {
                    assert(cur[before.len() as int] == x);
                }
            }
        }
    } else {
        assert(pending.take(pending.len() as int) =~= pending);
    }
}

/// Bullet slots waiting to split, oldest first, and how many may split
/// per frame.
#[derive(Debug)]
pub struct SplitQueue {
    pending: Vec<usize>,
    batch_size: usize,
}

impl SplitQueue {
    /// The queued slots, oldest first.
    pub closed spec fn pending(&self) -> Seq<usize> {
        self.pending@
    }

    /// How many queued slots may split per frame.
    pub closed spec fn batch(&self) -> nat {
        self.batch_size as nat
    }

    /// Each slot is queued once, and at least one split goes through per
    /// frame, so the queue cannot stall.
    #[verifier::type_invariant]
    pub closed spec fn wf(self) -> bool {
        self.batch_size >= 1 && self.pending@.no_duplicates()
    }

    /// An empty queue with the default batch size.
    pub fn new() -> (q: SplitQueue)
        ensures
            q.pending() == Seq::<usize>::empty(),
            q.batch() == DEFAULT_SPLIT_BATCH_SIZE,
    {
        SplitQueue { pending: Vec::new(), batch_size: DEFAULT_SPLIT_BATCH_SIZE }
    }

    /// Sets how many splits go through per frame: `size`, but at least one.
    pub fn set_fractal_batch_size(&mut self, size: usize)
        ensures
            final(self).batch() == if size >= 1 { size as nat } else { 1 },
            final(self).pending() == old(self).pending(),
    {
        proof {
            use_type_invariant(&*self);
        }
        self.batch_size = if size >= 1 { size } else { 1 };
    }

    /// How many splits go through per frame (at least one).
    pub fn fractal_batch_size(&self) -> (n: usize)
        ensures
            n == self.batch(),
            n >= 1,
    {
        proof {
            use_type_invariant(self);
        }
        self.batch_size
    }

    /// Number of slots waiting to split.
    pub fn pending_split_count(&self) -> (n: usize)
        ensures
            n == self.pending().len(),
    {
        self.pending.len()
    }

    /// Drops the queued slots that no longer hold an active bullet
    /// (`active` holds one flag per slot); the others keep their order.
    pub fn retain_active(&mut self, active: &Vec<bool>)
        ensures
            final(self).batch() == old(self).batch(),
            final(self).pending() == old(self).pending().filter(|i: usize| slot_active(active@, i)),
    {
        proof {
            use_type_invariant(&*self);
        }
        let ghost pred = |i: usize| slot_active(active@, i);
        let ghost src = self.pending@;
        let mut kept: Vec<usize> = Vec::new();
        let mut k: usize = 0;
        while k < self.pending.len()
            invariant
                self.pending@ == src,
                src.no_duplicates(),
                k <= src.len(),
                pred == (|i: usize| slot_active(active@, i)),
                kept@ == src.take(k as int).filter(pred),
                forall|j: int| 0 <= j < kept@.len() ==> src.take(k as int).contains(#[trigger] kept@[j]),
                kept@.no_duplicates(),
            decreases src.len() - k,
        {
            let index = self.pending[k];
            let ghost prev = kept@;
            proof {
                assert(src.take(k + 1) =~= src.take(k as int).push(index));
                src.take(k as int).lemma_filter_push(index, pred);
                assert(!src.take(k as int).contains(index)) by {
                    if src.take(k as int).contains(index) {
                        let q = choose|q: int| 0 <= q < k && src.take(k as int)[q] == index;
                        assert(src[q] == src[k as int]);
                    }
                }
            }
            if index < active.len() && active[index] {
                kept.push(index);
                proof {
                    assert forall|j: int| 0 <= j < kept@.len() implies src.take(k + 1).contains(#[trigger] kept@[j]) by {
                        if j < prev.len() {
                            let q = choose|q: int| 0 <= q < k && src.take(k as int)[q] == prev[j];
                            assert(src.take(k + 1)[q] == prev[j]);
                        } else {
                            assert(src.take(k + 1)[k as int] == index);
                        }
                    }
                    assert forall|a: int, b: int| 0 <= a < b < kept@.len() implies kept@[a] != kept@[b] by {
                        if b == prev.len() {
                            assert(src.take(k as int).contains(prev[a]));
                        }
                    }
                }
            } else {
                proof {
                    assert forall|j: int| 0 <= j < kept@.len() implies src.take(k + 1).contains(#[trigger] kept@[j]) by {
                        let q = choose|q: int| 0 <= q < k && src.take(k as int)[q] == kept@[j];
                        assert(src.take(k + 1)[q] == kept@[j]);
                    }
                }
            }
            k = k + 1;
        }
        proof {
            assert(src.take(src.len() as int) =~= src);
        }
        self.pending = kept;
    }

    /// Offers the slots of `candidates` in order: each one whose `ready`
    /// flag is set joins the back of the queue unless it is queued already.
    pub fn enqueue_ready(&mut self, candidates: &Vec<usize>, ready: &Vec<bool>)
        requires
            ready@.len() == candidates@.len(),
        ensures
            final(self).batch() == old(self).batch(),
            final(self).pending() == enqueued(old(self).pending(), candidates@, ready@),
    {
        proof {
            use_type_invariant(&*self);
        }
        let mut pending: Vec<usize> = Vec::new();
        std::mem::swap(&mut pending, &mut self.pending);
        let mut k: usize = 0;
        while k < candidates.len()
            invariant
                pending@.no_duplicates(),
                ready@.len() == candidates@.len(),
                k <= candidates@.len(),
                pending@ == enqueued(old(self).pending(), candidates@.take(k as int), ready@.take(k as int)),
            decreases candidates@.len() - k,
        {
            let index = candidates[k];
            proof {
                assert(candidates@.take(k + 1).drop_last() =~= candidates@.take(k as int));
                assert(ready@.take(k + 1).drop_last() =~= ready@.take(k as int));
            }
            if ready[k] {
                let mut queued = false;
                let mut p: usize = 0;
                while p < pending.len()
                    invariant
                        p <= pending@.len(),
                        queued == exists|q: int| 0 <= q < p && pending@[q] == index,
                    decreases pending@.len() - p,
                {
                    if pending[p] == index {
                        queued = true;
                    }
                    p = p + 1;
                }
                proof {
                    if pending@.contains(index) {
                        let q = choose|q: int| 0 <= q < pending@.len() && pending@[q] == index;
                    }
                }
                if !queued {
                    let ghost prev = pending@;
                    pending.push(index);
                    proof {
                        assert forall|a: int, b: int| 0 <= a < b < pending@.len() implies pending@[a]
                            != pending@[b] by {
                            if b == prev.len() {
                                assert(prev.contains(prev[a]));
                            }
                        }
                    }
                }
            }
            k = k + 1;
        }
        proof {
            assert(candidates@.take(candidates@.len() as int) =~= candidates@);
            assert(ready@.take(ready@.len() as int) =~= ready@);
        }
        self.pending = pending;
    }

    /// Takes this frame's splits off the front of the queue: the oldest
    /// `batch` slots, or all of them when fewer wait.
    pub fn take_batch(&mut self) -> (r: Vec<usize>)
        ensures
            final(self).batch() == old(self).batch(),
            ({
                let n = if old(self).batch() <= old(self).pending().len() {
                    old(self).batch() as int
                } else {
                    old(self).pending().len() as int
                };
                &&& r@ == old(self).pending().take(n)
                &&& final(self).pending() == old(self).pending().skip(n)
            }),
            old(self).pending().len() > 0 ==> r@.len() > 0,
    {
        proof {
            use_type_invariant(&*self);
        }
        let n = if self.batch_size <= self.pending.len() { self.batch_size } else { self.pending.len() };
        let ghost src = self.pending@;
        let mut taken: Vec<usize> = Vec::new();
        let mut rest: Vec<usize> = Vec::new();
        let mut k: usize = 0;
        while k < self.pending.len()
            invariant
                self.pending@ == src,
                n <= src.len(),
                k <= src.len(),
                k <= n ==> taken@ == src.take(k as int) && rest@.len() == 0,
                k > n ==> taken@ == src.take(n as int) && rest@ == src.subrange(n as int, k as int),
            decreases src.len() - k,
        {
            let index = self.pending[k];
            if k < n {
                taken.push(index);
                proof {
                    assert(src.take(k + 1) =~= src.take(k as int).push(index));
                }
            } else {
                rest.push(index);
                proof {
                    assert(src.subrange(n as int, k + 1) =~= src.subrange(n as int, k as int).push(index));
                }
            }
            k = k + 1;
        }
        proof {
            if src.len() == n {
                assert(src.skip(n as int) =~= Seq::<usize>::empty());
            } else {
                assert(src.skip(n as int) =~= src.subrange(n as int, src.len() as int));
            }
            assert(rest@ =~= src.skip(n as int));
            assert forall|a: int, b: int| 0 <= a < b < rest@.len() implies rest@[a] != rest@[b] by {
                assert(rest@[a] == src[n + a]);
                assert(rest@[b] == src[n + b]);
            }
        }
        self.pending = rest;
        taken
    }
}

/// Number of children of the first `p` splits.
pub open spec fn children_before(child_counts: Seq<usize>, p: int) -> int
    decreases p,
{
    if p <= 0 {
        0
    } else {
        children_before(child_counts, p - 1) + child_counts[p - 1]
    }
}

/// One child of a split: which split of the batch it comes from, the
/// handed-out slot it takes and its entity id.
#[derive(Debug, Clone, Copy, PartialEq, Eq, Structural)]
pub struct SplitChild {
    pub parent: usize,
    pub slot: usize,
    pub entity_id: EntityId,
}

proof fn lemma_children_before_monotone(child_counts: Seq<usize>, p: int, q: int)
    requires
        0 <= p <= q <= child_counts.len(),
    ensures
        children_before(child_counts, p) <= children_before(child_counts, q),
    decreases q - p,
{
    if p < q {
        lemma_children_before_monotone(child_counts, p, q - 1);
    }
}

/// Pairs the children of a batch of splits (split `p` has
/// `child_counts[p]` children) with the slots handed out for them, in
/// order, and gives them consecutive entity ids from `next_entity_id`.
/// Children beyond the handed-out slots are skipped, but their ids stay
/// used. Returns the children and the next free entity id.
pub fn plan_split_children(child_counts: &Vec<usize>, slots: &Vec<usize>, next_entity_id: u32) -> (r: (
    Vec<SplitChild>,
    u32,
))
    requires
        next_entity_id + children_before(child_counts@, child_counts@.len() as int) <= u32::MAX,
    ensures
        ({
            let total = children_before(child_counts@, child_counts@.len() as int);
            &&& r.1 == next_entity_id + total
            &&& r.0@.len() == (if total <= slots@.len() { total } else { slots@.len() as int })
            &&& forall|k: int| 0 <= k < r.0@.len() ==> {
                &&& (#[trigger] r.0@[k]).slot == slots@[k]
                &&& r.0@[k].entity_id == EntityId((next_entity_id + k) as u32)
                &&& r.0@[k].parent < child_counts@.len()
                &&& children_before(child_counts@, r.0@[k].parent as int) <= k < children_before(
                    child_counts@,
                    r.0@[k].parent + 1,
                )
            }
        }),
{
    let ghost counts = child_counts@;
    let ghost total = children_before(counts, counts.len() as int);
    let mut children: Vec<SplitChild> = Vec::new();
    let mut start: u32 = next_entity_id;
    let mut acquired: usize = 0;
    let mut p: usize = 0;
    while p < child_counts.len()
        invariant
            counts == child_counts@,
            total == children_before(counts, counts.len() as int),
            next_entity_id + total <= u32::MAX,
            p <= counts.len(),
            start == next_entity_id + children_before(counts, p as int),
            acquired == (if children_before(counts, p as int) <= slots@.len() {
                children_before(counts, p as int)
            } else {
                slots@.len() as int
            }),
            children@.len() == acquired,
            forall|k: int| 0 <= k < children@.len() ==> {
                &&& (#[trigger] children@[k]).slot == slots@[k]
                &&& children@[k].entity_id == EntityId((next_entity_id + k) as u32)
                &&& children@[k].parent < p
                &&& children_before(counts, children@[k].parent as int) <= k < children_before(
                    counts,
                    children@[k].parent + 1,
                )
            },
        decreases counts.len() - p,
    {
        proof {
            lemma_children_before_monotone(counts, p + 1, counts.len() as int);
        }
        let count = child_counts[p];
        let mut i: usize = 0;
        while i < count
            invariant
                counts == child_counts@,
                next_entity_id + total <= u32::MAX,
                p < counts.len(),
                count == counts[p as int],
                children_before(counts, p + 1) <= total,
                i <= count,
                start == next_entity_id + children_before(counts, p as int),
                acquired == (if children_before(counts, p as int) + i <= slots@.len() {
                    children_before(counts, p as int) + i
                } else {
                    slots@.len() as int
                }),
                children@.len() == acquired,
                forall|k: int| 0 <= k < children@.len() ==> {
                    &&& (#[trigger] children@[k]).slot == slots@[k]
                    &&& children@[k].entity_id == EntityId((next_entity_id + k) as u32)
                    &&& children@[k].parent <= p
                    &&& children_before(counts, children@[k].parent as int) <= k < children_before(
                        counts,
                        children@[k].parent + 1,
                    )
                },
            decreases count - i,
        {
            if acquired < slots.len() {
                let child = SplitChild { parent: p, slot: slots[acquired], entity_id: EntityId(start + i as u32) };
                children.push(child);
                acquired = acquired + 1;
            }
            i = i + 1;
        }
        start = start + count as u32;
        p = p + 1;
    }
    (children, start)
}

} // verus!
