//! Bullet pool: slot bookkeeping for bullets and meta-bullets.
//!
//! Each kind of projectile lives in a pre-allocated array of slots.  A slot
//! is active (listed in the active list), free (on the free stack), or
//! handed out by a batch acquisition and not yet added to the active list;
//! acquiring pops the free stack, releasing pushes back onto it, and an
//! exhausted pool grows by doubling (or by a fixed step, whichever is
//! larger).
use vstd::prelude::*;

verus! {

/// Growth step of the bullet slots.
pub const BULLET_GROWTH_STEP: usize = 1000;

/// Growth step of the meta-bullet slots.
pub const METABULLET_GROWTH_STEP: usize = 500;

/// Capacity after growing from `capacity` with the given step: double, or
/// add the step, whichever is larger.
pub open spec fn grown_capacity(capacity: int, step: int) -> int {
    if 2 * capacity >= capacity + step {
        2 * capacity
    } else {
        capacity + step
    }
}

/// Slot numbers `from`, `from + 1`, ..., `to - 1`, in that order.
pub open spec fn slot_range(from: int, to: int) -> Seq<usize> {
    Seq::new((to - from) as nat, |k: int| (from + k) as usize)
}

/// `s` with position `p` overwritten by its last element, then shortened
/// by one (`Vec::swap_remove`).
pub open spec fn swap_removed(s: Seq<usize>, p: int) -> Seq<usize> {
    s.update(p, s.last()).drop_last()
}

/// Capacity of a pool of `capacity` slots, `free` of them free, after it
/// has grown (see `grown_capacity`) until at least `count` are free.
pub open spec fn batch_capacity(capacity: nat, free: nat, step: nat, count: nat) -> nat
    decreases (if free < count { count - free } else { 0 }),
{
    if free >= count || step == 0 {
        capacity
    } else {
        let grown = grown_capacity(capacity as int, step as int);
        batch_capacity(grown as nat, (free + grown - capacity) as nat, step, count)
    }
}

/// Growing takes the larger of doubling and adding the step: at least
/// both, and exactly one of them.
pub proof fn lemma_grown_capacity(capacity: int, step: int)
    ensures
        grown_capacity(capacity, step) >= 2 * capacity,
        grown_capacity(capacity, step) >= capacity + step,
        grown_capacity(capacity, step) == 2 * capacity || grown_capacity(capacity, step) == capacity + step,
{
}

/// A batch growth never shrinks the pool and, with a positive step,
/// leaves at least `count` slots free: the free ones plus the fresh ones.
pub proof fn lemma_batch_capacity_enough(capacity: nat, free: nat, step: nat, count: nat)
    requires
        step > 0,
    ensures
        batch_capacity(capacity, free, step, count) >= capacity,
        free + batch_capacity(capacity, free, step, count) - capacity >= count,
    decreases (if free < count { count - free } else { 0 }),
{
    if free < count {
        let grown = grown_capacity(capacity as int, step as int);
        lemma_batch_capacity_enough(grown as nat, (free + grown - capacity) as nat, step, count);
    }
}

/// Growing a pool of `capacity` slots, `free` of them free, until at least
/// `count` are free never overflows the slot count.
pub open spec fn batch_fits(capacity: nat, free: nat, step: nat, count: nat) -> bool
    decreases (if free < count { count - free } else { 0 }),
{
    if free >= count || step == 0 {
        true
    } else {
        let grown = grown_capacity(capacity as int, step as int);
        &&& 2 * capacity <= usize::MAX
        &&& capacity + step <= usize::MAX
        &&& batch_fits(grown as nat, (free + grown - capacity) as nat, step, count)
    }
}

/// The proved bookkeeping behind `SlotPool`.
#[derive(Debug, Clone)]
struct Slots {
    active_flags: Vec<bool>,
    active: Vec<usize>,
    free: Vec<usize>,
    max_used: usize,
    total_spawned: u64,
    growth_step: usize,
}

impl Slots {
    /// Exactly the active slots are listed, each once, in the active list;
    /// the free stack holds inactive slots, each once. An inactive slot
    /// off the free stack has been handed out by a batch acquisition.
    pub closed spec fn wf(&self) -> bool {
        &&& self.growth_step > 0
        &&& self.active@.no_duplicates()
        &&& self.free@.no_duplicates()
        &&& forall|i: int| 0 <= i < self.active@.len() ==> (#[trigger] self.active@[i]) < self.active_flags@.len()
            && self.active_flags@[self.active@[i] as int]
        &&& forall|i: int| 0 <= i < self.free@.len() ==> (#[trigger] self.free@[i]) < self.active_flags@.len()
            && !self.active_flags@[self.free@[i] as int]
        &&& forall|s: usize| #![trigger self.active_flags@[s as int]] s < self.active_flags@.len() ==> (
            self.active_flags@[s as int] ==> self.active@.contains(s))
        &&& self.max_used >= self.active@.len()
    }

    /// Number of slots.
    pub closed spec fn capacity(&self) -> nat {
        self.active_flags@.len()
    }

    /// Active slots, in list order.
    pub closed spec fn active_slots(&self) -> Seq<usize> {
        self.active@
    }

    /// Free slots, the top of the stack last.
    pub closed spec fn free_slots(&self) -> Seq<usize> {
        self.free@
    }

    /// Whether slot `s` is in use.
    pub closed spec fn is_active(&self, s: int) -> bool {
        self.active_flags@[s]
    }

    /// Largest number of slots ever active at once.
    pub closed spec fn spec_max_used(&self) -> nat {
        self.max_used as nat
    }

    /// Number of acquisitions so far.
    pub closed spec fn spec_total_spawned(&self) -> nat {
        self.total_spawned as nat
    }

    /// Slots added per growth (at least).
    pub closed spec fn step(&self) -> nat {
        self.growth_step as nat
    }

    /// Growing this pool cannot overflow the slot count.
    pub open spec fn can_grow(&self) -> bool {
        2 * self.capacity() <= usize::MAX && self.capacity() + self.step() <= usize::MAX
    }

    /// The free stack an acquisition pops from: the current one, or the
    /// fresh slots of a grown pool when it is empty.
    pub open spec fn stack_to_pop(&self) -> Seq<usize> {
        if self.free_slots().len() == 0 {
            slot_range(
                self.capacity() as int,
                grown_capacity(self.capacity() as int, self.step() as int),
            )
        } else {
            self.free_slots()
        }
    }

    /// Whether slot `s` was handed out by a batch acquisition and is not
    /// yet active: an existing slot, neither active nor free.
    pub open spec fn is_handed_out(&self, s: int) -> bool {
        0 <= s < self.capacity() && !self.is_active(s) && !self.free_slots().contains(s as usize)
    }

    /// A well-formed pool puts every slot in exactly one place: listed once
    /// as active, once on the free stack, or handed out.
    pub proof fn lemma_partition(&self, s: usize)
        requires
            self.wf(),
            s < self.capacity(),
        ensures
            self.is_active(s as int) <==> self.active_slots().contains(s),
            self.free_slots().contains(s) ==> !self.is_active(s as int),
            self.is_handed_out(s as int) <==> !self.active_slots().contains(s) && !self.free_slots().contains(s),
            self.active_slots().no_duplicates(),
            self.free_slots().no_duplicates(),
    {
        if self.active_slots().contains(s) {
            let i = choose|i: int| 0 <= i < self.active@.len() && self.active@[i] == s;
        }
        if self.free_slots().contains(s) {
            let i = choose|i: int| 0 <= i < self.free@.len() && self.free@[i] == s;
        }
    }

    /// A pool of `capacity` free slots growing by at least `growth_step`.
    pub fn new(capacity: usize, growth_step: usize) -> (p: Slots)
        requires
            growth_step > 0,
        ensures
            p.wf(),
            p.capacity() == capacity,
            p.active_slots().len() == 0,
            p.free_slots() == slot_range(0, capacity as int),
            p.spec_max_used() == 0,
            p.spec_total_spawned() == 0,
            p.step() == growth_step,
    {
        let mut pool = Slots {
            active_flags: Vec::new(),
            active: Vec::new(),
            free: Vec::new(),
            max_used: 0,
            total_spawned: 0,
            growth_step,
        };
        pool.add_free_slots(capacity);
        assert(pool.free@ =~= slot_range(0, capacity as int));
        pool
    }

    /// Appends slots up to `new_capacity`, all free, pushed in increasing
    /// order onto the free stack.
    fn add_free_slots(&mut self, new_capacity: usize)
        requires
            old(self).wf(),
            old(self).active_flags@.len() <= new_capacity,
        ensures
            final(self).wf(),
            final(self).active_flags@.len() == new_capacity,
            forall|s: int| 0 <= s < old(self).active_flags@.len() ==> final(self).active_flags@[s]
                == old(self).active_flags@[s],
            forall|s: int| old(self).active_flags@.len() <= s < new_capacity ==> !final(self).active_flags@[s],
            final(self).active@ == old(self).active@,
            final(self).free@ == old(self).free@ + slot_range(
                old(self).active_flags@.len() as int,
                new_capacity as int,
            ),
            final(self).max_used == old(self).max_used,
            final(self).total_spawned == old(self).total_spawned,
            final(self).growth_step == old(self).growth_step,
    {
        let ghost start = self.active_flags@.len() as int;
        let ghost old_free = self.free@;
        let ghost old_flags = self.active_flags@;
        let mut i = self.active_flags.len();
        while i < new_capacity
            invariant
                start == old(self).active_flags@.len(),
                start <= i <= new_capacity,
                self.active_flags@.len() == i,
                forall|s: int| 0 <= s < start ==> self.active_flags@[s] == old_flags[s],
                forall|s: int| start <= s < i ==> !self.active_flags@[s],
                self.active@ == old(self).active@,
                self.free@ == old_free + slot_range(start, i as int),
                self.max_used == old(self).max_used,
                self.total_spawned == old(self).total_spawned,
                self.growth_step == old(self).growth_step,
                self.wf(),
            decreases new_capacity - i,
        {
            let ghost prev_flags = self.active_flags@;
            proof {
                assert(!self.free@.contains(i)) by {
                    if self.free@.contains(i) {
                        let k = choose|k: int| 0 <= k < self.free@.len() && self.free@[k] == i;
                    }
                }
                assert(!self.active@.contains(i)) by {
                    if self.active@.contains(i) {
                        let k = choose|k: int| 0 <= k < self.active@.len() && self.active@[k] == i;
                    }
                }
            }
            self.active_flags.push(false);
            self.free.push(i);
            proof {
                assert(self.active_flags@ == prev_flags.push(false));
                assert forall|s: int| start <= s < i + 1 implies !self.active_flags@[s] by {
                    if s < i {
                        assert(prev_flags.push(false)[s] == prev_flags[s]);
                    }
                }
                assert(slot_range(start, i + 1) =~= slot_range(start, i as int).push(i));
                assert forall|s: usize| #![trigger self.active_flags@[s as int]] s < self.active_flags@.len()
                    implies (self.active_flags@[s as int] ==> self.active@.contains(s)) by {
                    if s < i {
                        assert(self.active_flags@[s as int] == prev_flags[s as int]);
                    }
                }
            }
            i = i + 1;
        }
    }

    /// Grows an exhausted pool: double the slots, or add the growth step,
    /// whichever is larger; the new slots go onto the free stack in
    /// increasing order.
    fn grow(&mut self)
        requires
            old(self).wf(),
            old(self).can_grow(),
        ensures
            final(self).wf(),
            final(self).capacity() == grown_capacity(old(self).capacity() as int, old(self).step() as int),
            forall|s: int| 0 <= s < old(self).capacity() ==> final(self).is_active(s) == old(self).is_active(s),
            forall|s: int| old(self).capacity() <= s < final(self).capacity() ==> !final(self).is_active(s),
            final(self).active_slots() == old(self).active_slots(),
            final(self).free_slots() == old(self).free_slots() + slot_range(
                old(self).capacity() as int,
                grown_capacity(old(self).capacity() as int, old(self).step() as int),
            ),
            final(self).spec_max_used() == old(self).spec_max_used(),
            final(self).spec_total_spawned() == old(self).spec_total_spawned(),
            final(self).step() == old(self).step(),
    {
        let current_size = self.active_flags.len();
        let doubled = current_size * 2;
        let stepped = current_size + self.growth_step;
        let new_size = if doubled >= stepped { doubled } else { stepped };
        self.add_free_slots(new_size);
    }

    /// Takes a free slot, growing the pool first when none is left, and
    /// marks it active.  Always succeeds.
    pub fn acquire(&mut self) -> (r: Option<usize>)
        requires
            old(self).wf(),
            old(self).free_slots().len() == 0 ==> old(self).can_grow(),
            old(self).spec_total_spawned() < u64::MAX,
        ensures
            final(self).wf(),
            r == Some(old(self).stack_to_pop().last()),
            old(self).stack_to_pop().len() > 0,
            final(self).free_slots() == old(self).stack_to_pop().drop_last(),
            final(self).active_slots() == old(self).active_slots().push(r->0),
            final(self).capacity() == (if old(self).free_slots().len() == 0 {
                grown_capacity(old(self).capacity() as int, old(self).step() as int)
            } else {
                old(self).capacity() as int
            }),
            final(self).is_active(r->0 as int),
            forall|s: int| 0 <= s < old(self).capacity() && s != r->0 ==> final(self).is_active(s)
                == old(self).is_active(s),
            final(self).spec_total_spawned() == old(self).spec_total_spawned() + 1,
            final(self).spec_max_used() == if old(self).spec_max_used() >= old(self).active_slots().len() + 1 {
                old(self).spec_max_used()
            } else {
                old(self).active_slots().len() + 1
            },
            final(self).step() == old(self).step(),
    {
        if self.free.len() == 0 {
            self.grow();
            proof {
                assert(self.free@ =~= old(self).stack_to_pop());
                let n = grown_capacity(old(self).capacity() as int, old(self).step() as int);
                assert(n > old(self).capacity());
                assert(self.free@.len() > 0);
            }
        }
        let ghost before = *self;
        let index = self.free.pop().unwrap();
        proof {
            assert(before.free@[before.free@.len() - 1] == index);
            assert(!before.active@.contains(index)) by {
                if before.active@.contains(index) {
                    let k = choose|k: int| 0 <= k < before.active@.len() && before.active@[k] == index;
                }
            }
        }
        self.active_flags.set(index, true);
        self.active.push(index);
        self.total_spawned = self.total_spawned + 1;
        if self.max_used < self.active.len() {
            self.max_used = self.active.len();
        }
        proof {
            assert(self.free@ =~= before.free@.drop_last());
            assert forall|s: usize| #![trigger self.active_flags@[s as int]] s < self.active_flags@.len()
                implies (self.active_flags@[s as int] ==> self.active@.contains(s)) by {
                if s == index {
                    assert(self.active@[self.active@.len() - 1] == s);
                } else {
                    assert(self.active_flags@[s as int] == before.active_flags@[s as int]);
                    if self.active_flags@[s as int] {
                        let k = choose|k: int| 0 <= k < before.active@.len() && before.active@[k] == s;
                        assert(self.active@[k] == s);
                    }
                }
            }
            assert forall|i: int| 0 <= i < self.free@.len() implies (#[trigger] self.free@[i]) < self.active_flags@.len()
                && !self.active_flags@[self.free@[i] as int] by {
                assert(self.free@[i] == before.free@[i]);
                assert(before.free@[i] != index);
            }
        }
        Some(index)
    }

    /// Returns an active slot to the free stack; a free or out-of-range
    /// slot is left as it is.
    pub fn release(&mut self, index: usize)
        requires
            old(self).wf(),
        ensures
            final(self).wf(),
            final(self).capacity() == old(self).capacity(),
            final(self).spec_max_used() == old(self).spec_max_used(),
            final(self).spec_total_spawned() == old(self).spec_total_spawned(),
            final(self).step() == old(self).step(),
            index < old(self).capacity() && old(self).is_active(index as int) ==> {
                &&& !final(self).is_active(index as int)
                &&& forall|s: int| 0 <= s < old(self).capacity() && s != index ==> final(self).is_active(s)
                    == old(self).is_active(s)
                &&& final(self).free_slots() == old(self).free_slots().push(index)
                &&& exists|p: int|
                    #![trigger swap_removed(old(self).active_slots(), p)]
                    0 <= p < old(self).active_slots().len() && old(self).active_slots()[p] == index
                        && final(self).active_slots() == swap_removed(old(self).active_slots(), p)
            },
            !(index < old(self).capacity() && old(self).is_active(index as int)) ==> *final(self)
                == *old(self),
    {
        if index < self.active_flags.len() && self.active_flags[index] {
            let ghost before = *self;
            proof {
                assert(before.active_flags@[index as int] ==> before.active@.contains(index));
            }
            let mut p: usize = 0;
            while p < self.active.len()
                invariant
                    *self == before,
                    p <= self.active@.len(),
                    self.active@.contains(index),
                    forall|j: int| 0 <= j < p ==> self.active@[j] != index,
                ensures
                    *self == before,
                    p < self.active@.len(),
                    self.active@[p as int] == index,
                decreases self.active@.len() - p,
            {
                if self.active[p] == index {
                    break;
                }
                p = p + 1;
            }
            self.active_flags.set(index, false);
            self.active.swap_remove(p);
            self.free.push(index);
            proof {
                let a = before.active@;
                assert(a[p as int] == index);
                assert(self.active@ == swap_removed(a, p as int));
                assert(self.active_slots() == swap_removed(old(self).active_slots(), p as int));
                assert(self.free@ == before.free@.push(index));
                assert forall|i: int| 0 <= i < self.active@.len() implies a.contains(#[trigger] self.active@[i])
                    && self.active@[i] != index by {
                    if i == p {
                        assert(self.active@[i] == a[a.len() - 1]);
                        assert(a.len() - 1 != p);
                    } else {
                        assert(self.active@[i] == a[i]);
                    }
                }
                assert(self.active@.no_duplicates()) by {
                    assert forall|i: int, j: int| 0 <= i < j < self.active@.len() implies self.active@[i]
                        != self.active@[j] by {
                        let ii = if i == p { a.len() - 1 } else { i };
                        let jj = if j == p { a.len() - 1 } else { j };
                        assert(self.active@[i] == a[ii]);
                        assert(self.active@[j] == a[jj]);
                        assert(ii != jj);
                    }
                }
                assert(!before.free@.contains(index)) by {
                    if before.free@.contains(index) {
                        let k = choose|k: int| 0 <= k < before.free@.len() && before.free@[k] == index;
                    }
                }
                assert forall|s: usize| #![trigger self.active_flags@[s as int]] s < self.active_flags@.len()
                    implies (self.active_flags@[s as int] ==> self.active@.contains(s)) by {
                    if s != index {
                        assert(self.active_flags@[s as int] == before.active_flags@[s as int]);
                        if self.active_flags@[s as int] {
                            let k = choose|k: int| 0 <= k < a.len() && a[k] == s;
                            if k == a.len() - 1 {
                                assert(self.active@[p as int] == s);
                            } else {
                                assert(k != p);
                                assert(self.active@[k] == s);
                            }
                        }
                    }
                }
                assert forall|i: int| 0 <= i < self.free@.len() implies (#[trigger] self.free@[i]) < self.active_flags@.len()
                    && !self.active_flags@[self.free@[i] as int] by {
                    if i < before.free@.len() {
                        assert(self.free@[i] == before.free@[i]);
                    }
                }
                assert forall|i: int| 0 <= i < self.active@.len() implies (#[trigger] self.active@[i]) < self.active_flags@.len()
                    && self.active_flags@[self.active@[i] as int] by {
                    let ii = if i == p { a.len() - 1 } else { i };
                    assert(self.active@[i] == a[ii]);
                }
            }
        }
    }

    /// The stack a batch acquisition of `count` slots pops from: the free
    /// stack, followed by the fresh slots of the growth it needs.
    pub open spec fn batch_stack(&self, count: nat) -> Seq<usize> {
        self.free_slots() + slot_range(
            self.capacity() as int,
            batch_capacity(self.capacity(), self.free_slots().len(), self.step(), count) as int,
        )
    }

    /// Hands out `count` free slots at once, growing the pool first until
    /// enough are free: the top of the free stack first. The slots are
    /// neither active nor free until `add_to_active` lists them.
    pub fn batch_acquire(&mut self, count: usize) -> (r: Vec<usize>)
        requires
            old(self).wf(),
            batch_fits(old(self).capacity(), old(self).free_slots().len(), old(self).step(), count as nat),
        ensures
            final(self).wf(),
            ({
                let stack = old(self).batch_stack(count as nat);
                &&& count <= stack.len()
                &&& r@.len() == count
                &&& forall|j: int| 0 <= j < count ==> r@[j] == #[trigger] stack[stack.len() - 1 - j]
                &&& final(self).free_slots() == stack.subrange(0, stack.len() - count)
            }),
            final(self).capacity() == batch_capacity(
                old(self).capacity(),
                old(self).free_slots().len(),
                old(self).step(),
                count as nat,
            ),
            forall|j: int| 0 <= j < count ==> final(self).is_handed_out(#[trigger] r@[j] as int),
            final(self).active_slots() == old(self).active_slots(),
            forall|s: int| 0 <= s < old(self).capacity() ==> final(self).is_active(s) == old(self).is_active(s),
            forall|s: int| old(self).capacity() <= s < final(self).capacity() ==> !final(self).is_active(s),
            final(self).spec_max_used() == old(self).spec_max_used(),
            final(self).spec_total_spawned() == old(self).spec_total_spawned(),
            final(self).step() == old(self).step(),
    {
        let ghost cap0 = old(self).capacity();
        let ghost target = batch_capacity(cap0, old(self).free_slots().len(), old(self).step(), count as nat);
        while self.free.len() < count
            invariant
                self.wf(),
                self.step() == old(self).step(),
                self.active_slots() == old(self).active_slots(),
                self.spec_max_used() == old(self).spec_max_used(),
                self.spec_total_spawned() == old(self).spec_total_spawned(),
                cap0 <= self.capacity(),
                forall|s: int| 0 <= s < cap0 ==> self.is_active(s) == old(self).is_active(s),
                forall|s: int| cap0 <= s < self.capacity() ==> !self.is_active(s),
                self.free_slots() == old(self).free_slots() + slot_range(cap0 as int, self.capacity() as int),
                batch_capacity(self.capacity(), self.free_slots().len(), self.step(), count as nat) == target,
                batch_fits(self.capacity(), self.free_slots().len(), self.step(), count as nat),
            decreases (if self.free@.len() < count { count - self.free@.len() } else { 0 }),
        {
            let ghost before = *self;
            self.grow();
            assert(self.free@.len() > before.free@.len());
            proof {
                assert forall|s: int| cap0 <= s < self.capacity() implies !self.is_active(s) by {
                    if s < before.capacity() {
                        assert(self.is_active(s) == before.is_active(s));
                    }
                }
                let g = grown_capacity(before.capacity() as int, before.step() as int);
                assert(slot_range(cap0 as int, before.capacity() as int) + slot_range(before.capacity() as int, g)
                    =~= slot_range(cap0 as int, g));
                assert(self.free_slots() =~= old(self).free_slots() + slot_range(cap0 as int, self.capacity() as int));
            }
        }
        let ghost stack = self.free@;
        proof {
            assert(stack =~= old(self).batch_stack(count as nat));
        }
        let mut indices: Vec<usize> = Vec::new();
        let mut k: usize = 0;
        while k < count
            invariant
                self.wf(),
                self.step() == old(self).step(),
                self.active_slots() == old(self).active_slots(),
                self.spec_max_used() == old(self).spec_max_used(),
                self.spec_total_spawned() == old(self).spec_total_spawned(),
                self.capacity() == target,
                forall|s: int| 0 <= s < cap0 ==> self.is_active(s) == old(self).is_active(s),
                forall|s: int| cap0 <= s < self.capacity() ==> !self.is_active(s),
                count <= stack.len(),
                k <= count,
                self.free@ == stack.subrange(0, stack.len() - k),
                indices@.len() == k,
                forall|j: int| 0 <= j < k ==> indices@[j] == #[trigger] stack[stack.len() - 1 - j],
                forall|i: int, j: int| 0 <= i < stack.len() && 0 <= j < stack.len() && i != j ==> stack[i] != stack[j],
                forall|i: int| 0 <= i < stack.len() ==> (#[trigger] stack[i]) < self.capacity() && !self.is_active(stack[i] as int),
            decreases count - k,
        {
            let ghost before = self.free@;
            let ghost pre = *self;
            let index = self.free.pop().unwrap();
            indices.push(index);
            proof {
                assert(self.active_flags@ == pre.active_flags@);
                assert forall|s: int| cap0 <= s < self.capacity() implies !self.is_active(s) by {
                    assert(!pre.is_active(s));
                }
                assert(before[before.len() - 1] == stack[stack.len() - 1 - k]);
                assert(self.free@ =~= stack.subrange(0, stack.len() - (k + 1)));
            }
            k = k + 1;
        }
        proof {
            assert forall|j: int| 0 <= j < count implies self.is_handed_out(#[trigger] indices@[j] as int) by {
                let t = stack.len() - 1 - j;
                assert(indices@[j] == stack[t]);
                if self.free@.contains(indices@[j]) {
                    let q = choose|q: int| 0 <= q < self.free@.len() && self.free@[q] == indices@[j];
                    assert(self.free@[q] == stack[q]);
                }
            }
        }
        indices
    }

    /// Lists a handed-out slot as active, its projectile having just been
    /// set up; a slot that is active already or does not exist is left
    /// alone. A free slot must not be given: it is still on the free stack.
    pub fn add_to_active(&mut self, index: usize)
        requires
            old(self).wf(),
            index < old(self).capacity() && !old(self).is_active(index as int) ==> old(self).is_handed_out(
                index as int,
            ),
        ensures
            final(self).wf(),
            final(self).capacity() == old(self).capacity(),
            final(self).free_slots() == old(self).free_slots(),
            final(self).spec_total_spawned() == old(self).spec_total_spawned(),
            final(self).step() == old(self).step(),
            index < old(self).capacity() && !old(self).is_active(index as int) ==> {
                &&& final(self).is_active(index as int)
                &&& final(self).active_slots() == old(self).active_slots().push(index)
                &&& forall|s: int| 0 <= s < old(self).capacity() && s != index ==> final(self).is_active(s)
                    == old(self).is_active(s)
                &&& final(self).spec_max_used() == if old(self).spec_max_used() >= old(self).active_slots().len() + 1 {
                    old(self).spec_max_used()
                } else {
                    old(self).active_slots().len() + 1
                }
            },
            !(index < old(self).capacity() && !old(self).is_active(index as int)) ==> *final(self)
                == *old(self),
    {
        if index < self.active_flags.len() && !self.active_flags[index] {
            let ghost before = *self;
            proof {
                assert(!before.active@.contains(index)) by {
                    if before.active@.contains(index) {
                        let k = choose|k: int| 0 <= k < before.active@.len() && before.active@[k] == index;
                    }
                }
            }
            self.active_flags.set(index, true);
            self.active.push(index);
            if self.max_used < self.active.len() {
                self.max_used = self.active.len();
            }
            proof {
                assert forall|s: usize| #![trigger self.active_flags@[s as int]] s < self.active_flags@.len()
                    implies (self.active_flags@[s as int] ==> self.active@.contains(s)) by {
                    if s == index {
                        assert(self.active@[self.active@.len() - 1] == s);
                    } else {
                        assert(self.active_flags@[s as int] == before.active_flags@[s as int]);
                        if self.active_flags@[s as int] {
                            let k = choose|k: int| 0 <= k < before.active@.len() && before.active@[k] == s;
                            assert(self.active@[k] == s);
                        }
                    }
                }
                assert forall|i: int| 0 <= i < self.free@.len() implies (#[trigger] self.free@[i]) < self.active_flags@.len()
                    && !self.active_flags@[self.free@[i] as int] by {
                    assert(self.free@[i] != index);
                }
            }
        }
    }

    /// The active slots, in list order.
    pub fn active_indices(&self) -> (r: &Vec<usize>)
        ensures
            r@ == self.active_slots(),
    {
        &self.active
    }

    /// Number of slots.
    pub fn len(&self) -> (n: usize)
        ensures
            n == self.capacity(),
    {
        self.active_flags.len()
    }

    /// Whether slot `index` exists and is in use.
    pub fn is_slot_active(&self, index: usize) -> (r: bool)
        ensures
            r == (index < self.capacity() && self.is_active(index as int)),
    {
        index < self.active_flags.len() && self.active_flags[index]
    }

    /// Largest number of slots ever active at once.
    pub fn max_used(&self) -> (n: usize)
        ensures
            n == self.spec_max_used(),
    {
        self.max_used
    }

    /// Number of acquisitions so far.
    pub fn total_spawned(&self) -> (n: u64)
        ensures
            n == self.spec_total_spawned(),
    {
        self.total_spawned
    }

    /// Releases every active slot whose projectile is no longer alive
    /// (`alive` holds one flag per slot) and returns the released slots in
    /// the order they were released.
    pub fn cleanup_dead(&mut self, alive: &Vec<bool>) -> (released: Vec<usize>)
        requires
            old(self).wf(),
            alive@.len() == old(self).capacity(),
        ensures
            final(self).wf(),
            final(self).capacity() == old(self).capacity(),
            final(self).spec_max_used() == old(self).spec_max_used(),
            final(self).spec_total_spawned() == old(self).spec_total_spawned(),
            final(self).step() == old(self).step(),
            released@.no_duplicates(),
            forall|s: usize| #[trigger] released@.contains(s) <==> old(self).active_slots().contains(s)
                && !alive@[s as int],
            forall|s: usize| #[trigger] final(self).active_slots().contains(s) <==> old(self).active_slots().contains(s) && alive@[s as int],
            final(self).free_slots() == old(self).free_slots() + released@,
            forall|s: usize| s < old(self).capacity() ==> #[trigger] final(self).is_active(s as int) == (old(self).is_active(s as int) && alive@[s as int]),
    {
        let mut released: Vec<usize> = Vec::new();
        let mut i: usize = 0;
        while i < self.active.len()
            invariant
                self.wf(),
                alive@.len() == self.capacity(),
                self.capacity() == old(self).capacity(),
                self.max_used == old(self).max_used,
                self.total_spawned == old(self).total_spawned,
                self.growth_step == old(self).growth_step,
                i <= self.active@.len(),
                forall|j: int| 0 <= j < i ==> alive@[#[trigger] self.active@[j] as int],
                released@.no_duplicates(),
                forall|s: usize| #[trigger] released@.contains(s) ==> old(self).active@.contains(s)
                    && !alive@[s as int] && !self.active@.contains(s),
                forall|s: usize| old(self).active@.contains(s) <==> (#[trigger] self.active@.contains(s)
                    || released@.contains(s)),
                self.free@ == old(self).free@ + released@,
                forall|s: usize| s < old(self).capacity() ==> #[trigger] self.active_flags@[s as int] == (old(self).active_flags@[s as int] && !released@.contains(s)),
            decreases self.active@.len() - i,
        {
            let index = self.active[i];
            if !alive[index] {
                let ghost before = *self;
                let ghost prev_released = released@;
                proof {
                    assert(index < self.active_flags@.len() && self.active_flags@[index as int]);
                }
                self.release(index);
                released.push(index);
                proof {
                    let p = choose|p: int|
                        #![trigger swap_removed(before.active_slots(), p)]
                        0 <= p < before.active_slots().len() && before.active_slots()[p] == index
                            && self.active_slots() == swap_removed(before.active_slots(), p);
                    assert(p == i);
                    let a = before.active@;
                    assert(released@ == prev_released.push(index));
                    broadcast use vstd::seq_lib::group_seq_properties;
                    assert forall|j: int| 0 <= j < i implies alive@[#[trigger] self.active@[j] as int] by {
                        assert(self.active@[j] == a[j]);
                    }
                    assert(!prev_released.contains(index));
                    assert forall|s: usize| #[trigger] self.active@.contains(s) implies a.contains(s) && s != index by {
                        let k = choose|k: int| 0 <= k < self.active@.len() && self.active@[k] == s;
                        let kk = if k == p { a.len() - 1 } else { k };
                        assert(self.active@[k] == a[kk]);
                        assert(kk != p);
                    }
                    assert forall|s: usize| a.contains(s) && s != index implies #[trigger] self.active@.contains(s) by {
                        let k = choose|k: int| 0 <= k < a.len() && a[k] == s;
                        if k == a.len() - 1 {
                            assert(self.active@[p] == s);
                        } else {
                            assert(self.active@[k] == s);
                        }
                    }
                    assert forall|s: usize| #[trigger] released@.contains(s) implies old(self).active@.contains(s)
                        && !alive@[s as int] && !self.active@.contains(s) by {
                        if s != index {
                            assert(prev_released.contains(s));
                        }
                    }
                    assert forall|s: usize| old(self).active@.contains(s) <==> (#[trigger] self.active@.contains(s)
                        || released@.contains(s)) by {
                        if s != index {
                            assert(released@.contains(s) == prev_released.contains(s));
                        } else {
                            assert(released@[released@.len() - 1] == s);
                        }
                    }
                    assert(self.free@ =~= old(self).free@ + released@);
                    assert forall|s: usize| s < old(self).capacity() implies #[trigger] self.active_flags@[s as int]
                        == (old(self).active_flags@[s as int] && !released@.contains(s)) by {
                        if s != index {
                            assert(released@.contains(s) == prev_released.contains(s));
                            assert(self.is_active(s as int) == before.is_active(s as int));
                            assert(self.active_flags@[s as int] == before.active_flags@[s as int]);
                        } else {
                            assert(released@[released@.len() - 1] == s);
                        }
                    }
                }
            } else {
                i = i + 1;
            }
        }
        proof {
            assert forall|s: usize| #[trigger] self.active@.contains(s) implies alive@[s as int] by {
                let k = choose|k: int| 0 <= k < self.active@.len() && self.active@[k] == s;
            }
            assert forall|s: usize| s < old(self).capacity() implies #[trigger] self.is_active(s as int) == (old(self).is_active(s as int) && alive@[s as int]) by {
                if released@.contains(s) {
                    assert(!alive@[s as int]);
                }
                if old(self).active_flags@[s as int] && !alive@[s as int] {
                    assert(old(self).active@.contains(s));
                    if self.active@.contains(s) {
                        assert(alive@[s as int]);
                    }
                }
            }
            assert forall|s: usize| old(self).active_slots().contains(s) && !alive@[s as int] implies #[trigger] released@.contains(s) by {
                if self.active@.contains(s) {
                    assert(alive@[s as int]);
                }
            }
        }
        released
    }
}

/// Bookkeeping of one kind of pooled projectile.
#[derive(Debug)]
pub struct SlotPool {
    slots: Slots,
}

impl SlotPool {
    /// Exactly the active slots are listed, each once, in the active list;
    /// the free stack holds inactive slots, each once. An inactive slot
    /// off the free stack has been handed out by a batch acquisition.
    #[verifier::type_invariant]
    pub closed spec fn wf(self) -> bool {
        self.slots.wf()
    }

    /// Number of slots.
    pub closed spec fn capacity(&self) -> nat {
        self.slots.capacity()
    }

    /// Active slots, in list order.
    pub closed spec fn active_slots(&self) -> Seq<usize> {
        self.slots.active_slots()
    }

    /// Free slots, the top of the stack last.
    pub closed spec fn free_slots(&self) -> Seq<usize> {
        self.slots.free_slots()
    }

    /// Whether slot `s` is in use.
    pub closed spec fn is_active(&self, s: int) -> bool {
        self.slots.is_active(s)
    }

    /// Largest number of slots ever active at once.
    pub closed spec fn spec_max_used(&self) -> nat {
        self.slots.spec_max_used()
    }

    /// Number of acquisitions so far.
    pub closed spec fn spec_total_spawned(&self) -> nat {
        self.slots.spec_total_spawned()
    }

    /// Slots added per growth (at least).
    pub closed spec fn step(&self) -> nat {
        self.slots.step()
    }

    /// Growing this pool cannot overflow the slot count.
    pub open spec fn can_grow(&self) -> bool {
        2 * self.capacity() <= usize::MAX && self.capacity() + self.step() <= usize::MAX
    }

    /// The free stack an acquisition pops from: the current one, or the
    /// fresh slots of a grown pool when it is empty.
    pub open spec fn stack_to_pop(&self) -> Seq<usize> {
        if self.free_slots().len() == 0 {
            slot_range(
                self.capacity() as int,
                grown_capacity(self.capacity() as int, self.step() as int),
            )
        } else {
            self.free_slots()
        }
    }

    /// Whether slot `s` was handed out by a batch acquisition and is not
    /// yet active: an existing slot, neither active nor free.
    pub open spec fn is_handed_out(&self, s: int) -> bool {
        0 <= s < self.capacity() && !self.is_active(s) && !self.free_slots().contains(s as usize)
    }

    /// The stack a batch acquisition of `count` slots pops from: the free
    /// stack, followed by the fresh slots of the growth it needs.
    pub open spec fn batch_stack(&self, count: nat) -> Seq<usize> {
        self.free_slots() + slot_range(
            self.capacity() as int,
            batch_capacity(self.capacity(), self.free_slots().len(), self.step(), count) as int,
        )
    }

    /// A well-formed pool puts every slot in exactly one place: listed once
    /// as active, once on the free stack, or handed out.
    pub proof fn lemma_partition(&self, s: usize)
        requires
            self.wf(),
            s < self.capacity(),
        ensures
            self.is_active(s as int) <==> self.active_slots().contains(s),
            self.free_slots().contains(s) ==> !self.is_active(s as int),
            self.is_handed_out(s as int) <==> !self.active_slots().contains(s) && !self.free_slots().contains(s),
            self.active_slots().no_duplicates(),
            self.free_slots().no_duplicates(),
    {
        self.slots.lemma_partition(s);
    }

    /// A pool of `capacity` free slots growing by at least `growth_step`.
    pub fn new(capacity: usize, growth_step: usize) -> (p: SlotPool)
        requires
            growth_step > 0,
        ensures
            p.capacity() == capacity,
            p.active_slots().len() == 0,
            p.free_slots() == slot_range(0, capacity as int),
            p.spec_max_used() == 0,
            p.spec_total_spawned() == 0,
            p.step() == growth_step,
    {
        SlotPool { slots: Slots::new(capacity, growth_step) }
    }

    /// Takes a free slot, growing the pool first when none is left, and
    /// marks it active.  Always succeeds.
    pub fn acquire(&mut self) -> (r: Option<usize>)
        requires
            old(self).free_slots().len() == 0 ==> old(self).can_grow(),
            old(self).spec_total_spawned() < u64::MAX,
        ensures
            r == Some(old(self).stack_to_pop().last()),
            old(self).stack_to_pop().len() > 0,
            final(self).free_slots() == old(self).stack_to_pop().drop_last(),
            final(self).active_slots() == old(self).active_slots().push(r->0),
            final(self).capacity() == (if old(self).free_slots().len() == 0 {
                grown_capacity(old(self).capacity() as int, old(self).step() as int)
            } else {
                old(self).capacity() as int
            }),
            final(self).is_active(r->0 as int),
            forall|s: int| 0 <= s < old(self).capacity() && s != r->0 ==> final(self).is_active(s)
                == old(self).is_active(s),
            final(self).spec_total_spawned() == old(self).spec_total_spawned() + 1,
            final(self).spec_max_used() == if old(self).spec_max_used() >= old(self).active_slots().len() + 1 {
                old(self).spec_max_used()
            } else {
                old(self).active_slots().len() + 1
            },
            final(self).step() == old(self).step(),
    {
        proof {
            use_type_invariant(&*self);
        }
        let mut inner = Slots::new(0, 1);
        std::mem::swap(&mut inner, &mut self.slots);
        let r = inner.acquire();
        self.slots = inner;
        r
    }

    /// Returns an active slot to the free stack; a free or out-of-range
    /// slot is left as it is.
    pub fn release(&mut self, index: usize)
        ensures
            final(self).capacity() == old(self).capacity(),
            final(self).spec_max_used() == old(self).spec_max_used(),
            final(self).spec_total_spawned() == old(self).spec_total_spawned(),
            final(self).step() == old(self).step(),
            index < old(self).capacity() && old(self).is_active(index as int) ==> {
                &&& !final(self).is_active(index as int)
                &&& forall|s: int| 0 <= s < old(self).capacity() && s != index ==> final(self).is_active(s)
                    == old(self).is_active(s)
                &&& final(self).free_slots() == old(self).free_slots().push(index)
                &&& exists|p: int|
                    #![trigger swap_removed(old(self).active_slots(), p)]
                    0 <= p < old(self).active_slots().len() && old(self).active_slots()[p] == index
                        && final(self).active_slots() == swap_removed(old(self).active_slots(), p)
            },
            !(index < old(self).capacity() && old(self).is_active(index as int)) ==> *final(self)
                == *old(self),
    {
        proof {
            use_type_invariant(&*self);
        }
        let mut inner = Slots::new(0, 1);
        std::mem::swap(&mut inner, &mut self.slots);
        let ghost pre = inner;
        inner.release(index);
        proof {
            if index < pre.capacity() && pre.is_active(index as int) {
                let p = choose|p: int|
                    #![trigger swap_removed(pre.active_slots(), p)]
                    0 <= p < pre.active_slots().len() && pre.active_slots()[p] == index
                        && inner.active_slots() == swap_removed(pre.active_slots(), p);
                assert(swap_removed(old(self).active_slots(), p) == inner.active_slots());
            }
        }
        self.slots = inner;
    }

    /// Hands out `count` free slots at once, growing the pool first until
    /// enough are free: the top of the free stack first. The slots are
    /// neither active nor free until `add_to_active` lists them.
    pub fn batch_acquire(&mut self, count: usize) -> (r: Vec<usize>)
        requires
            batch_fits(old(self).capacity(), old(self).free_slots().len(), old(self).step(), count as nat),
        ensures
            ({
                let stack = old(self).batch_stack(count as nat);
                &&& count <= stack.len()
                &&& r@.len() == count
                &&& forall|j: int| 0 <= j < count ==> r@[j] == #[trigger] stack[stack.len() - 1 - j]
                &&& final(self).free_slots() == stack.subrange(0, stack.len() - count)
            }),
            final(self).capacity() == batch_capacity(
                old(self).capacity(),
                old(self).free_slots().len(),
                old(self).step(),
                count as nat,
            ),
            forall|j: int| 0 <= j < count ==> final(self).is_handed_out(#[trigger] r@[j] as int),
            final(self).active_slots() == old(self).active_slots(),
            forall|s: int| 0 <= s < old(self).capacity() ==> final(self).is_active(s) == old(self).is_active(s),
            forall|s: int| old(self).capacity() <= s < final(self).capacity() ==> !final(self).is_active(s),
            final(self).spec_max_used() == old(self).spec_max_used(),
            final(self).spec_total_spawned() == old(self).spec_total_spawned(),
            final(self).step() == old(self).step(),
    {
        proof {
            use_type_invariant(&*self);
        }
        let mut inner = Slots::new(0, 1);
        std::mem::swap(&mut inner, &mut self.slots);
        let r = inner.batch_acquire(count);
        self.slots = inner;
        r
    }

    /// Lists a handed-out slot as active, its projectile having just been
    /// set up; a slot that is active already or does not exist is left
    /// alone. A free slot must not be given: it is still on the free stack.
    pub fn add_to_active(&mut self, index: usize)
        requires
            index < old(self).capacity() && !old(self).is_active(index as int) ==> old(self).is_handed_out(
                index as int,
            ),
        ensures
            final(self).capacity() == old(self).capacity(),
            final(self).free_slots() == old(self).free_slots(),
            final(self).spec_total_spawned() == old(self).spec_total_spawned(),
            final(self).step() == old(self).step(),
            index < old(self).capacity() && !old(self).is_active(index as int) ==> {
                &&& final(self).is_active(index as int)
                &&& final(self).active_slots() == old(self).active_slots().push(index)
                &&& forall|s: int| 0 <= s < old(self).capacity() && s != index ==> final(self).is_active(s)
                    == old(self).is_active(s)
                &&& final(self).spec_max_used() == if old(self).spec_max_used() >= old(self).active_slots().len() + 1 {
                    old(self).spec_max_used()
                } else {
                    old(self).active_slots().len() + 1
                }
            },
            !(index < old(self).capacity() && !old(self).is_active(index as int)) ==> *final(self)
                == *old(self),
    {
        proof {
            use_type_invariant(&*self);
        }
        let mut inner = Slots::new(0, 1);
        std::mem::swap(&mut inner, &mut self.slots);
        inner.add_to_active(index);
        self.slots = inner;
    }

    /// Releases every active slot whose projectile is no longer alive
    /// (`alive` holds one flag per slot) and returns the released slots in
    /// the order they were released.
    pub fn cleanup_dead(&mut self, alive: &Vec<bool>) -> (released: Vec<usize>)
        requires
            alive@.len() == old(self).capacity(),
        ensures
            final(self).capacity() == old(self).capacity(),
            final(self).spec_max_used() == old(self).spec_max_used(),
            final(self).spec_total_spawned() == old(self).spec_total_spawned(),
            final(self).step() == old(self).step(),
            released@.no_duplicates(),
            forall|s: usize| #[trigger] released@.contains(s) <==> old(self).active_slots().contains(s)
                && !alive@[s as int],
            forall|s: usize| #[trigger] final(self).active_slots().contains(s) <==> old(self).active_slots().contains(s) && alive@[s as int],
            final(self).free_slots() == old(self).free_slots() + released@,
            forall|s: usize| s < old(self).capacity() ==> #[trigger] final(self).is_active(s as int) == (old(self).is_active(s as int) && alive@[s as int]),
    {
        proof {
            use_type_invariant(&*self);
        }
        let mut inner = Slots::new(0, 1);
        std::mem::swap(&mut inner, &mut self.slots);
        let r = inner.cleanup_dead(alive);
        self.slots = inner;
        r
    }

    /// The active slots, in list order.
    pub fn active_indices(&self) -> (r: &Vec<usize>)
        ensures
            r@ == self.active_slots(),
    {
        self.slots.active_indices()
    }

    /// Number of slots.
    pub fn len(&self) -> (n: usize)
        ensures
            n == self.capacity(),
    {
        self.slots.len()
    }

    /// Whether slot `index` exists and is in use.
    pub fn is_slot_active(&self, index: usize) -> (r: bool)
        ensures
            r == (index < self.capacity() && self.is_active(index as int)),
    {
        self.slots.is_slot_active(index)
    }

    /// Largest number of slots ever active at once.
    pub fn max_used(&self) -> (n: usize)
        ensures
            n == self.spec_max_used(),
    {
        self.slots.max_used()
    }

    /// Number of acquisitions so far.
    pub fn total_spawned(&self) -> (n: u64)
        ensures
            n == self.spec_total_spawned(),
    {
        self.slots.total_spawned()
    }
}

/// Releasing the slot an acquisition just took restores the active list
/// and the free stack as they were: the acquired slot is the last one
/// listed, so removing it swaps nothing, and pushing it back onto the
/// free stack undoes the pop.
pub proof fn lemma_acquire_then_release(active: Seq<usize>, free: Seq<usize>)
    requires
        free.len() > 0,
        active.no_duplicates(),
        !active.contains(free.last()),
    ensures
        ({
            let t = free.last();
            let listed = active.push(t);
            &&& forall|p: int|
                0 <= p < listed.len() && listed[p] == t ==> p == active.len() && #[trigger] swap_removed(
                    listed,
                    p,
                ) == active
            &&& free.drop_last().push(t) == free
        }),
{
    let t = free.last();
    let listed = active.push(t);
    assert forall|p: int|
        0 <= p < listed.len() && listed[p] == t implies p == active.len() && #[trigger] swap_removed(
            listed,
            p,
        ) == active by {
        if p < active.len() {
            assert(active[p] == t);
        }
        assert(swap_removed(listed, p) =~= active);
    }
    assert(free.drop_last().push(t) =~= free);
}

/// Occupancy figures of a bullet pool.
#[derive(Debug, Clone, Copy, PartialEq, Eq, Structural)]
pub struct PoolStats {
    pub active_bullets: usize,
    pub total_bullets: usize,
    pub active_metabullets: usize,
    pub total_metabullets: usize,
    pub max_bullets_used: usize,
    pub max_metabullets_used: usize,
    pub total_bullets_spawned: u64,
    pub total_metabullets_spawned: u64,
}

/// Bullet pool for high-performance bullet management: slot bookkeeping
/// for regular bullets and for meta-bullets.
#[derive(Debug)]
pub struct BulletPool {
    bullets: SlotPool,
    metabullets: SlotPool,
}

impl BulletPool {
    /// Slots of regular bullets.
    pub closed spec fn bullet_slots(&self) -> SlotPool {
        self.bullets
    }

    /// Slots of meta-bullets.
    pub closed spec fn metabullet_slots(&self) -> SlotPool {
        self.metabullets
    }

    /// A pool with the given numbers of free slots.
    pub fn new(bullet_capacity: usize, metabullet_capacity: usize) -> (p: BulletPool)
        ensures
            p.bullet_slots().capacity() == bullet_capacity,
            p.metabullet_slots().capacity() == metabullet_capacity,
            p.bullet_slots().active_slots().len() == 0,
            p.metabullet_slots().active_slots().len() == 0,
            p.bullet_slots().free_slots() == slot_range(0, bullet_capacity as int),
            p.metabullet_slots().free_slots() == slot_range(0, metabullet_capacity as int),
            p.bullet_slots().step() == BULLET_GROWTH_STEP,
            p.metabullet_slots().step() == METABULLET_GROWTH_STEP,
            p.bullet_slots().spec_total_spawned() == 0,
            p.metabullet_slots().spec_total_spawned() == 0,
            p.bullet_slots().spec_max_used() == 0,
            p.metabullet_slots().spec_max_used() == 0,
    {
        BulletPool {
            bullets: SlotPool::new(bullet_capacity, BULLET_GROWTH_STEP),
            metabullets: SlotPool::new(metabullet_capacity, METABULLET_GROWTH_STEP),
        }
    }

    /// Takes a bullet slot (see `SlotPool::acquire`); the meta-bullet
    /// slots are untouched.
    pub fn acquire_bullet(&mut self) -> (r: Option<usize>)
        requires
            old(self).bullet_slots().free_slots().len() == 0 ==> old(self).bullet_slots().can_grow(),
            old(self).bullet_slots().spec_total_spawned() < u64::MAX,
        ensures
            final(self).metabullet_slots() == old(self).metabullet_slots(),
            r == Some(old(self).bullet_slots().stack_to_pop().last()),
            final(self).bullet_slots().free_slots() == old(self).bullet_slots().stack_to_pop().drop_last(),
            final(self).bullet_slots().active_slots() == old(self).bullet_slots().active_slots().push(r->0),
            final(self).bullet_slots().is_active(r->0 as int),
            final(self).bullet_slots().spec_total_spawned() == old(self).bullet_slots().spec_total_spawned() + 1,
    {
        self.bullets.acquire()
    }

    /// Takes a meta-bullet slot (see `SlotPool::acquire`); the bullet
    /// slots are untouched.
    pub fn acquire_metabullet(&mut self) -> (r: Option<usize>)
        requires
            old(self).metabullet_slots().free_slots().len() == 0 ==> old(self).metabullet_slots().can_grow(),
            old(self).metabullet_slots().spec_total_spawned() < u64::MAX,
        ensures
            final(self).bullet_slots() == old(self).bullet_slots(),
            r == Some(old(self).metabullet_slots().stack_to_pop().last()),
            final(self).metabullet_slots().free_slots() == old(self).metabullet_slots().stack_to_pop().drop_last(),
            final(self).metabullet_slots().active_slots() == old(self).metabullet_slots().active_slots().push(
                r->0,
            ),
            final(self).metabullet_slots().is_active(r->0 as int),
            final(self).metabullet_slots().spec_total_spawned() == old(self).metabullet_slots().spec_total_spawned() + 1,
    {
        self.metabullets.acquire()
    }

    /// Returns a bullet slot to the pool when it is active (see
    /// `SlotPool::release`).
    pub fn release_bullet(&mut self, index: usize)
        ensures
            final(self).metabullet_slots() == old(self).metabullet_slots(),
            index < old(self).bullet_slots().capacity() && old(self).bullet_slots().is_active(index as int)
                ==> !final(self).bullet_slots().is_active(index as int) && final(self).bullet_slots().free_slots() == old(self).bullet_slots().free_slots().push(index),
            !(index < old(self).bullet_slots().capacity() && old(self).bullet_slots().is_active(
                index as int,
            )) ==> final(self).bullet_slots() == old(self).bullet_slots(),
    {
        self.bullets.release(index);
    }

    /// Returns a meta-bullet slot to the pool when it is active (see
    /// `SlotPool::release`).
    pub fn release_metabullet(&mut self, index: usize)
        ensures
            final(self).bullet_slots() == old(self).bullet_slots(),
            index < old(self).metabullet_slots().capacity() && old(self).metabullet_slots().is_active(
                index as int,
            ) ==> !final(self).metabullet_slots().is_active(index as int) && final(self).metabullet_slots().free_slots() == old(self).metabullet_slots().free_slots().push(index),
            !(index < old(self).metabullet_slots().capacity() && old(self).metabullet_slots().is_active(
                index as int,
            )) ==> final(self).metabullet_slots() == old(self).metabullet_slots(),
    {
        self.metabullets.release(index);
    }

    /// Hands out `count` bullet slots at once for the children of fractal
    /// splits (see `SlotPool::batch_acquire`); the meta-bullet slots are
    /// untouched.
    pub fn batch_acquire_fractal_bullets(&mut self, count: usize) -> (r: Vec<usize>)
        requires
            batch_fits(
                old(self).bullet_slots().capacity(),
                old(self).bullet_slots().free_slots().len(),
                old(self).bullet_slots().step(),
                count as nat,
            ),
        ensures
            final(self).metabullet_slots() == old(self).metabullet_slots(),
            ({
                let stack = old(self).bullet_slots().batch_stack(count as nat);
                &&& count <= stack.len()
                &&& r@.len() == count
                &&& forall|j: int| 0 <= j < count ==> r@[j] == #[trigger] stack[stack.len() - 1 - j]
                &&& final(self).bullet_slots().free_slots() == stack.subrange(0, stack.len() - count)
            }),
            forall|j: int| 0 <= j < count ==> final(self).bullet_slots().is_handed_out(#[trigger] r@[j] as int),
            final(self).bullet_slots().active_slots() == old(self).bullet_slots().active_slots(),
            final(self).bullet_slots().spec_total_spawned() == old(self).bullet_slots().spec_total_spawned(),
    {
        self.bullets.batch_acquire(count)
    }

    /// Lists a handed-out bullet slot as active (see
    /// `SlotPool::add_to_active`); the meta-bullet slots are untouched.
    pub fn add_to_active_bullets(&mut self, index: usize)
        requires
            index < old(self).bullet_slots().capacity() && !old(self).bullet_slots().is_active(index as int)
                ==> old(self).bullet_slots().is_handed_out(index as int),
        ensures
            final(self).metabullet_slots() == old(self).metabullet_slots(),
            final(self).bullet_slots().free_slots() == old(self).bullet_slots().free_slots(),
            index < old(self).bullet_slots().capacity() && !old(self).bullet_slots().is_active(index as int)
                ==> final(self).bullet_slots().is_active(index as int)
                && final(self).bullet_slots().active_slots() == old(self).bullet_slots().active_slots().push(index),
            !(index < old(self).bullet_slots().capacity() && !old(self).bullet_slots().is_active(index as int))
                ==> final(self).bullet_slots() == old(self).bullet_slots(),
    {
        self.bullets.add_to_active(index);
    }

    /// Lists a handed-out meta-bullet slot as active (see
    /// `SlotPool::add_to_active`); the bullet slots are untouched.
    pub fn add_to_active_metabullets(&mut self, index: usize)
        requires
            index < old(self).metabullet_slots().capacity() && !old(self).metabullet_slots().is_active(index as int)
                ==> old(self).metabullet_slots().is_handed_out(index as int),
        ensures
            final(self).bullet_slots() == old(self).bullet_slots(),
            final(self).metabullet_slots().free_slots() == old(self).metabullet_slots().free_slots(),
            index < old(self).metabullet_slots().capacity() && !old(self).metabullet_slots().is_active(index as int)
                ==> final(self).metabullet_slots().is_active(index as int)
                && final(self).metabullet_slots().active_slots() == old(self).metabullet_slots().active_slots().push(
                index,
            ),
            !(index < old(self).metabullet_slots().capacity() && !old(self).metabullet_slots().is_active(
                index as int,
            )) ==> final(self).metabullet_slots() == old(self).metabullet_slots(),
    {
        self.metabullets.add_to_active(index);
    }

    /// The active bullet slots.
    pub fn active_bullet_indices(&self) -> (r: &Vec<usize>)
        ensures
            r@ == self.bullet_slots().active_slots(),
    {
        self.bullets.active_indices()
    }

    /// The active meta-bullet slots.
    pub fn active_metabullet_indices(&self) -> (r: &Vec<usize>)
        ensures
            r@ == self.metabullet_slots().active_slots(),
    {
        self.metabullets.active_indices()
    }

    /// Whether bullet slot `index` exists and is in use.
    pub fn is_bullet_active(&self, index: usize) -> (r: bool)
        ensures
            r == (index < self.bullet_slots().capacity() && self.bullet_slots().is_active(index as int)),
    {
        self.bullets.is_slot_active(index)
    }

    /// Whether meta-bullet slot `index` exists and is in use.
    pub fn is_metabullet_active(&self, index: usize) -> (r: bool)
        ensures
            r == (index < self.metabullet_slots().capacity() && self.metabullet_slots().is_active(
                index as int,
            )),
    {
        self.metabullets.is_slot_active(index)
    }

    /// Releases every bullet and meta-bullet that is no longer alive
    /// (one flag per slot of each kind); returns the released bullet slots
    /// and the released meta-bullet slots, each in release order.
    pub fn cleanup_dead_bullets(&mut self, bullet_alive: &Vec<bool>, metabullet_alive: &Vec<bool>) -> (r: (
        Vec<usize>,
        Vec<usize>,
    ))
        requires
            bullet_alive@.len() == old(self).bullet_slots().capacity(),
            metabullet_alive@.len() == old(self).metabullet_slots().capacity(),
        ensures
            forall|s: usize| #[trigger] r.0@.contains(s) <==> old(self).bullet_slots().active_slots().contains(s)
                && !bullet_alive@[s as int],
            forall|s: usize| #[trigger] r.1@.contains(s) <==> old(self).metabullet_slots().active_slots().contains(
                s,
            ) && !metabullet_alive@[s as int],
            forall|s: usize| #[trigger] final(self).bullet_slots().active_slots().contains(s) <==> old(self).bullet_slots().active_slots().contains(s) && bullet_alive@[s as int],
            forall|s: usize| #[trigger] final(self).metabullet_slots().active_slots().contains(s) <==> old(self).metabullet_slots().active_slots().contains(s) && metabullet_alive@[s as int],
            final(self).bullet_slots().free_slots() == old(self).bullet_slots().free_slots() + r.0@,
            final(self).metabullet_slots().free_slots() == old(self).metabullet_slots().free_slots() + r.1@,
            r.0@.no_duplicates(),
            r.1@.no_duplicates(),
            final(self).bullet_slots().capacity() == old(self).bullet_slots().capacity(),
            final(self).metabullet_slots().capacity() == old(self).metabullet_slots().capacity(),
            final(self).bullet_slots().step() == old(self).bullet_slots().step(),
            final(self).metabullet_slots().step() == old(self).metabullet_slots().step(),
            final(self).bullet_slots().spec_max_used() == old(self).bullet_slots().spec_max_used(),
            final(self).metabullet_slots().spec_max_used() == old(self).metabullet_slots().spec_max_used(),
            final(self).bullet_slots().spec_total_spawned() == old(self).bullet_slots().spec_total_spawned(),
            final(self).metabullet_slots().spec_total_spawned() == old(self).metabullet_slots().spec_total_spawned(),
            forall|s: usize| s < old(self).bullet_slots().capacity() ==> #[trigger] final(self).bullet_slots().is_active(s as int)
                == (old(self).bullet_slots().is_active(s as int) && bullet_alive@[s as int]),
            forall|s: usize| s < old(self).metabullet_slots().capacity() ==> #[trigger] final(self).metabullet_slots().is_active(
                s as int,
            ) == (old(self).metabullet_slots().is_active(s as int) && metabullet_alive@[s as int]),
    {
        let b = self.bullets.cleanup_dead(bullet_alive);
        let m = self.metabullets.cleanup_dead(metabullet_alive);
        (b, m)
    }

    /// Occupancy figures.
    pub fn stats(&self) -> (s: PoolStats)
        ensures
            s.active_bullets == self.bullet_slots().active_slots().len(),
            s.total_bullets == self.bullet_slots().capacity(),
            s.active_metabullets == self.metabullet_slots().active_slots().len(),
            s.total_metabullets == self.metabullet_slots().capacity(),
            s.max_bullets_used == self.bullet_slots().spec_max_used(),
            s.max_metabullets_used == self.metabullet_slots().spec_max_used(),
            s.total_bullets_spawned == self.bullet_slots().spec_total_spawned(),
            s.total_metabullets_spawned == self.metabullet_slots().spec_total_spawned(),
    {
        PoolStats {
            active_bullets: self.bullets.active_indices().len(),
            total_bullets: self.bullets.len(),
            active_metabullets: self.metabullets.active_indices().len(),
            total_metabullets: self.metabullets.len(),
            max_bullets_used: self.bullets.max_used(),
            max_metabullets_used: self.metabullets.max_used(),
            total_bullets_spawned: self.bullets.total_spawned(),
            total_metabullets_spawned: self.metabullets.total_spawned(),
        }
    }
}

} // verus!
