//! A fixed-capacity scheduler for bucket updates that collide within a round.
//!
//! All slots live in one pool allocated at construction. Three singly linked
//! queues are threaded through the pool by index: `free`, `processing` and
//! `unprocessed`. A slot that the caller has dequeued and not yet handed back
//! is *detached*: it belongs to the caller until it is marked again.

use vstd::prelude::*;

verus! {

/// End-of-list marker, and the head and tail of an empty queue.
pub const NIL: u32 = 0xFFFF_FFFF;

/// Where a pool slot currently is.
enum Zone {
    Free,
    Processing,
    Unprocessed,
    Detached,
}

struct Entry {
    pub data: u32,
    pub next: u32,
}

#[derive(Clone, Copy)]
struct Queue {
    pub head: u32,
    pub tail: u32,
    /// The slots of the queue, front first.
    pub list: Ghost<Seq<u32>>,
}

impl Queue {
    /// The links stored in `entries` spell out exactly `self.list`.
    spec fn linked(self, entries: Seq<Entry>) -> bool {
        let l = self.list@;
        &&& entries.len() <= NIL
        &&& forall|i: int| 0 <= i < l.len() ==> (#[trigger] l[i] as int) < entries.len()
        &&& forall|i: int|
            0 <= i < l.len() - 1 ==> entries[#[trigger] l[i] as int].next == l[i + 1]
        &&& l.no_duplicates()
        &&& if l.len() == 0 {
            self.head == NIL && self.tail == NIL
        } else {
            &&& self.head == l[0]
            &&& self.tail == l[l.len() - 1]
            &&& entries[self.tail as int].next == NIL
        }
    }
}

/// Every slot of `l` carries the tag `z`, and every slot tagged `z` is in `l`.
spec fn tagged(l: Seq<u32>, z: Zone, zones: Seq<Zone>) -> bool {
    &&& forall|i: int|
        0 <= i < l.len() ==> (#[trigger] l[i] as int) < zones.len() && zones[l[i] as int] == z
    &&& forall|k: int| 0 <= k < zones.len() && #[trigger] zones[k] == z ==> l.contains(k as u32)
}

/// A queue keeps its shape when none of its own slots changed.
proof fn lemma_linked_frame(q: Queue, before: Seq<Entry>, after: Seq<Entry>)
    requires
        q.linked(before),
        after.len() == before.len(),
        forall|i: int| 0 <= i < q.list@.len() ==> after[#[trigger] q.list@[i] as int] == before[q.list@[i] as int],
    ensures
        q.linked(after),
{
    let l = q.list@;
    if l.len() > 0 {
        assert(after[l[l.len() - 1] as int] == before[l[l.len() - 1] as int]);
    }
}

/// Retagging a slot that `l` does not own leaves `l` tagged as before.
proof fn lemma_tagged_frame(l: Seq<u32>, z: Zone, zones: Seq<Zone>, idx: u32, to: Zone)
    requires
        tagged(l, z, zones),
        (idx as int) < zones.len(),
        zones[idx as int] != z,
        to != z,
    ensures
        tagged(l, z, zones.update(idx as int, to)),
{
    let after = zones.update(idx as int, to);
    assert forall|k: int| 0 <= k < after.len() && #[trigger] after[k] == z implies l.contains(
        k as u32,
    ) by {
        assert(zones[k] == z);
    }
}

/// A slot with another tag is not in `l`.
proof fn lemma_absent(l: Seq<u32>, z: Zone, zones: Seq<Zone>, idx: u32)
    requires
        tagged(l, z, zones),
        zones[idx as int] != z,
    ensures
        !l.contains(idx),
{
}

/// An index beyond the pool is not in `l`.
proof fn lemma_outside(l: Seq<u32>, z: Zone, zones: Seq<Zone>, idx: u32)
    requires
        tagged(l, z, zones),
        (idx as int) >= zones.len(),
    ensures
        !l.contains(idx),
{
}

/// Taking the front slot out of `l` and retagging it keeps the rest tagged.
proof fn lemma_tagged_drop_first(l: Seq<u32>, z: Zone, zones: Seq<Zone>, to: Zone)
    requires
        tagged(l, z, zones),
        zones.len() <= NIL,
        l.no_duplicates(),
        l.len() > 0,
        to != z,
    ensures
        tagged(l.drop_first(), z, zones.update(l[0] as int, to)),
{
    let r = l.drop_first();
    let after = zones.update(l[0] as int, to);
    assert forall|i: int| 0 <= i < r.len() implies (#[trigger] r[i] as int) < after.len()
        && after[r[i] as int] == z by {
        assert(r[i] == l[i + 1]);
    }
    assert forall|k: int| 0 <= k < after.len() && #[trigger] after[k] == z implies r.contains(
        k as u32,
    ) by {
        assert(zones[k] == z);
        let j = choose|j: int| 0 <= j < l.len() && l[j] == k as u32;
        assert(r[j - 1] == l[j]);
    }
}

/// Retagging a slot as `z` and appending it to `l` keeps `l` tagged.
proof fn lemma_tagged_push(l: Seq<u32>, z: Zone, zones: Seq<Zone>, idx: u32)
    requires
        tagged(l, z, zones),
        (idx as int) < zones.len(),
    ensures
        tagged(l.push(idx), z, zones.update(idx as int, z)),
{
    let r = l.push(idx);
    let after = zones.update(idx as int, z);
    assert forall|i: int| 0 <= i < r.len() implies (#[trigger] r[i] as int) < after.len()
        && after[r[i] as int] == z by {
        if i < l.len() {
            assert(r[i] == l[i]);
        }
    }
    assert forall|k: int| 0 <= k < after.len() && #[trigger] after[k] == z implies r.contains(
        k as u32,
    ) by {
        if k == idx as int {
            assert(r[l.len() as int] == idx);
        } else {
            assert(zones[k] == z);
            let j = choose|j: int| 0 <= j < l.len() && l[j] == k as u32;
            assert(r[j] == l[j]);
        }
    }
}

/// Lists with different tags share no slot.
proof fn lemma_disjoint(a: Seq<u32>, za: Zone, b: Seq<u32>, zb: Zone, zones: Seq<Zone>)
    requires
        tagged(a, za, zones),
        tagged(b, zb, zones),
        za != zb,
    ensures
        forall|i: int| 0 <= i < a.len() ==> !b.contains(#[trigger] a[i]),
        forall|i: int, j: int| 0 <= i < a.len() && 0 <= j < b.len() ==> a[i] != b[j],
{
    assert forall|i: int| 0 <= i < a.len() implies !b.contains(#[trigger] a[i]) by {
        if b.contains(a[i]) {
            let j = choose|j: int| 0 <= j < b.len() && b[j] == a[i];
            assert(zones[b[j] as int] == zb);
        }
    }
}

/// Pointing the last slot of `front` at the head of `back` links both lists
/// into one.
proof fn lemma_linked_concat(
    front: Queue,
    back: Queue,
    before: Seq<Entry>,
    joined: Queue,
    after: Seq<Entry>,
)
    requires
        front.linked(before),
        back.linked(before),
        front.list@.len() > 0,
        back.list@.len() > 0,
        forall|i: int, j: int|
            0 <= i < front.list@.len() && 0 <= j < back.list@.len() ==> front.list@[i]
                != back.list@[j],
        after == before.update(
            front.tail as int,
            Entry { data: before[front.tail as int].data, next: back.head },
        ),
        joined.head == front.head,
        joined.tail == back.tail,
        joined.list@ == front.list@ + back.list@,
    ensures
        joined.linked(after),
{
    let f = front.list@;
    let b = back.list@;
    let r = joined.list@;
    assert forall|i: int| 0 <= i < r.len() implies (#[trigger] r[i] as int) < after.len() by {
        if i < f.len() {
            assert(r[i] == f[i]);
        } else {
            assert(r[i] == b[i - f.len()]);
        }
    }
    assert forall|i: int| 0 <= i < r.len() - 1 implies after[#[trigger] r[i] as int].next == r[i
        + 1] by {
        if i < f.len() - 1 {
            assert(r[i] == f[i] && r[i + 1] == f[i + 1]);
            assert(f[i] != f[f.len() - 1]);
        } else if i == f.len() - 1 {
            assert(r[i] == f[i] && r[i + 1] == b[0]);
        } else {
            assert(r[i] == b[i - f.len()] && r[i + 1] == b[i + 1 - f.len()]);
            assert(b[i - f.len()] != f[f.len() - 1]);
        }
    }
    assert forall|i: int, j: int| 0 <= i < r.len() && 0 <= j < r.len() && i != j implies r[i]
        != r[j] by {
        if i < f.len() {
            assert(r[i] == f[i]);
        } else {
            assert(r[i] == b[i - f.len()]);
        }
        if j < f.len() {
            assert(r[j] == f[j]);
        } else {
            assert(r[j] == b[j - f.len()]);
        }
    }
    assert(r[r.len() - 1] == b[b.len() - 1]);
    assert(r[0] == f[0]);
    assert(b[b.len() - 1] != f[f.len() - 1]);
}

/// What a scheduler holds, apart from how the queues are linked.
pub struct PoolView {
    /// The free slots, in the order in which they will be handed out.
    pub free: Seq<u32>,
    /// The slots of the batch that is being executed, oldest first.
    pub processing: Seq<u32>,
    /// The deferred slots, oldest first.
    pub unprocessed: Seq<u32>,
    /// The slots that the caller dequeued and has not marked yet.
    pub detached: Set<u32>,
    /// The payload of each slot of the pool, by index.
    pub data: Seq<u32>,
    /// The backlog counter: how many slots are deferred.
    pub collision_count: nat,
    /// The largest backlog the caller wants to tolerate.
    pub max_collision_count: nat,
}

impl PoolView {
    /// The number of slots in the pool.
    pub open spec fn pool_size(self) -> nat {
        self.data.len()
    }

    /// In how many of the three queues and the detached set `idx` occurs.
    pub open spec fn places(self, idx: u32) -> nat {
        let in_free: nat = if self.free.contains(idx) { 1 } else { 0 };
        let in_processing: nat = if self.processing.contains(idx) { 1 } else { 0 };
        let in_unprocessed: nat = if self.unprocessed.contains(idx) { 1 } else { 0 };
        let in_detached: nat = if self.detached.contains(idx) { 1 } else { 0 };
        in_free + in_processing + in_unprocessed + in_detached
    }

    /// The three queues and the detached set split the pool: no slot occurs
    /// twice, every slot of the pool occurs once, and nothing else occurs.
    pub open spec fn partitioned(self) -> bool {
        &&& self.free.no_duplicates()
        &&& self.processing.no_duplicates()
        &&& self.unprocessed.no_duplicates()
        &&& self.detached.finite()
        &&& forall|idx: u32|
            #[trigger] self.places(idx) == if (idx as int) < self.pool_size() { 1nat } else { 0nat }
        &&& self.free.len() + self.processing.len() + self.unprocessed.len()
            + self.detached.len() == self.pool_size()
    }
}

pub struct CollisionState {
    entries: Vec<Entry>,
    collision_count: usize,
    max_collision_count: usize,
    free: Queue,
    processing: Queue,
    unprocessed: Queue,
    zones: Ghost<Seq<Zone>>,
    detached: Ghost<Set<u32>>,
}

impl View for CollisionState {
    type V = PoolView;

    closed spec fn view(&self) -> PoolView {
        PoolView {
            free: self.free.list@,
            processing: self.processing.list@,
            unprocessed: self.unprocessed.list@,
            detached: self.detached@,
            data: Seq::new(self.entries@.len(), |i: int| self.entries@[i].data),
            collision_count: self.collision_count as nat,
            max_collision_count: self.max_collision_count as nat,
        }
    }
}

impl CollisionState {
    /// The invariant of the scheduler: the pool has twice the tolerated
    /// backlog, each queue is linked as its list says, every slot is in
    /// exactly one of the three queues or detached, and the counter is the
    /// length of `unprocessed`.
    pub closed spec fn wf(&self) -> bool {
        let n = self.entries@.len();
        let zones = self.zones@;
        &&& self.max_collision_count > 0
        &&& n == 2 * self.max_collision_count
        &&& n <= NIL
        &&& self.free.linked(self.entries@)
        &&& self.processing.linked(self.entries@)
        &&& self.unprocessed.linked(self.entries@)
        &&& self.collision_count == self.unprocessed.list@.len()
        &&& zones.len() == n
        &&& tagged(self.free.list@, Zone::Free, zones)
        &&& tagged(self.processing.list@, Zone::Processing, zones)
        &&& tagged(self.unprocessed.list@, Zone::Unprocessed, zones)
        &&& self.detached@.finite()
        &&& forall|i: u32|
            #![trigger self.detached@.contains(i)]
            #![trigger zones[i as int]]
            self.detached@.contains(i) <==> ((i as int) < n && zones[i as int] == Zone::Detached)
        &&& self.free.list@.len() + self.processing.list@.len() + self.unprocessed.list@.len()
            + self.detached@.len() == n
    }

    /// In every state the pool has twice the tolerated backlog, and each of
    /// its slots is in exactly one of `free`, `processing`, `unprocessed` and
    /// the caller's hands.
    pub proof fn lemma_pool_partitioned(&self)
        requires
            self.wf(),
        ensures
            self@.pool_size() == 2 * self@.max_collision_count,
            self@.pool_size() <= NIL,
            self@.partitioned(),
    {
        let v = self@;
        let zones = self.zones@;
        assert forall|idx: u32|
            #[trigger] v.places(idx) == if (idx as int) < v.pool_size() { 1nat } else { 0nat } by {
            if (idx as int) < v.pool_size() {
                if zones[idx as int] != Zone::Free {
                    lemma_absent(v.free, Zone::Free, zones, idx);
                }
                if zones[idx as int] != Zone::Processing {
                    lemma_absent(v.processing, Zone::Processing, zones, idx);
                }
                if zones[idx as int] != Zone::Unprocessed {
                    lemma_absent(v.unprocessed, Zone::Unprocessed, zones, idx);
                }
            } else {
                lemma_outside(v.free, Zone::Free, zones, idx);
                lemma_outside(v.processing, Zone::Processing, zones, idx);
                lemma_outside(v.unprocessed, Zone::Unprocessed, zones, idx);
            }
        }
    }

    /// While the caller holds no slot, the three queues alone split the pool:
    /// every slot is in exactly one of them, and their lengths add up to
    /// `2 * max_collision_count`.
    pub proof fn lemma_queues_partition_pool(&self)
        requires
            self.wf(),
            self@.detached.is_empty(),
        ensures
            forall|idx: u32|
                (idx as int) < 2 * self@.max_collision_count ==> {
                    ||| (#[trigger] self@.free.contains(idx) && !self@.processing.contains(idx)
                        && !self@.unprocessed.contains(idx))
                    ||| (!self@.free.contains(idx) && self@.processing.contains(idx)
                        && !self@.unprocessed.contains(idx))
                    ||| (!self@.free.contains(idx) && !self@.processing.contains(idx)
                        && self@.unprocessed.contains(idx))
                },
            self@.free.len() + self@.processing.len() + self@.unprocessed.len() == 2
                * self@.max_collision_count,
    {
        self.lemma_pool_partitioned();
        let v = self@;
        assert forall|idx: u32| (idx as int) < 2 * v.max_collision_count implies {
            ||| (#[trigger] v.free.contains(idx) && !v.processing.contains(idx)
                && !v.unprocessed.contains(idx))
            ||| (!v.free.contains(idx) && v.processing.contains(idx) && !v.unprocessed.contains(
                idx,
            ))
            ||| (!v.free.contains(idx) && !v.processing.contains(idx) && v.unprocessed.contains(
                idx,
            ))
        } by {
            assert(v.places(idx) == 1);
            assert(!v.detached.contains(idx));
        }
        assert(v.detached.len() == 0);
    }

    /// The pool is large enough for a full batch and a backlog below the
    /// tolerated size: while the caller holds no slot, `processing` has at most
    /// `max_collision_count` slots and `unprocessed` has fewer, a slot is free.
    pub proof fn lemma_free_slot_available(&self)
        requires
            self.wf(),
            self@.detached.is_empty(),
            self@.processing.len() <= self@.max_collision_count,
            self@.unprocessed.len() < self@.max_collision_count,
        ensures
            self@.free.len() > 0,
    {
        self.lemma_queues_partition_pool();
    }

    /// The backlog counter is the number of slots in `unprocessed`.
    pub proof fn lemma_collision_count(&self)
        requires
            self.wf(),
        ensures
            self@.collision_count == self@.unprocessed.len(),
    {
    }

    /// A scheduler that tolerates a backlog of `max_collision_count` slots.
    /// Its pool of `2 * max_collision_count` slots starts as one free list in
    /// index order.
    pub fn new(max_collision_count: usize) -> (s: Self)
        requires
            0 < max_collision_count,
            2 * max_collision_count <= NIL,
        ensures
            s.wf(),
            s@ == (PoolView {
                free: Seq::new((2 * max_collision_count) as nat, |i: int| i as u32),
                processing: Seq::empty(),
                unprocessed: Seq::empty(),
                detached: Set::empty(),
                data: Seq::new((2 * max_collision_count) as nat, |i: int| 0u32),
                collision_count: 0,
                max_collision_count: max_collision_count as nat,
            }),
    {
        let max_size: usize = max_collision_count * 2;
        let mut entries: Vec<Entry> = Vec::with_capacity(max_size);
        let mut i: usize = 0;
        while i < max_size - 1
            invariant
                0 < max_size <= NIL,
                i <= max_size - 1,
                entries@.len() == i,
                forall|k: int|
                    0 <= k < i ==> (#[trigger] entries@[k]).data == 0 && entries@[k].next == k + 1,
            decreases max_size - i,
        {
            entries.push(Entry { data: 0, next: i as u32 + 1 });
            i += 1;
        }
        entries.push(Entry { data: 0, next: NIL });
        let ghost order = Seq::new(max_size as nat, |i: int| i as u32);
        let s = CollisionState {
            entries,
            collision_count: 0,
            max_collision_count,
            free: Queue { head: 0, tail: max_size as u32 - 1, list: Ghost(order) },
            processing: Queue { head: NIL, tail: NIL, list: Ghost(Seq::empty()) },
            unprocessed: Queue { head: NIL, tail: NIL, list: Ghost(Seq::empty()) },
            zones: Ghost(Seq::new(max_size as nat, |i: int| Zone::Free)),
            detached: Ghost(Set::empty()),
        };
        proof {
            assert forall|k: int| 0 <= k < s.zones@.len() && #[trigger] s.zones@[k]
                == Zone::Free implies order.contains(k as u32) by {
                assert(order[k] == k as u32);
            }
            assert(s@.data =~= Seq::new((2 * max_collision_count) as nat, |i: int| 0u32));
        }
        s
    }

    fn is_empty(queue: &Queue) -> (b: bool)
        ensures
            b == (queue.head == NIL),
    {
        queue.head == NIL
    }

    fn clear(queue: &mut Queue)
        ensures
            final(queue).head == NIL,
            final(queue).tail == NIL,
            final(queue).list@ == Seq::<u32>::empty(),
    {
        queue.head = NIL;
        queue.tail = NIL;
        queue.list = Ghost(Seq::empty());
    }

    /// Takes the front slot off `queue`.
    fn dequeue(queue: &mut Queue, entries: &Vec<Entry>) -> (index: u32)
        requires
            old(queue).linked(entries@),
            old(queue).list@.len() > 0,
        ensures
            final(queue).linked(entries@),
            index == old(queue).list@[0],
            final(queue).list@ == old(queue).list@.drop_first(),
    {
        let ghost l = queue.list@;
        let index = queue.head;
        if queue.head == queue.tail {
            assert(l.len() == 1) by {
                assert(l[0] == l[l.len() - 1]);
            }
            Self::clear(queue);
            assert(queue.list@ =~= l.drop_first());
        } else {
            queue.head = entries[index as usize].next;
            queue.list = Ghost(l.drop_first());
            proof {
                let r = l.drop_first();
                assert forall|i: int| 0 <= i < r.len() - 1 implies entries@[#[trigger] r[i] as int].next
                    == r[i + 1] by {
                    assert(r[i] == l[i + 1]);
                }
                assert(r[0] == l[1]);
            }
        }
        index
    }

    /// Appends the slot `entry_index`, which is in no queue, to the back of `queue`.
    fn enqueue(queue: &mut Queue, entries: &mut Vec<Entry>, entry_index: u32)
        requires
            old(queue).linked(old(entries)@),
            (entry_index as int) < old(entries).len(),
            !old(queue).list@.contains(entry_index),
        ensures
            final(queue).linked(final(entries)@),
            final(queue).list@ == old(queue).list@.push(entry_index),
            final(entries).len() == old(entries).len(),
            forall|i: int|
                0 <= i < old(entries).len() ==> (#[trigger] final(entries)@[i]).data == old(
                    entries,
                )@[i].data,
            forall|i: int|
                0 <= i < old(entries).len() && i != entry_index && !old(queue).list@.contains(i as u32)
                    ==> #[trigger] final(entries)@[i] == old(entries)@[i],
    {
        let ghost l = queue.list@;
        let ghost before = entries@;
        if Self::is_empty(queue) {
            queue.head = entry_index;
            queue.tail = entry_index;
        } else {
            let tail = queue.tail as usize;
            assert(l.contains(l[l.len() - 1]));
            entries[tail].next = entry_index;
            queue.tail = entry_index;
        }
        entries[entry_index as usize].next = NIL;
        queue.list = Ghost(l.push(entry_index));
        proof {
            let r = l.push(entry_index);
            assert forall|i: int| 0 <= i < r.len() - 1 implies entries@[#[trigger] r[i] as int].next
                == r[i + 1] by {
                assert(r[i] == l[i]);
                assert(l.contains(l[i]));
                if i < l.len() - 1 {
                    assert(r[i + 1] == l[i + 1]);
                    assert(l[i] != l[l.len() - 1]);
                }
            }
            assert forall|i: int, j: int| 0 <= i < r.len() && 0 <= j < r.len() && i != j implies r[i]
                != r[j] by {
                if i < l.len() {
                    assert(l.contains(l[i]));
                }
                if j < l.len() {
                    assert(l.contains(l[j]));
                }
            }
        }
    }

    /// The payload stored in slot `entry_index`.
    pub fn get_entry_data(&mut self, entry_index: u32) -> (data: u32)
        requires
            (entry_index as int) < old(self)@.data.len(),
        ensures
            data == old(self)@.data[entry_index as int],
            *final(self) == *old(self),
    {
        self.entries[entry_index as usize].data
    }

    /// Takes the oldest deferred slot out of `unprocessed`. The slot is
    /// detached until the caller marks it as processing or as unprocessed.
    pub fn dequeue_unprocessed(&mut self) -> (index: u32)
        requires
            old(self).wf(),
            old(self)@.unprocessed.len() > 0,
        ensures
            final(self).wf(),
            index == old(self)@.unprocessed[0],
            (index as int) < old(self)@.data.len(),
            final(self)@ == (PoolView {
                unprocessed: old(self)@.unprocessed.drop_first(),
                detached: old(self)@.detached.insert(index),
                collision_count: (old(self)@.collision_count - 1) as nat,
                ..old(self)@
            }),
    {
        let ghost before = *self;
        self.collision_count -= 1;
        let index = Self::dequeue(&mut self.unprocessed, &self.entries);
        self.zones = Ghost(self.zones@.update(index as int, Zone::Detached));
        self.detached = Ghost(self.detached@.insert(index));
        proof {
            let zones = before.zones@;
            lemma_tagged_drop_first(before.unprocessed.list@, Zone::Unprocessed, zones, Zone::Detached);
            lemma_tagged_frame(before.free.list@, Zone::Free, zones, index, Zone::Detached);
            lemma_tagged_frame(before.processing.list@, Zone::Processing, zones, index, Zone::Detached);
        }
        index
    }

    /// Puts the detached slot `entry_index` at the back of `processing`: it is
    /// part of the batch that is being executed.
    pub fn mark_entry_processing(&mut self, entry_index: u32)
        requires
            old(self).wf(),
            old(self)@.detached.contains(entry_index),
        ensures
            final(self).wf(),
            final(self)@ == (PoolView {
                processing: old(self)@.processing.push(entry_index),
                detached: old(self)@.detached.remove(entry_index),
                ..old(self)@
            }),
    {
        let ghost before = *self;
        proof {
            lemma_absent(before.processing.list@, Zone::Processing, before.zones@, entry_index);
        }
        Self::enqueue(&mut self.processing, &mut self.entries, entry_index);
        self.zones = Ghost(self.zones@.update(entry_index as int, Zone::Processing));
        self.detached = Ghost(self.detached@.remove(entry_index));
        proof {
            let zones = before.zones@;
            lemma_tagged_push(before.processing.list@, Zone::Processing, zones, entry_index);
            lemma_tagged_frame(before.free.list@, Zone::Free, zones, entry_index, Zone::Processing);
            lemma_tagged_frame(before.unprocessed.list@, Zone::Unprocessed, zones, entry_index, Zone::Processing);
            lemma_disjoint(before.free.list@, Zone::Free, before.processing.list@, Zone::Processing, zones);
            lemma_disjoint(before.unprocessed.list@, Zone::Unprocessed, before.processing.list@, Zone::Processing, zones);
            lemma_linked_frame(before.free, before.entries@, self.entries@);
            lemma_linked_frame(before.unprocessed, before.entries@, self.entries@);
            assert(self@.data =~= before@.data);
        }
    }

    /// Puts the detached slot `entry_index` at the back of `unprocessed`: it
    /// has to wait for a later round. The backlog counter goes up by one.
    pub fn mark_entry_unprocessed(&mut self, entry_index: u32)
        requires
            old(self).wf(),
            old(self)@.detached.contains(entry_index),
        ensures
            final(self).wf(),
            final(self)@ == (PoolView {
                unprocessed: old(self)@.unprocessed.push(entry_index),
                detached: old(self)@.detached.remove(entry_index),
                collision_count: old(self)@.collision_count + 1,
                ..old(self)@
            }),
    {
        let ghost before = *self;
        proof {
            lemma_absent(before.unprocessed.list@, Zone::Unprocessed, before.zones@, entry_index);
        }
        self.collision_count += 1;
        Self::enqueue(&mut self.unprocessed, &mut self.entries, entry_index);
        self.zones = Ghost(self.zones@.update(entry_index as int, Zone::Unprocessed));
        self.detached = Ghost(self.detached@.remove(entry_index));
        proof {
            let zones = before.zones@;
            lemma_tagged_push(before.unprocessed.list@, Zone::Unprocessed, zones, entry_index);
            lemma_tagged_frame(before.free.list@, Zone::Free, zones, entry_index, Zone::Unprocessed);
            lemma_tagged_frame(before.processing.list@, Zone::Processing, zones, entry_index, Zone::Unprocessed);
            lemma_disjoint(before.free.list@, Zone::Free, before.unprocessed.list@, Zone::Unprocessed, zones);
            lemma_disjoint(before.processing.list@, Zone::Processing, before.unprocessed.list@, Zone::Unprocessed, zones);
            lemma_linked_frame(before.free, before.entries@, self.entries@);
            lemma_linked_frame(before.processing, before.entries@, self.entries@);
            assert(self@.data =~= before@.data);
        }
    }

    /// Takes the next free slot, stores `data` in it and defers it: the slot
    /// goes to the back of `unprocessed` and the backlog counter goes up by
    /// one. Returns the slot's index.
    pub fn add_unprocessed(&mut self, data: u32) -> (index: u32)
        requires
            old(self).wf(),
            old(self)@.free.len() > 0,
        ensures
            final(self).wf(),
            index == old(self)@.free[0],
            (index as int) < old(self)@.data.len(),
            final(self)@ == (PoolView {
                free: old(self)@.free.drop_first(),
                unprocessed: old(self)@.unprocessed.push(index),
                data: old(self)@.data.update(index as int, data),
                collision_count: old(self)@.collision_count + 1,
                ..old(self)@
            }),
    {
        let ghost before = *self;
        let index = Self::dequeue(&mut self.free, &self.entries);
        self.zones = Ghost(self.zones@.update(index as int, Zone::Detached));
        self.detached = Ghost(self.detached@.insert(index));
        self.entries[index as usize].data = data;
        proof {
            let zones = before.zones@;
            lemma_tagged_drop_first(before.free.list@, Zone::Free, zones, Zone::Detached);
            lemma_tagged_frame(before.processing.list@, Zone::Processing, zones, index, Zone::Detached);
            lemma_tagged_frame(before.unprocessed.list@, Zone::Unprocessed, zones, index, Zone::Detached);
            assert(!self.free.list@.contains(index)) by {
                if self.free.list@.contains(index) {
                    let j = choose|j: int| 0 <= j < self.free.list@.len() && self.free.list@[j] == index;
                    assert(before.free.list@[j + 1] == index);
                }
            }
            lemma_linked_frame(self.free, before.entries@, self.entries@);
            lemma_linked_frame(before.processing, before.entries@, self.entries@);
            lemma_linked_frame(before.unprocessed, before.entries@, self.entries@);
        }
        let ghost middle = *self;
        self.mark_entry_unprocessed(index);
        proof {
            assert(middle@.data =~= before@.data.update(index as int, data));
            assert(self@.detached =~= before@.detached);
        }
        index
    }

    /// Returns every slot of `processing` to the back of `free`, in one
    /// splice. Does nothing when `processing` is empty.
    pub fn free_processing(&mut self)
        requires
            old(self).wf(),
        ensures
            final(self).wf(),
            final(self)@ == (PoolView {
                free: old(self)@.free + old(self)@.processing,
                processing: Seq::empty(),
                ..old(self)@
            }),
    {
        let ghost before = *self;
        if Self::is_empty(&self.processing) {
            assert(self@.free =~= before@.free + before@.processing);
            assert(self@.processing =~= Seq::empty());
            return ;
        }
        proof {
            lemma_disjoint(before.free.list@, Zone::Free, before.processing.list@, Zone::Processing, before.zones@);
            lemma_disjoint(before.unprocessed.list@, Zone::Unprocessed, before.processing.list@, Zone::Processing, before.zones@);
            lemma_disjoint(before.unprocessed.list@, Zone::Unprocessed, before.free.list@, Zone::Free, before.zones@);
            lemma_disjoint(before.processing.list@, Zone::Processing, before.free.list@, Zone::Free, before.zones@);
        }
        if Self::is_empty(&self.free) {
            self.free = self.processing;
            assert(self.free.list@ =~= before.free.list@ + before.processing.list@);
        } else {
            let tail = self.free.tail as usize;
            self.entries[tail].next = self.processing.head;
            self.free.tail = self.processing.tail;
            self.free.list = Ghost(self.free.list@ + self.processing.list@);
            proof {
                lemma_linked_concat(before.free, before.processing, before.entries@, self.free, self.entries@);
                lemma_linked_frame(before.unprocessed, before.entries@, self.entries@);
                assert(self@.data =~= before@.data);
            }
        }
        Self::clear(&mut self.processing);
        self.zones = Ghost(
            Seq::new(
                before.zones@.len(),
                |k: int|
                    if before.zones@[k] == Zone::Processing {
                        Zone::Free
                    } else {
                        before.zones@[k]
                    },
            ),
        );
        proof {
            let zones = before.zones@;
            let after = self.zones@;
            let f = before.free.list@;
            let p = before.processing.list@;
            let joined = f + p;
            assert forall|i: int| 0 <= i < joined.len() implies (#[trigger] joined[i] as int)
                < after.len() && after[joined[i] as int] == Zone::Free by {
                if i < f.len() {
                    assert(joined[i] == f[i]);
                } else {
                    assert(joined[i] == p[i - f.len()]);
                }
            }
            assert forall|k: int| 0 <= k < after.len() && #[trigger] after[k]
                == Zone::Free implies joined.contains(k as u32) by {
                if zones[k] == Zone::Processing {
                    let j = choose|j: int| 0 <= j < p.len() && p[j] == k as u32;
                    assert(joined[f.len() + j] == p[j]);
                } else {
                    assert(zones[k] == Zone::Free);
                    let j = choose|j: int| 0 <= j < f.len() && f[j] == k as u32;
                    assert(joined[j] == f[j]);
                }
            }
            assert forall|k: int| 0 <= k < after.len() && #[trigger] after[k]
                == Zone::Unprocessed implies before.unprocessed.list@.contains(k as u32) by {
                assert(zones[k] == Zone::Unprocessed);
            }
            assert forall|i: u32|
                #![trigger self.detached@.contains(i)]
                #![trigger after[i as int]]
                self.detached@.contains(i) <==> ((i as int) < after.len() && after[i as int]
                    == Zone::Detached) by {
                if (i as int) < after.len() {
                    assert(after[i as int] == Zone::Detached <==> zones[i as int] == Zone::Detached);
                }
            }
        }
    }

    /// Whether `add_unprocessed` can take another slot.
    pub fn has_free_slot(&self) -> (b: bool)
        requires
            self.wf(),
        ensures
            b == (self@.free.len() > 0),
    {
        !Self::is_empty(&self.free)
    }

    /// Whether a slot is still deferred or in the running batch.
    pub fn needs_processing(&self) -> (b: bool)
        requires
            self.wf(),
        ensures
            b == (self@.unprocessed.len() > 0 || self@.processing.len() > 0),
    {
        !Self::is_empty(&self.unprocessed) || !Self::is_empty(&self.processing)
    }

    /// Whether the backlog has reached the tolerated size.
    pub fn reaches_max_collision_count(&self) -> (b: bool)
        requires
            self.wf(),
        ensures
            b == (self@.collision_count >= self@.max_collision_count),
            b == (self@.unprocessed.len() >= self@.max_collision_count),
    {
        self.collision_count >= self.max_collision_count
    }

    /// The slot that was deferred last, or `NIL` when none is deferred.
    pub fn get_unprocessed_tail(&self) -> (tail: u32)
        requires
            self.wf(),
        ensures
            tail == if self@.unprocessed.len() == 0 {
                NIL
            } else {
                self@.unprocessed.last()
            },
    {
        self.unprocessed.tail
    }
}

} // verus!
