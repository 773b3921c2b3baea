use vstd::prelude::*;
use crossbeam_queue::SegQueue;
use crate::ab::{AB, ABArray};
use crate::descriptor::ID_VERSION_MASK;
use crate::descriptor_counts::{SlotAllocationError, TableRegisterError};
use crate::range_set::DescriptorIndexRangeSet;
use crate::table_id::{TableId, TABLE_COUNT};
use std::ops::Not;

verus! {

#[verifier::external_type_specification]
#[verifier::external_body]
#[verifier::reject_recursive_types(T)]
pub struct ExSegQueue<T>(SegQueue<T>);

/// The items of a `crossbeam_queue::SegQueue`, front first.
pub uninterp spec fn seg_queue_items(queue: SegQueue<u32>) -> Seq<u32>;

/// An empty queue.
///
/// Calls `crossbeam_queue::SegQueue::new`, which creates an empty unbounded queue.
#[verifier::external_body]
fn seg_queue_new() -> (r: SegQueue<u32>)
    ensures
        seg_queue_items(r) == Seq::<u32>::empty(),
{
    SegQueue::new()
}

/// Pushes an item to the back of the queue.
///
/// Calls `crossbeam_queue::SegQueue::push`, which pushes the item to the tail of the unbounded queue.
#[verifier::external_body]
fn seg_queue_push(queue: &mut SegQueue<u32>, value: u32)
    ensures
        seg_queue_items(*final(queue)) == seg_queue_items(*old(queue)).push(value),
{
    queue.push(value)
}

/// Pops the item at the front of the queue, if there is one.
///
/// Calls `crossbeam_queue::SegQueue::pop`, which pops the head item of the queue, and returns `None` for an empty
/// queue.
#[verifier::external_body]
fn seg_queue_pop(queue: &mut SegQueue<u32>) -> (r: Option<u32>)
    ensures
        seg_queue_items(*old(queue)).len() == 0 ==> r == None::<u32> && seg_queue_items(*final(queue)) == seg_queue_items(
            *old(queue),
        ),
        seg_queue_items(*old(queue)).len() > 0 ==> r == Some(seg_queue_items(*old(queue))[0]) && seg_queue_items(
            *final(queue),
        ) == seg_queue_items(*old(queue)).drop_first(),
{
    queue.pop()
}

/// What a table does with the contents of its slots.
pub trait TableInterface {
    type Slot;

    /// The sets of indices the interface was told of by [`Self::drop_slots`], oldest first.
    spec fn dropped(&self) -> Seq<Set<u32>>;

    /// Called with the indices of slots about to be dropped.
    fn drop_slots(&mut self, indices: &DescriptorIndexRangeSet)
        ensures
            final(self).dropped() == old(self).dropped().push(indices@),
    ;

    fn flush(&mut self);
}

struct SlotCounter {
    ref_count: u32,
    version: u32,
}

/// The queue without its front keeps no item twice, and holds every item of the queue but the front.
proof fn lemma_drop_first(q: Seq<u32>)
    requires
        q.no_duplicates(),
        q.len() > 0,
    ensures
        q.drop_first().no_duplicates(),
        forall|x: u32| #[trigger] q.drop_first().contains(x) <==> (q.contains(x) && x != q[0]),
{
    assert forall|x: u32| #[trigger] q.drop_first().contains(x) <==> (q.contains(x) && x != q[0]) by {
        if q.drop_first().contains(x) {
            let k = choose|k: int| 0 <= k < q.drop_first().len() && q.drop_first()[k] == x;
            assert(q[k + 1] == x);
        }
        if q.contains(x) && x != q[0] {
            let k = choose|k: int| 0 <= k < q.len() && q[k] == x;
            assert(q.drop_first()[k - 1] == x);
        }
    }
}

/// Pushing an item that is not in the queue keeps the queue free of repeats, and adds exactly that item.
proof fn lemma_push(q: Seq<u32>, v: u32)
    requires
        q.no_duplicates(),
        !q.contains(v),
    ensures
        q.push(v).no_duplicates(),
        forall|x: u32| #[trigger] q.push(v).contains(x) <==> (q.contains(x) || x == v),
{
    assert forall|x: u32| #[trigger] q.push(v).contains(x) <==> (q.contains(x) || x == v) by {
        if q.push(v).contains(x) {
            let k = choose|k: int| 0 <= k < q.push(v).len() && q.push(v)[k] == x;
            if k < q.len() {
                assert(q[k] == x);
            }
        }
        if q.contains(x) {
            let k = choose|k: int| 0 <= k < q.len() && q[k] == x;
            assert(q.push(v)[k] == x);
        }
        if x == v {
            assert(q.push(v)[q.len() as int] == x);
        }
    }
    assert forall|i: int, j: int| 0 <= i < q.push(v).len() && 0 <= j < q.push(v).len() && i != j implies q.push(v)[i]
        != q.push(v)[j] by {
        if i == q.len() {
            assert(q[j] == q.push(v)[j]);
        }
        if j == q.len() {
            assert(q[i] == q.push(v)[i]);
        }
    }
}

/// A table of reference counted slots. A slot whose last reference goes away waits in the reaper queue of the
/// current half until no frame that may still use it is running, and is then dropped and reused with the next
/// version, until its versions run out.
pub struct Table<I: TableInterface> {
    table_id: u32,
    interface: I,
    slot_counters: Vec<SlotCounter>,
    slots: Vec<Option<I::Slot>>,
    reaper_queue: ABArray<SegQueue<u32>>,
    dead_queue: SegQueue<u32>,
    next_free: u32,
}

/// A reference counted handle to a slot of a [`Table`]. Its reference is given up by [`RcTableSlot::drop`]; a handle
/// that goes out of scope without it keeps its reference, and its slot is never collected.
#[derive(Debug)]
pub struct RcTableSlot {
    table_id: u32,
    index: u32,
    version: u32,
}

impl RcTableSlot {
    pub closed spec fn spec_table_id(&self) -> u32 {
        self.table_id
    }

    pub closed spec fn spec_index(&self) -> u32 {
        self.index
    }

    pub closed spec fn spec_version(&self) -> u32 {
        self.version
    }

    pub fn table_id(&self) -> (r: u32)
        ensures
            r == self.spec_table_id(),
    {
        self.table_id
    }

    pub fn index(&self) -> (r: u32)
        ensures
            r == self.spec_index(),
    {
        self.index
    }

    pub fn version(&self) -> (r: u32)
        ensures
            r == self.spec_version(),
    {
        self.version
    }
}

impl<I: TableInterface> Table<I> {
    pub closed spec fn spec_table_id(&self) -> u32 {
        self.table_id
    }

    pub closed spec fn capacity(&self) -> nat {
        self.slots@.len()
    }

    pub closed spec fn ref_count(&self, i: int) -> u32 {
        self.slot_counters@[i].ref_count
    }

    pub closed spec fn version_of(&self, i: int) -> u32 {
        self.slot_counters@[i].version
    }

    pub closed spec fn value(&self, i: int) -> Option<I::Slot> {
        self.slots@[i]
    }

    /// The reaper queue of a half.
    pub closed spec fn reaper(&self, ab: AB) -> Seq<u32> {
        seg_queue_items(self.reaper_queue.at(ab))
    }

    /// The slots that were dropped and can be reused, in the order they will be.
    pub closed spec fn dead(&self) -> Seq<u32> {
        seg_queue_items(self.dead_queue)
    }

    /// The next slot that was never allocated.
    pub closed spec fn next_free(&self) -> u32 {
        self.next_free
    }

    pub closed spec fn interface_view(&self) -> I {
        self.interface
    }

    /// The slot was allocated once.
    pub open spec fn used(&self, i: int) -> bool {
        0 <= i < self.capacity() && i < self.next_free()
    }

    /// The slot waits in one of the queues.
    pub open spec fn queued(&self, x: u32) -> bool {
        self.reaper(AB::A).contains(x) || self.reaper(AB::B).contains(x) || self.dead().contains(x)
    }

    /// The state of one slot agrees with the queues: a slot that was never allocated is empty, one with references
    /// holds a value, one in the dead queue is empty and waits for reuse, one in a reaper queue or in `pending` still
    /// holds its value, and any other slot has run out of versions.
    spec fn slot_ok(&self, i: int, pending: Set<u32>) -> bool {
        let x = i as u32;
        let a = self.reaper(AB::A).contains(x);
        let b = self.reaper(AB::B).contains(x);
        let d = self.dead().contains(x);
        let p = pending.contains(x);
        if i >= self.next_free() {
            self.value(i) is None && self.ref_count(i) == 0 && self.version_of(i) == 0 && !a && !b && !d && !p
        } else if self.ref_count(i) > 0 {
            self.value(i) is Some && self.version_of(i) <= ID_VERSION_MASK && !a && !b && !d && !p
        } else if d {
            self.value(i) is None && self.version_of(i) <= ID_VERSION_MASK && !a && !b && !p
        } else if a || b {
            self.value(i) is Some && self.version_of(i) <= ID_VERSION_MASK && !(a && b) && !p
        } else if p {
            self.value(i) is Some && self.version_of(i) <= ID_VERSION_MASK
        } else {
            self.value(i) is None && self.version_of(i) == ID_VERSION_MASK + 1
        }
    }

    /// The table is consistent, except that the slots of `pending` have left their reaper queue and wait to be
    /// dropped.
    pub closed spec fn wf_pending(&self, pending: Set<u32>) -> bool {
        &&& self.well_sized()
        &&& self.capacity() <= u32::MAX
        &&& self.reaper(AB::A).no_duplicates()
        &&& self.reaper(AB::B).no_duplicates()
        &&& self.dead().no_duplicates()
        &&& forall|x: u32| #[trigger] self.queued(x) ==> x < self.capacity()
        &&& forall|x: u32| #[trigger] pending.contains(x) ==> x < self.capacity()
        &&& forall|i: int| 0 <= i < self.capacity() ==> #[trigger] self.slot_ok(i, pending)
    }

    spec fn well_sized(&self) -> bool {
        self.slot_counters@.len() == self.slots@.len()
    }

    pub closed spec fn wf(&self) -> bool {
        self.wf_pending(Set::empty())
    }

    /// Tables that agree on every slot and queue are consistent alike.
    proof fn lemma_wf_same(a: &Self, b: &Self, pending: Set<u32>)
        requires
            a.wf_pending(pending),
            b.well_sized(),
            a.capacity() == b.capacity(),
            a.next_free() == b.next_free(),
            a.reaper(AB::A) == b.reaper(AB::A),
            a.reaper(AB::B) == b.reaper(AB::B),
            a.dead() == b.dead(),
            forall|i: int|
                0 <= i < a.capacity() ==> a.value(i) == b.value(i) && a.ref_count(i) == b.ref_count(i)
                    && a.version_of(i) == b.version_of(i),
        ensures
            b.wf_pending(pending),
    {
        assert forall|x: u32| #[trigger] b.queued(x) implies x < b.capacity() by {
            assert(a.queued(x));
        }
        assert forall|i: int| 0 <= i < b.capacity() implies #[trigger] b.slot_ok(i, pending) by {
            assert(a.slot_ok(i, pending));
        }
    }

    /// In a consistent table a slot with references waits in no queue and holds its value; a slot waiting in a
    /// reaper queue has no references and still holds its value; a slot in the dead queue has no references, no
    /// value and a version left to hand out.
    pub proof fn lemma_slot_states(&self)
        requires
            self.wf(),
        ensures
            forall|i: int|
                #![trigger self.ref_count(i)]
                self.used(i) && self.ref_count(i) > 0 ==> self.value(i) is Some && self.version_of(i) <= ID_VERSION_MASK
                    && !self.queued(i as u32),
            forall|ab: AB, x: u32|
                #[trigger] self.reaper(ab).contains(x) ==> self.used(x as int) && self.ref_count(x as int) == 0
                    && self.value(x as int) is Some && !self.dead().contains(x) && !self.reaper(ab.other()).contains(x),
            forall|x: u32|
                #[trigger] self.dead().contains(x) ==> self.used(x as int) && self.ref_count(x as int) == 0
                    && self.value(x as int) is None && self.version_of(x as int) <= ID_VERSION_MASK,
            forall|i: int| 0 <= i < self.capacity() && !self.used(i) ==> #[trigger] self.value(i) is None,
    {
        assert forall|i: int| #![trigger self.ref_count(i)] self.used(i) && self.ref_count(i) > 0 implies self.value(i) is Some
            && self.version_of(i) <= ID_VERSION_MASK && !self.queued(i as u32) by {
            assert(self.slot_ok(i, Set::empty()));
        }
        assert forall|ab: AB, x: u32| #[trigger] self.reaper(ab).contains(x) implies self.used(x as int) && self.ref_count(
            x as int,
        ) == 0 && self.value(x as int) is Some && !self.dead().contains(x) && !self.reaper(ab.other()).contains(x) by {
            assert(self.queued(x));
            assert(self.slot_ok(x as int, Set::empty()));
        }
        assert forall|x: u32| #[trigger] self.dead().contains(x) implies self.used(x as int) && self.ref_count(x as int)
            == 0 && self.value(x as int) is None && self.version_of(x as int) <= ID_VERSION_MASK by {
            assert(self.queued(x));
            assert(self.slot_ok(x as int, Set::empty()));
        }
        assert forall|i: int| 0 <= i < self.capacity() && !self.used(i) implies #[trigger] self.value(i) is None by {
            assert(self.slot_ok(i, Set::empty()));
        }
    }

    /// The handle refers to an alive slot of this table.
    pub open spec fn holds(&self, slot: &RcTableSlot) -> bool {
        &&& slot.spec_table_id() == self.spec_table_id()
        &&& self.used(slot.spec_index() as int)
        &&& self.ref_count(slot.spec_index() as int) > 0
        &&& self.version_of(slot.spec_index() as int) == slot.spec_version()
    }

    fn new(table_id: u32, slots_capacity: u32, interface: I) -> (r: Self)
        ensures
            r.wf(),
            r.spec_table_id() == table_id,
            r.capacity() == slots_capacity,
            r.next_free() == 0,
            r.interface_view() == interface,
            r.reaper(AB::A) == Seq::<u32>::empty(),
            r.reaper(AB::B) == Seq::<u32>::empty(),
            r.dead() == Seq::<u32>::empty(),
            forall|i: int| 0 <= i < r.capacity() ==> #[trigger] r.value(i) is None,
            forall|i: int| 0 <= i < r.capacity() ==> #[trigger] r.ref_count(i) == 0,
            forall|i: int| 0 <= i < r.capacity() ==> #[trigger] r.version_of(i) == 0,
    {
        let mut slot_counters: Vec<SlotCounter> = Vec::new();
        let mut slots: Vec<Option<I::Slot>> = Vec::new();
        let mut i: u32 = 0;
        while i < slots_capacity
            invariant
                i <= slots_capacity,
                slot_counters@.len() == i,
                slots@.len() == i,
                forall|j: int|
                    0 <= j < i ==> (#[trigger] slots@[j]) is None && slot_counters@[j].ref_count == 0
                        && slot_counters@[j].version == 0,
            decreases slots_capacity - i,
        {
            slot_counters.push(SlotCounter { ref_count: 0, version: 0 });
            slots.push(None);
            i = i + 1;
        }
        let r = Table {
            table_id,
            interface,
            slot_counters,
            slots,
            reaper_queue: ABArray::new(|| -> (q: SegQueue<u32>)
                ensures
                    seg_queue_items(q) == Seq::<u32>::empty(),
                { seg_queue_new() }),
            dead_queue: seg_queue_new(),
            next_free: 0,
        };
        proof {
            assert forall|i: int| 0 <= i < r.capacity() implies #[trigger] r.ref_count(i) == 0 by {
                assert(r.value(i) is None);
            }
            assert forall|i: int| 0 <= i < r.capacity() implies #[trigger] r.version_of(i) == 0 by {
                assert(r.value(i) is None);
            }
            assert forall|i: int| 0 <= i < r.capacity() implies #[trigger] r.slot_ok(i, Set::empty()) by {
                assert(!r.reaper(AB::A).contains(i as u32));
                assert(!r.reaper(AB::B).contains(i as u32));
                assert(!r.dead().contains(i as u32));
            }
        }
        r
    }

    /// The number of slots the table can hold.
    #[inline]
    pub fn slots_capacity(&self) -> (r: u32)
        requires
            self.wf(),
        ensures
            r == self.capacity(),
    {
        self.slot_counters.len() as u32
    }

    /// The interface of the table.
    pub fn interface(&self) -> (r: &I)
        ensures
            *r == self.interface_view(),
    {
        &self.interface
    }
}

impl<I: TableInterface> Table<I> {
    /// Every slot but `i` holds the same count, version and value in both tables.
    pub open spec fn same_slots_except(&self, other: &Self, i: int) -> bool {
        &&& self.capacity() == other.capacity()
        &&& forall|j: int|
            0 <= j < self.capacity() && j != i ==> self.ref_count(j) == other.ref_count(j) && self.version_of(j)
                == other.version_of(j) && self.value(j) == other.value(j)
    }

    /// Both tables agree on everything but their slot counts, versions, values and dead queue.
    pub open spec fn same_frame(&self, other: &Self) -> bool {
        &&& self.spec_table_id() == other.spec_table_id()
        &&& self.capacity() == other.capacity()
        &&& self.interface_view() == other.interface_view()
        &&& self.reaper(AB::A) == other.reaper(AB::A)
        &&& self.reaper(AB::B) == other.reaper(AB::B)
    }

    /// Allocates a slot holding `slot` with a reference count of one: the front of the dead queue if there is one,
    /// or else the next slot that was never allocated, or an error when all are allocated.
    pub fn alloc_slot(&mut self, slot: I::Slot) -> (r: Result<RcTableSlot, SlotAllocationError>)
        requires
            old(self).wf(),
        ensures
            final(self).wf(),
            final(self).same_frame(&*old(self)),
            old(self).dead().len() > 0 ==> {
                &&& r is Ok
                &&& r->Ok_0.spec_index() == old(self).dead()[0]
                &&& final(self).dead() == old(self).dead().drop_first()
                &&& final(self).next_free() == old(self).next_free()
            },
            old(self).dead().len() == 0 && old(self).next_free() < old(self).capacity() ==> {
                &&& r is Ok
                &&& r->Ok_0.spec_index() == old(self).next_free()
                &&& final(self).dead() == old(self).dead()
                &&& final(self).next_free() == old(self).next_free() + 1
            },
            old(self).dead().len() == 0 && old(self).next_free() >= old(self).capacity() ==> {
                &&& r == Err::<RcTableSlot, _>(SlotAllocationError::NoMoreCapacity(old(self).capacity() as u32))
                &&& final(self).dead() == old(self).dead()
                &&& final(self).next_free() == old(self).next_free()
                &&& final(self).same_slots_except(&*old(self), -1)
            },
            r matches Ok(h) ==> {
                &&& final(self).holds(&h)
                &&& final(self).ref_count(h.spec_index() as int) == 1
                &&& final(self).value(h.spec_index() as int) == Some(slot)
                &&& h.spec_version() == old(self).version_of(h.spec_index() as int)
                &&& final(self).same_slots_except(&*old(self), h.spec_index() as int)
            },
    {
        let ghost old_self = *self;
        let capacity = self.slots_capacity();
        let index = match seg_queue_pop(&mut self.dead_queue) {
            Some(index) => index,
            None => {
                let index = self.next_free;
                if index < capacity {
                    self.next_free = index + 1;
                    index
                } else {
                    proof {
                        Self::lemma_wf_same(&old_self, self, Set::empty());
                    }
                    return Err(SlotAllocationError::NoMoreCapacity(capacity));
                }
            },
        };
        proof {
            if old_self.dead().len() > 0 {
                lemma_drop_first(old_self.dead());
                assert(old_self.dead().contains(index));
                assert(old_self.queued(index));
                assert(old_self.slot_ok(index as int, Set::empty()));
            } else {
                assert(old_self.slot_ok(index as int, Set::empty()));
            }
        }
        self.slots.set(index as usize, Some(slot));
        self.slot_counters[index as usize].ref_count = 1;
        let version = self.slot_counters[index as usize].version;
        proof {
            assert forall|x: u32| #[trigger] self.queued(x) implies x < self.capacity() by {
                assert(old_self.queued(x));
            }
            assert forall|i: int| 0 <= i < self.capacity() implies #[trigger] self.slot_ok(i, Set::empty()) by {
                assert(old_self.slot_ok(i, Set::empty()));
            }
        }
        Ok(RcTableSlot { table_id: self.table_id, index, version })
    }
}


impl<I: TableInterface> Table<I> {
    /// Both tables agree on everything but the reference count of slot `i` and the reaper queues.
    pub open spec fn same_except_count(&self, other: &Self, i: int) -> bool {
        &&& self.spec_table_id() == other.spec_table_id()
        &&& self.capacity() == other.capacity()
        &&& self.interface_view() == other.interface_view()
        &&& self.next_free() == other.next_free()
        &&& self.dead() == other.dead()
        &&& forall|j: int|
            0 <= j < self.capacity() ==> self.version_of(j) == other.version_of(j) && self.value(j) == other.value(
                j,
            ) && (j != i ==> self.ref_count(j) == other.ref_count(j))
    }

    /// Adds a reference to an alive slot.
    fn ref_inc(&mut self, index: u32)
        requires
            old(self).wf(),
            old(self).used(index as int),
            old(self).ref_count(index as int) > 0,
            old(self).ref_count(index as int) < u32::MAX,
        ensures
            final(self).wf(),
            final(self).same_except_count(&*old(self), index as int),
            final(self).reaper(AB::A) == old(self).reaper(AB::A),
            final(self).reaper(AB::B) == old(self).reaper(AB::B),
            final(self).ref_count(index as int) == old(self).ref_count(index as int) + 1,
    {
        let ghost old_self = *self;
        let count = self.slot_counters[index as usize].ref_count;
        self.slot_counters[index as usize].ref_count = count + 1;
        proof {
            assert forall|x: u32| #[trigger] self.queued(x) implies x < self.capacity() by {
                assert(old_self.queued(x));
            }
            assert forall|i: int| 0 <= i < self.capacity() implies #[trigger] self.slot_ok(i, Set::empty()) by {
                assert(old_self.slot_ok(i, Set::empty()));
            }
        }
    }

    /// Removes a reference from an alive slot. The slot whose last reference this was goes to the reaper queue of
    /// `write_ab`, and `true` is returned.
    fn ref_dec(&mut self, index: u32, write_ab: AB) -> (r: bool)
        requires
            old(self).wf(),
            old(self).used(index as int),
            old(self).ref_count(index as int) > 0,
        ensures
            final(self).wf(),
            final(self).same_except_count(&*old(self), index as int),
            final(self).ref_count(index as int) == old(self).ref_count(index as int) - 1,
            r == (old(self).ref_count(index as int) == 1),
            r ==> final(self).reaper(write_ab) == old(self).reaper(write_ab).push(index),
            !r ==> final(self).reaper(write_ab) == old(self).reaper(write_ab),
            final(self).reaper(write_ab.other()) == old(self).reaper(write_ab.other()),
    {
        let ghost old_self = *self;
        let count = self.slot_counters[index as usize].ref_count;
        self.slot_counters[index as usize].ref_count = count - 1;
        if count == 1 {
            proof {
                assert(old_self.slot_ok(index as int, Set::empty()));
                lemma_push(old_self.reaper(write_ab), index);
            }
            seg_queue_push(self.reaper_queue.index_mut(write_ab), index);
            proof {
                assert(self.reaper(write_ab.other()) == old_self.reaper(write_ab.other()));
                assert(forall|x: u32| #[trigger] self.reaper(write_ab).contains(x) <==> (old_self.reaper(
                    write_ab,
                ).contains(x) || x == index));
                assert forall|x: u32| #[trigger] self.queued(x) implies x < self.capacity() by {
                    if x != index {
                        assert(old_self.queued(x));
                    }
                }
                assert forall|i: int| 0 <= i < self.capacity() implies #[trigger] self.slot_ok(
                    i,
                    Set::empty(),
                ) by {
                    assert(old_self.slot_ok(i, Set::empty()));
                }
            }
            true
        } else {
            proof {
                assert forall|x: u32| #[trigger] self.queued(x) implies x < self.capacity() by {
                    assert(old_self.queued(x));
                }
                assert forall|i: int| 0 <= i < self.capacity() implies #[trigger] self.slot_ok(
                    i,
                    Set::empty(),
                ) by {
                    assert(old_self.slot_ok(i, Set::empty()));
                }
            }
            false
        }
    }
}


impl<I: TableInterface> Table<I> {
    /// Takes every slot out of the reaper queue of `gc_queue`. The slots wait in the returned set to be dropped.
    pub fn gc_collect(&mut self, gc_queue: AB) -> (r: DescriptorIndexRangeSet)
        requires
            old(self).wf(),
        ensures
            final(self).wf_pending(r@),
            forall|x: u32| #[trigger] r@.contains(x) <==> old(self).reaper(gc_queue).contains(x),
            final(self).reaper(gc_queue) == Seq::<u32>::empty(),
            final(self).reaper(gc_queue.other()) == old(self).reaper(gc_queue.other()),
            final(self).same_except_count(&*old(self), -1),
    {
        let ghost old_self = *self;
        let ghost q0 = old_self.reaper(gc_queue);
        let ghost mut k: int = 0;
        let mut set = DescriptorIndexRangeSet::new();
        proof {
            assert(q0.skip(0) =~= q0);
            assert(set@ =~= Set::<u32>::empty());
        }
        loop
            invariant
                0 <= k <= q0.len(),
                q0 == old_self.reaper(gc_queue),
                old_self.wf(),
                self.reaper(gc_queue) == q0.skip(k),
                self.reaper(gc_queue.other()) == old_self.reaper(gc_queue.other()),
                self.same_except_count(&old_self, -1),
                forall|x: u32| #[trigger] set@.contains(x) <==> q0.take(k).contains(x),
                self.wf_pending(set@),
            ensures
                k == q0.len(),
                self.reaper(gc_queue) == q0.skip(k),
                self.reaper(gc_queue.other()) == old_self.reaper(gc_queue.other()),
                self.same_except_count(&old_self, -1),
                forall|x: u32| #[trigger] set@.contains(x) <==> q0.take(k).contains(x),
                self.wf_pending(set@),
            decreases q0.len() - k,
        {
            let ghost before = *self;
            let ghost before_set = set@;
            match seg_queue_pop(self.reaper_queue.index_mut(gc_queue)) {
                Some(index) => {
                    proof {
                        assert(before.reaper(gc_queue)[0] == q0[k]);
                        assert(before.reaper(gc_queue).contains(index));
                        assert(before.queued(index));
                        lemma_drop_first(before.reaper(gc_queue));
                        assert(before.reaper(gc_queue).drop_first() =~= q0.skip(k + 1));
                        assert(before.slot_ok(index as int, before_set));
                    }
                    set.insert(index);
                    proof {
                        assert(self.reaper(gc_queue.other()) == before.reaper(gc_queue.other()));
                        let t0 = q0.take(k);
                        let t1 = q0.take(k + 1);
                        assert forall|x: u32| #[trigger] set@.contains(x) <==> t1.contains(x) by {
                            if t1.contains(x) {
                                let j = choose|j: int| 0 <= j < t1.len() && t1[j] == x;
                                if j < k {
                                    assert(t0[j] == x);
                                }
                            }
                            if t0.contains(x) {
                                let j = choose|j: int| 0 <= j < t0.len() && t0[j] == x;
                                assert(t1[j] == x);
                            }
                            if x == index {
                                assert(t1[k] == x);
                            }
                        }
                        assert forall|x: u32| #[trigger] self.queued(x) implies x < self.capacity() by {
                            assert(before.queued(x));
                        }
                        assert forall|x: u32| #[trigger] set@.contains(x) implies x < self.capacity() by {
                            if x != index {
                                assert(before_set.contains(x));
                            }
                        }
                        assert forall|i: int| 0 <= i < self.capacity() implies #[trigger] self.slot_ok(i, set@) by {
                            assert(before.slot_ok(i, before_set));
                        }
                        k = k + 1;
                    }
                },
                None => {
                    proof {
                        Self::lemma_wf_same(&before, self, before_set);
                    }
                    break ;
                },
            }
        }
        proof {
            assert(q0.skip(k) =~= Seq::<u32>::empty());
            assert(q0.take(k) =~= q0);
        }
        set
    }
}


/// The slots that wait to be dropped after the first `k` of `order` were.
pub open spec fn pending_after(order: Seq<u32>, k: int) -> Set<u32> {
    Set::new(|x: u32| order.skip(k).contains(x))
}

impl<I: TableInterface> Table<I> {
    /// Drops the slots of `gc_indices`, which wait in no queue: the interface is told first, then each slot, in
    /// increasing order, loses its value and moves to its next version, and goes to the back of the dead queue to
    /// be reused, unless its versions ran out.
    pub fn gc_drop(&mut self, gc_indices: DescriptorIndexRangeSet)
        requires
            old(self).wf_pending(gc_indices@),
        ensures
            final(self).wf(),
            final(self).spec_table_id() == old(self).spec_table_id(),
            final(self).capacity() == old(self).capacity(),
            final(self).next_free() == old(self).next_free(),
            final(self).reaper(AB::A) == old(self).reaper(AB::A),
            final(self).reaper(AB::B) == old(self).reaper(AB::B),
            final(self).interface_view().dropped() == old(self).interface_view().dropped().push(gc_indices@),
            forall|i: int| 0 <= i < old(self).capacity() ==> #[trigger] final(self).ref_count(i) == old(self).ref_count(i),
            forall|i: int|
                0 <= i < old(self).capacity() && gc_indices@.contains(i as u32) ==> #[trigger] final(self).value(i) is None
                    && final(self).version_of(i) == old(self).version_of(i) + 1,
            forall|i: int|
                0 <= i < old(self).capacity() && !gc_indices@.contains(i as u32) ==> #[trigger] final(self).value(i)
                    == old(self).value(i) && final(self).version_of(i) == old(self).version_of(i),
            final(self).dead().len() >= old(self).dead().len(),
            final(self).dead().take(old(self).dead().len() as int) == old(self).dead(),
            forall|a: int, b: int|
                old(self).dead().len() <= a < b < final(self).dead().len() ==> #[trigger] final(self).dead()[a]
                    < #[trigger] final(self).dead()[b],
            forall|x: u32| #[trigger]
                final(self).dead().skip(old(self).dead().len() as int).contains(x) <==> (gc_indices@.contains(x)
                    && old(self).version_of(x as int) < ID_VERSION_MASK),
    {
        let ghost old_self = *self;
        self.interface.drop_slots(&gc_indices);
        proof {
            Self::lemma_wf_same(&old_self, self, gc_indices@);
        }
        let order = gc_indices.iter();
        let ghost vs = order@;
        let ghost mid = *self;
        let ghost mut added: Seq<u32> = Seq::empty();
        proof {
            assert(vs.no_duplicates());
            assert(vs.skip(0) =~= vs);
            assert(pending_after(vs, 0) =~= gc_indices@);
            assert(mid.dead() + added =~= mid.dead());
        }
        let mut k: usize = 0;
        while k < order.len()
            invariant
                k <= vs.len(),
                order@ == vs,
                vs.no_duplicates(),
                forall|a: int, b: int| 0 <= a < b < vs.len() ==> vs[a] < vs[b],
                forall|x: u32| gc_indices@.contains(x) <==> vs.contains(x),
                mid.wf_pending(gc_indices@),
                self.interface_view() == mid.interface_view(),
                self.wf_pending(pending_after(vs, k as int)),
                self.dead() == mid.dead() + added,
                forall|a: int, b: int| 0 <= a < b < added.len() ==> added[a] < added[b],
                forall|a: int, j: int| 0 <= a < added.len() && k <= j < vs.len() ==> added[a] < vs[j],
                forall|x: u32| #[trigger]
                    added.contains(x) <==> (vs.take(k as int).contains(x) && mid.version_of(x as int) < ID_VERSION_MASK),
                self.spec_table_id() == mid.spec_table_id(),
                self.capacity() == mid.capacity(),
                self.next_free() == mid.next_free(),
                self.reaper(AB::A) == mid.reaper(AB::A),
                self.reaper(AB::B) == mid.reaper(AB::B),
                forall|i: int| 0 <= i < mid.capacity() ==> #[trigger] self.ref_count(i) == mid.ref_count(i),
                forall|i: int|
                    0 <= i < mid.capacity() && vs.take(k as int).contains(i as u32) ==> #[trigger] self.value(i) is None
                        && self.version_of(i) == mid.version_of(i) + 1,
                forall|i: int|
                    0 <= i < mid.capacity() && !vs.take(k as int).contains(i as u32) ==> #[trigger] self.value(i)
                        == mid.value(i) && self.version_of(i) == mid.version_of(i),
            decreases vs.len() - k,
        {
            let index = order[k];
            let ghost before = *self;
            let ghost kk = k as int;
            let ghost pending = pending_after(vs, kk);
            let ghost next_pending = pending_after(vs, kk + 1);
            proof {
                lemma_drop_first(vs.skip(kk));
                assert(vs.skip(kk)[0] == index);
                assert(vs.skip(kk).drop_first() =~= vs.skip(kk + 1));
                assert(pending.contains(index));
                assert(forall|x: u32| #[trigger] next_pending.contains(x) <==> (pending.contains(x) && x != index));
                assert(before.slot_ok(index as int, pending));
                assert(!vs.take(kk).contains(index)) by {
                    if vs.take(kk).contains(index) {
                        let j = choose|j: int| 0 <= j < vs.take(kk).len() && vs.take(kk)[j] == index;
                        assert(vs[j] == vs[kk]);
                    }
                }
                assert(vs[kk] == index);
                assert(vs.contains(index));
                assert(gc_indices@.contains(index));
                assert(before.version_of(index as int) == mid.version_of(index as int));
            }
            self.slots.set(index as usize, None);
            let version = self.slot_counters[index as usize].version + 1;
            self.slot_counters[index as usize].version = version;
            let ghost old_added = added;
            if version <= ID_VERSION_MASK {
                proof {
                    assert(!before.dead().contains(index));
                    lemma_push(before.dead(), index);
                }
                seg_queue_push(&mut self.dead_queue, index);
                proof {
                    assert(forall|a: int| 0 <= a < added.len() ==> added[a] < vs[kk]);
                    added = added.push(index);
                    assert(self.dead() =~= mid.dead() + added);
                }
            }
            proof {
                let t0 = vs.take(kk);
                let t1 = vs.take(kk + 1);
                assert forall|x: u32| #[trigger] t1.contains(x) <==> (t0.contains(x) || x == index) by {
                    if t1.contains(x) {
                        let j = choose|j: int| 0 <= j < t1.len() && t1[j] == x;
                        if j < kk {
                            assert(t0[j] == x);
                        }
                    }
                    if t0.contains(x) {
                        let j = choose|j: int| 0 <= j < t0.len() && t0[j] == x;
                        assert(t1[j] == x);
                    }
                    if x == index {
                        assert(t1[kk] == x);
                    }
                }
                assert forall|x: u32| #[trigger] added.contains(x) <==> (t1.contains(x) && mid.version_of(x as int)
                    < ID_VERSION_MASK) by {
                    if version <= ID_VERSION_MASK {
                        assert(added == old_added.push(index));
                        if added.contains(x) && x != index {
                            let j = choose|j: int| 0 <= j < added.len() && added[j] == x;
                            assert(old_added[j] == x);
                        }
                        if old_added.contains(x) {
                            let j = choose|j: int| 0 <= j < old_added.len() && old_added[j] == x;
                            assert(added[j] == x);
                        }
                        if x == index {
                            assert(added[added.len() - 1] == x);
                        }
                    } else {
                        assert(added == old_added);
                    }
                }
                assert forall|x: u32| #[trigger] self.queued(x) implies x < self.capacity() by {
                    if x != index {
                        assert(before.queued(x));
                    }
                }
                assert forall|x: u32| #[trigger] next_pending.contains(x) implies x < self.capacity() by {
                    assert(pending.contains(x));
                }
                assert forall|i: int| 0 <= i < mid.capacity() implies #[trigger] self.ref_count(i) == mid.ref_count(i) by {
                    assert(before.ref_count(i) == mid.ref_count(i));
                }
                assert forall|i: int| 0 <= i < mid.capacity() && t1.contains(i as u32) implies #[trigger] self.value(i) is None
                    && self.version_of(i) == mid.version_of(i) + 1 by {
                    if i != index as int {
                        assert(t0.contains(i as u32));
                        assert(before.value(i) is None);
                    }
                }
                assert forall|i: int| 0 <= i < mid.capacity() && !t1.contains(i as u32) implies #[trigger] self.value(i)
                    == mid.value(i) && self.version_of(i) == mid.version_of(i) by {
                    assert(before.value(i) == mid.value(i));
                }
                assert forall|i: int| 0 <= i < self.capacity() implies #[trigger] self.slot_ok(i, next_pending) by {
                    assert(before.slot_ok(i, pending));
                }
            }
            k = k + 1;
        }
        proof {
            assert(vs.skip(vs.len() as int) =~= Seq::<u32>::empty());
            assert(pending_after(vs, vs.len() as int) =~= Set::<u32>::empty());
            assert(vs.take(vs.len() as int) =~= vs);
            assert(self.dead().take(old_self.dead().len() as int) =~= old_self.dead());
            assert(self.dead().skip(old_self.dead().len() as int) =~= added);
        }
    }
}


impl<I: TableInterface> Table<I> {
    /// The table is `old` after the slots of its reaper queue of `ab` were collected and dropped: the interface was
    /// told of their indices, each lost its value and moved to its next version, and those with versions left went to
    /// the back of the dead queue in increasing order.
    pub open spec fn collected(&self, old: &Self, ab: AB) -> bool {
        let added = self.dead().skip(old.dead().len() as int);
        &&& self.wf()
        &&& self.spec_table_id() == old.spec_table_id()
        &&& self.capacity() == old.capacity()
        &&& self.next_free() == old.next_free()
        &&& self.reaper(ab) == Seq::<u32>::empty()
        &&& self.reaper(ab.other()) == old.reaper(ab.other())
        &&& self.interface_view().dropped() == old.interface_view().dropped().push(
            Set::new(|x: u32| old.reaper(ab).contains(x)),
        )
        &&& forall|i: int| 0 <= i < old.capacity() ==> #[trigger] self.ref_count(i) == old.ref_count(i)
        &&& forall|i: int|
            0 <= i < old.capacity() && old.reaper(ab).contains(i as u32) ==> #[trigger] self.value(i) is None
                && self.version_of(i) == old.version_of(i) + 1
        &&& forall|i: int|
            0 <= i < old.capacity() && !old.reaper(ab).contains(i as u32) ==> #[trigger] self.value(i) == old.value(i)
                && self.version_of(i) == old.version_of(i)
        &&& self.dead().len() >= old.dead().len()
        &&& self.dead().take(old.dead().len() as int) == old.dead()
        &&& forall|a: int, b: int| 0 <= a < b < added.len() ==> #[trigger] added[a] < #[trigger] added[b]
        &&& forall|x: u32| #[trigger]
            added.contains(x) <==> (old.reaper(ab).contains(x) && old.version_of(x as int) < ID_VERSION_MASK)
    }

    /// A handle to a slot that is collected from a reaper queue no longer holds the slot afterwards, since the slot
    /// moved on to its next version.
    pub proof fn lemma_collected_handle_stale(&self, old: &Self, ab: AB, slot: &RcTableSlot)
        requires
            self.collected(old, ab),
            slot.spec_table_id() == old.spec_table_id(),
            old.used(slot.spec_index() as int),
            old.reaper(ab).contains(slot.spec_index()),
            old.version_of(slot.spec_index() as int) == slot.spec_version(),
        ensures
            !self.holds(slot),
            self.value(slot.spec_index() as int) is None,
    {
        assert(self.version_of(slot.spec_index() as int) == old.version_of(slot.spec_index() as int) + 1);
    }

    /// Collects and drops the slots of the reaper queue of `ab`.
    #[verifier::spinoff_prover]
    #[verifier::rlimit(30)]
    fn gc(&mut self, ab: AB)
        requires
            old(self).wf(),
        ensures
            final(self).collected(&*old(self), ab),
    {
        let ghost old_self = *self;
        let set = self.gc_collect(ab);
        let ghost mid = *self;
        self.gc_drop(set);
        proof {
            assert(set@ =~= Set::new(|x: u32| old_self.reaper(ab).contains(x)));
            assert(mid.dead() == old_self.dead());
            let added = self.dead().skip(old_self.dead().len() as int);
            assert forall|a: int, b: int| 0 <= a < b < added.len() implies #[trigger] added[a] < #[trigger] added[b] by {
                assert(added[a] == self.dead()[old_self.dead().len() + a]);
                assert(added[b] == self.dead()[old_self.dead().len() + b]);
            }
            assert forall|i: int| 0 <= i < old_self.capacity() && old_self.reaper(ab).contains(i as u32) implies #[trigger] self.value(i) is None
                && self.version_of(i) == old_self.version_of(i) + 1 by {
                assert(set@.contains(i as u32));
            }
            assert forall|i: int| 0 <= i < old_self.capacity() && !old_self.reaper(ab).contains(i as u32) implies #[trigger] self.value(i) == old_self.value(i)
                && self.version_of(i) == old_self.version_of(i) by {
                assert(!set@.contains(i as u32));
            }
            assert forall|i: int| 0 <= i < old_self.capacity() implies #[trigger] self.ref_count(i) == old_self.ref_count(i) by {
                assert(mid.ref_count(i) == old_self.ref_count(i));
            }
        }
    }
}

/// A frame in flight. While it runs, no slot dropped in its half is reused. The frame ends with [`FrameGuard::drop`]; a
/// guard that goes out of scope without it keeps its frame counted as in flight.
pub struct FrameGuard {
    frame_ab: AB,
}

impl FrameGuard {
    pub closed spec fn spec_ab(&self) -> AB {
        self.frame_ab
    }

    /// The half of the frame.
    pub fn ab(&self) -> (r: AB)
        ensures
            r == self.spec_ab(),
    {
        self.frame_ab
    }

    /// Ends the frame.
    pub fn drop<I: TableInterface>(self, table_manager: &mut TableManager<I>)
        requires
            old(table_manager).wf(),
            old(table_manager).frame_count(self.spec_ab()) > 0,
        ensures
            final(table_manager).frame_dropped(&*old(table_manager), self.spec_ab()),
    {
        table_manager.frame_drop(self.frame_ab);
    }
}

/// The tables, and the frames in flight of each half that they wait for before they reuse a slot.
pub struct TableManager<I: TableInterface> {
    tables: Vec<Table<I>>,
    frame_counts: ABArray<u32>,
    write_queue_ab: AB,
}

impl<I: TableInterface> TableManager<I> {
    pub closed spec fn table_count(&self) -> nat {
        self.tables@.len()
    }

    pub closed spec fn spec_table(&self, id: int) -> Table<I> {
        self.tables@[id]
    }

    /// The frames in flight of a half.
    pub closed spec fn frame_count(&self, ab: AB) -> u32 {
        self.frame_counts.at(ab)
    }

    /// The half whose reaper queues receive the slots dropped now.
    pub closed spec fn write_ab(&self) -> AB {
        self.write_queue_ab
    }

    /// The half of a frame started now.
    pub open spec fn spec_frame_ab(&self) -> AB {
        self.write_ab().other()
    }

    pub closed spec fn wf(&self) -> bool {
        &&& self.table_count() <= TABLE_COUNT
        &&& forall|k: int|
            0 <= k < self.table_count() ==> (#[trigger] self.spec_table(k)).wf() && self.spec_table(k).spec_table_id()
                == k
    }

    /// A manager whose tables are those of a consistent one is consistent.
    proof fn lemma_wf_same_tables(a: &Self, b: &Self)
        requires
            a.wf(),
            a.tables@ == b.tables@,
        ensures
            b.wf(),
    {
        assert forall|k: int| 0 <= k < b.table_count() implies (#[trigger] b.spec_table(k)).wf()
            && b.spec_table(k).spec_table_id() == k by {
            assert(a.spec_table(k).wf());
        }
    }

    /// Replacing one table by a consistent table with the same id keeps the manager consistent.
    proof fn lemma_wf_update(a: &Self, b: &Self, id: int)
        requires
            a.wf(),
            0 <= id < a.table_count(),
            b.tables@ == a.tables@.update(id, b.tables@[id]),
            b.tables@[id].wf(),
            b.tables@[id].spec_table_id() == id,
        ensures
            b.wf(),
            forall|k: int| 0 <= k < a.table_count() && k != id ==> #[trigger] b.spec_table(k) == a.spec_table(k),
    {
        assert forall|k: int| 0 <= k < b.table_count() implies (#[trigger] b.spec_table(k)).wf()
            && b.spec_table(k).spec_table_id() == k by {
            if k != id {
                assert(a.spec_table(k).wf());
            }
        }
    }

    /// The handle refers to an alive slot of one of the tables.
    pub open spec fn holds(&self, slot: &RcTableSlot) -> bool {
        &&& slot.spec_table_id() < self.table_count()
        &&& self.spec_table(slot.spec_table_id() as int).holds(slot)
    }

    /// Every table of `old` had its reaper queue of `ab` collected, and the dropped slots are now written to
    /// the queues of `ab`.
    pub open spec fn collected(&self, old: &Self, ab: AB) -> bool {
        &&& self.wf()
        &&& self.table_count() == old.table_count()
        &&& self.write_ab() == ab
        &&& forall|k: int| 0 <= k < self.table_count() ==> #[trigger] self.spec_table(k).collected(&old.spec_table(k), ab)
    }

    /// The tables and halves are those of `old`.
    pub open spec fn same_tables(&self, old: &Self) -> bool {
        &&& self.wf()
        &&& self.table_count() == old.table_count()
        &&& self.write_ab() == old.write_ab()
        &&& forall|k: int| 0 <= k < self.table_count() ==> #[trigger] self.spec_table(k) == old.spec_table(k)
    }

    /// `old` after a frame started in half `ab`, the half frames start in: when no frame of the other half was in
    /// flight, the reaper queues of `ab` are collected and the dropped slots go to `ab` from now on, so that the next
    /// frame starts in the other half.
    pub open spec fn frame_started(&self, old: &Self, ab: AB) -> bool {
        &&& ab == old.spec_frame_ab()
        &&& self.frame_count(ab) == old.frame_count(ab) + 1
        &&& self.frame_count(ab.other()) == old.frame_count(ab.other())
        &&& if old.frame_count(ab.other()) == 0 {
            self.collected(old, ab)
        } else {
            self.same_tables(old)
        }
    }

    /// A frame of half `h` in flight keeps the slots in the reaper queues of `q` from being collected: `q` is the half
    /// dropped slots are written to, or `h` has become that half.
    pub open spec fn protects(&self, q: AB, h: AB) -> bool {
        &&& self.frame_count(h) > 0
        &&& (q == self.write_ab() || h == self.write_ab())
    }

    /// A slot dropped while a frame of half `h` is in flight goes to the reaper queues of the half written to, which
    /// that frame then protects.
    pub proof fn lemma_drop_protected(&self, h: AB)
        requires
            self.frame_count(h) > 0,
        ensures
            self.protects(self.write_ab(), h),
    {
    }

    /// Starting a frame keeps every protection, and collects no reaper queue of a protected half: either nothing is
    /// collected, or only the queues of the other half.
    pub proof fn lemma_frame_started_protects(&self, old: &Self, ab: AB, q: AB, h: AB)
        requires
            self.frame_started(old, ab),
            old.protects(q, h),
        ensures
            self.protects(q, h),
            self.same_tables(old) || self.collected(old, q.other()),
    {
    }

    /// Ending a frame other than the last one of a protecting half keeps the protection, and collects no reaper queue
    /// of the protected half: either nothing is collected, or only the queues of the other half. So a slot dropped
    /// while a frame is in flight is neither told to the interface nor dropped until that frame ends.
    pub proof fn lemma_frame_dropped_protects(&self, old: &Self, ab: AB, q: AB, h: AB)
        requires
            self.frame_dropped(old, ab),
            old.protects(q, h),
            self.frame_count(h) > 0,
        ensures
            self.protects(q, h),
            self.same_tables(old) || self.collected(old, q.other()),
    {
    }

    /// `old` after a frame of `ab` ended: when it was the last of its half and its half is not the one frames
    /// start in, the reaper queues of the other half, whose frames all ended earlier, are collected.
    pub open spec fn frame_dropped(&self, old: &Self, ab: AB) -> bool {
        &&& self.frame_count(ab) == old.frame_count(ab) - 1
        &&& self.frame_count(ab.other()) == old.frame_count(ab.other())
        &&& if old.frame_count(ab) == 1 && old.spec_frame_ab() != ab {
            self.collected(old, ab.other())
        } else {
            self.same_tables(old)
        }
    }

    /// Ending a frame collects nothing while other frames of its half are in flight, or while its half is the one
    /// frames start in: a slot dropped meanwhile stays uncollected until those frames end.
    pub proof fn lemma_no_collection_while_frames_run(&self, old: &Self, ab: AB)
        requires
            self.frame_dropped(old, ab),
            old.frame_count(ab) > 1 || old.spec_frame_ab() == ab,
        ensures
            self.same_tables(old),
    {
    }

    pub fn new() -> (r: Self)
        ensures
            r.wf(),
            r.table_count() == 0,
            r.frame_count(AB::A) == 0,
            r.frame_count(AB::B) == 0,
            r.write_ab() == AB::B,
    {
        TableManager {
            tables: Vec::new(),
            frame_counts: ABArray::new(|| -> (c: u32)
                ensures
                    c == 0,
                { 0 }),
            write_queue_ab: AB::B,
        }
    }

    /// Registers a table of `slots_capacity` slots, with the next table id, or fails when all ids are taken.
    pub fn register(&mut self, slots_capacity: u32, interface: I) -> (r: Result<TableId, TableRegisterError>)
        requires
            old(self).wf(),
        ensures
            final(self).wf(),
            final(self).write_ab() == old(self).write_ab(),
            final(self).frame_count(AB::A) == old(self).frame_count(AB::A),
            final(self).frame_count(AB::B) == old(self).frame_count(AB::B),
            forall|k: int| 0 <= k < old(self).table_count() ==> #[trigger] final(self).spec_table(k) == old(self).spec_table(k),
            old(self).table_count() < TABLE_COUNT ==> {
                let t = final(self).spec_table(old(self).table_count() as int);
                &&& r matches Ok(id) && id.spec_id() == old(self).table_count()
                &&& final(self).table_count() == old(self).table_count() + 1
                &&& t.capacity() == slots_capacity
                &&& t.interface_view() == interface
                &&& t.next_free() == 0
                &&& t.dead() == Seq::<u32>::empty()
                &&& t.reaper(AB::A) == Seq::<u32>::empty()
                &&& t.reaper(AB::B) == Seq::<u32>::empty()
                &&& forall|i: int| 0 <= i < t.capacity() ==> #[trigger] t.value(i) is None
                &&& forall|i: int| 0 <= i < t.capacity() ==> #[trigger] t.ref_count(i) == 0
                &&& forall|i: int| 0 <= i < t.capacity() ==> #[trigger] t.version_of(i) == 0
            },
            old(self).table_count() >= TABLE_COUNT ==> r == Err::<TableId, _>(TableRegisterError::OutOfTables)
                && final(self).table_count() == old(self).table_count(),
    {
        let table_id = self.tables.len();
        if table_id < TABLE_COUNT as usize {
            let table = Table::new(table_id as u32, slots_capacity, interface);
            let ghost old_self = *self;
            self.tables.push(table);
            proof {
                assert forall|k: int| 0 <= k < self.table_count() implies (#[trigger] self.spec_table(k)).wf()
                    && self.spec_table(k).spec_table_id() == k by {
                    if k < old_self.table_count() {
                        assert(old_self.spec_table(k).wf());
                        assert(self.spec_table(k) == old_self.spec_table(k));
                    }
                }
            }
            let id = TableId::new(table_id as u32);
            match id {
                Some(id) => Ok(id),
                None => vstd::pervasive::unreached(),
            }
        } else {
            Err(TableRegisterError::OutOfTables)
        }
    }

    /// The table with id `table_id`.
    pub fn table(&self, table_id: u32) -> (r: &Table<I>)
        requires
            table_id < self.table_count(),
        ensures
            *r == self.spec_table(table_id as int),
    {
        &self.tables[table_id as usize]
    }

    /// The half whose reaper queues receive the slots dropped now.
    fn write_queue_ab(&self) -> (r: AB)
        ensures
            r == self.write_ab(),
    {
        self.write_queue_ab
    }

    /// The half of a frame started now.
    pub fn frame_ab(&self) -> (r: AB)
        ensures
            r == self.spec_frame_ab(),
    {
        self.write_queue_ab.not()
    }

    /// Allocates a slot holding `slot` in the table `table_id`.
    pub fn alloc_slot(&mut self, table_id: u32, slot: I::Slot) -> (r: Result<RcTableSlot, SlotAllocationError>)
        requires
            old(self).wf(),
            table_id < old(self).table_count(),
        ensures
            final(self).wf(),
            final(self).table_count() == old(self).table_count(),
            final(self).write_ab() == old(self).write_ab(),
            final(self).frame_count(AB::A) == old(self).frame_count(AB::A),
            final(self).frame_count(AB::B) == old(self).frame_count(AB::B),
            forall|k: int| 0 <= k < old(self).table_count() && k != table_id ==> #[trigger] final(self).spec_table(k) == old(self).spec_table(k),
            ({
                let t0 = old(self).spec_table(table_id as int);
                let t1 = final(self).spec_table(table_id as int);
                &&& t1.same_frame(&t0)
                &&& t0.dead().len() > 0 ==> r is Ok && r->Ok_0.spec_index() == t0.dead()[0] && t1.dead() == t0.dead().drop_first()
                    && t1.next_free() == t0.next_free()
                &&& t0.dead().len() == 0 && t0.next_free() < t0.capacity() ==> r is Ok && r->Ok_0.spec_index() == t0.next_free()
                    && t1.next_free() == t0.next_free() + 1 && t1.dead() == t0.dead()
                &&& t0.dead().len() == 0 && t0.next_free() >= t0.capacity() ==> r == Err::<RcTableSlot, _>(
                    SlotAllocationError::NoMoreCapacity(t0.capacity() as u32)) && t1.dead() == t0.dead()
                    && t1.next_free() == t0.next_free() && t1.same_slots_except(&t0, -1)
                &&& r matches Ok(h) ==> final(self).holds(&h) && h.spec_table_id() == table_id && t1.ref_count(h.spec_index() as int) == 1
                    && t1.value(h.spec_index() as int) == Some(slot) && h.spec_version() == t0.version_of(h.spec_index() as int)
                    && t1.same_slots_except(&t0, h.spec_index() as int)
            }),
    {
        let ghost old_self = *self;
        proof {
            assert(self.spec_table(table_id as int).wf());
        }
        let r = self.tables[table_id as usize].alloc_slot(slot);
        proof {
            Self::lemma_wf_update(&old_self, self, table_id as int);
        }
        r
    }
}


impl<I: TableInterface> TableManager<I> {
    /// Collects the reaper queues of the half other than `dropped_frame_ab` in every table, and sends the slots
    /// dropped from now on to that half.
    fn gc_queue(&mut self, dropped_frame_ab: AB)
        requires
            old(self).wf(),
        ensures
            final(self).collected(&*old(self), dropped_frame_ab.other()),
            final(self).frame_count(AB::A) == old(self).frame_count(AB::A),
            final(self).frame_count(AB::B) == old(self).frame_count(AB::B),
    {
        let gc_queue = dropped_frame_ab.not();
        let ghost old_self = *self;
        let mut k: usize = 0;
        while k < self.tables.len()
            invariant
                old_self.wf(),
                gc_queue == dropped_frame_ab.other(),
                self.tables@.len() == old_self.tables@.len(),
                k <= self.tables@.len(),
                self.frame_counts == old_self.frame_counts,
                forall|j: int| 0 <= j < k ==> #[trigger] self.tables@[j].collected(&old_self.tables@[j], gc_queue),
                forall|j: int| k <= j < self.tables@.len() ==> #[trigger] self.tables@[j] == old_self.tables@[j],
            decreases self.tables@.len() - k,
        {
            proof {
                assert(old_self.spec_table(k as int).wf());
            }
            self.tables[k].gc(gc_queue);
            k = k + 1;
        }
        self.write_queue_ab = gc_queue;
        proof {
            assert forall|j: int| 0 <= j < self.table_count() implies (#[trigger] self.spec_table(j)).wf()
                && self.spec_table(j).spec_table_id() == j by {
                assert(self.tables@[j].collected(&old_self.tables@[j], gc_queue));
                assert(old_self.spec_table(j).spec_table_id() == j);
            }
        }
    }

    /// Starts a frame in the half frames start in now. When no frame of the other half is in flight, the reaper
    /// queues of this half are collected and the dropped slots go to this half from now on, so that the next frame
    /// starts in the other half.
    pub fn frame(&mut self) -> (r: FrameGuard)
        requires
            old(self).wf(),
            old(self).frame_count(old(self).spec_frame_ab()) < u32::MAX,
        ensures
            final(self).frame_started(&*old(self), r.spec_ab()),
    {
        let ghost old_self = *self;
        let frame_ab = self.frame_ab();
        let count = *self.frame_counts.index(frame_ab);
        self.frame_counts.set(frame_ab, count + 1);
        proof {
            Self::lemma_wf_same_tables(&old_self, self);
        }
        let other = frame_ab.not();
        if *self.frame_counts.index(other) == 0 {
            let ghost mid = *self;
            self.gc_queue(other);
            proof {
                assert(other.other() == frame_ab);
                assert forall|k: int| 0 <= k < self.table_count() implies #[trigger] self.spec_table(k).collected(
                    &old_self.spec_table(k),
                    frame_ab,
                ) by {
                    assert(self.spec_table(k).collected(&mid.spec_table(k), frame_ab));
                }
            }
        }
        FrameGuard { frame_ab }
    }

    /// Ends a frame of `dropped_frame_ab`.
    fn frame_drop(&mut self, dropped_frame_ab: AB)
        requires
            old(self).wf(),
            old(self).frame_count(dropped_frame_ab) > 0,
        ensures
            final(self).frame_dropped(&*old(self), dropped_frame_ab),
    {
        let ghost old_self = *self;
        let count = *self.frame_counts.index(dropped_frame_ab);
        if count == 1 {
            self.frame_counts.set(dropped_frame_ab, 0);
            proof {
                Self::lemma_wf_same_tables(&old_self, self);
            }
            let frame_ab = self.frame_ab();
            if frame_ab != dropped_frame_ab {
                let ghost mid = *self;
                self.gc_queue(dropped_frame_ab);
                proof {
                    assert forall|k: int| 0 <= k < self.table_count() implies #[trigger] self.spec_table(k).collected(
                        &old_self.spec_table(k),
                        dropped_frame_ab.other(),
                    ) by {
                        assert(self.spec_table(k).collected(&mid.spec_table(k), dropped_frame_ab.other()));
                    }
                }
            }
        } else {
            self.frame_counts.set(dropped_frame_ab, count - 1);
            proof {
                Self::lemma_wf_same_tables(&old_self, self);
            }
        }
    }
}

impl RcTableSlot {
    /// Another handle to the same slot, which adds a reference to it.
    pub fn clone<I: TableInterface>(&self, table_manager: &mut TableManager<I>) -> (r: RcTableSlot)
        requires
            old(table_manager).wf(),
            old(table_manager).holds(self),
            old(table_manager).spec_table(self.spec_table_id() as int).ref_count(self.spec_index() as int) < u32::MAX,
        ensures
            r == *self,
            final(table_manager).wf(),
            final(table_manager).table_count() == old(table_manager).table_count(),
            final(table_manager).write_ab() == old(table_manager).write_ab(),
            final(table_manager).frame_count(AB::A) == old(table_manager).frame_count(AB::A),
            final(table_manager).frame_count(AB::B) == old(table_manager).frame_count(AB::B),
            forall|k: int| 0 <= k < old(table_manager).table_count() && k != self.spec_table_id() ==> #[trigger] final(table_manager).spec_table(k) == old(table_manager).spec_table(k),
            ({
                let t0 = old(table_manager).spec_table(self.spec_table_id() as int);
                let t1 = final(table_manager).spec_table(self.spec_table_id() as int);
                &&& t1.same_except_count(&t0, self.spec_index() as int)
                &&& t1.reaper(AB::A) == t0.reaper(AB::A)
                &&& t1.reaper(AB::B) == t0.reaper(AB::B)
                &&& t1.ref_count(self.spec_index() as int) == t0.ref_count(self.spec_index() as int) + 1
            }),
    {
        let ghost old_tm = *table_manager;
        proof {
            assert(table_manager.spec_table(self.table_id as int).wf());
        }
        table_manager.tables[self.table_id as usize].ref_inc(self.index);
        proof {
            TableManager::lemma_wf_update(&old_tm, table_manager, self.table_id as int);
        }
        RcTableSlot { table_id: self.table_id, index: self.index, version: self.version }
    }

    /// Gives up the handle and its reference. The slot whose last reference this was goes to the reaper queue of
    /// the half dropped slots are written to now.
    pub fn drop<I: TableInterface>(self, table_manager: &mut TableManager<I>)
        requires
            old(table_manager).wf(),
            old(table_manager).holds(&self),
        ensures
            final(table_manager).wf(),
            final(table_manager).table_count() == old(table_manager).table_count(),
            final(table_manager).write_ab() == old(table_manager).write_ab(),
            final(table_manager).frame_count(AB::A) == old(table_manager).frame_count(AB::A),
            final(table_manager).frame_count(AB::B) == old(table_manager).frame_count(AB::B),
            forall|k: int| 0 <= k < old(table_manager).table_count() && k != self.spec_table_id() ==> #[trigger] final(table_manager).spec_table(k) == old(table_manager).spec_table(k),
            ({
                let t0 = old(table_manager).spec_table(self.spec_table_id() as int);
                let t1 = final(table_manager).spec_table(self.spec_table_id() as int);
                let ab = old(table_manager).write_ab();
                let last = t0.ref_count(self.spec_index() as int) == 1;
                &&& t1.same_except_count(&t0, self.spec_index() as int)
                &&& t1.ref_count(self.spec_index() as int) == t0.ref_count(self.spec_index() as int) - 1
                &&& last ==> t1.reaper(ab) == t0.reaper(ab).push(self.spec_index())
                &&& !last ==> t1.reaper(ab) == t0.reaper(ab)
                &&& t1.reaper(ab.other()) == t0.reaper(ab.other())
            }),
    {
        let ghost old_tm = *table_manager;
        proof {
            assert(table_manager.spec_table(self.table_id as int).wf());
        }
        let ab = table_manager.write_queue_ab();
        table_manager.tables[self.table_id as usize].ref_dec(self.index, ab);
        proof {
            TableManager::lemma_wf_update(&old_tm, table_manager, self.table_id as int);
        }
    }

    /// The value of the slot.
    pub fn deref<'a, I: TableInterface>(&self, table_manager: &'a TableManager<I>) -> (r: &'a I::Slot)
        requires
            table_manager.wf(),
            table_manager.holds(self),
        ensures
            table_manager.spec_table(self.spec_table_id() as int).value(self.spec_index() as int) == Some(*r),
    {
        proof {
            assert(table_manager.spec_table(self.table_id as int).wf());
        }
        table_manager.tables[self.table_id as usize].get(self.index)
    }
}

impl<I: TableInterface> Table<I> {
    /// The value of an alive slot.
    fn get(&self, index: u32) -> (r: &I::Slot)
        requires
            self.wf(),
            self.used(index as int),
            self.ref_count(index as int) > 0,
        ensures
            self.value(index as int) == Some(*r),
    {
        proof {
            assert(self.slot_ok(index as int, Set::empty()));
        }
        match &self.slots[index as usize] {
            Some(v) => v,
            None => vstd::pervasive::unreached(),
        }
    }
}

impl<I: TableInterface> Table<I> {
    /// Tears the table down: the slots still waiting in the reaper queues of `A` and then `B` are collected and
    /// dropped, so that the interface is told of them, and the interface is handed back.
    pub fn drop(self) -> (r: I)
        requires
            self.wf(),
        ensures
            r.dropped() == self.interface_view().dropped().push(Set::new(|x: u32| self.reaper(AB::A).contains(x))).push(
                Set::new(|x: u32| self.reaper(AB::B).contains(x)),
            ),
    {
        let ghost old_self = self;
        let mut table = self;
        table.gc(AB::A);
        let ghost mid = table;
        table.gc(AB::B);
        proof {
            assert(mid.reaper(AB::B) == old_self.reaper(AB::B));
        }
        table.interface
    }
}

impl<I: TableInterface> TableManager<I> {
    /// Tears every table down, in the order of their ids, and hands back their interfaces.
    pub fn drop(self) -> (r: Vec<I>)
        requires
            self.wf(),
        ensures
            r@.len() == self.table_count(),
            forall|k: int|
                0 <= k < r@.len() ==> (#[trigger] r@[k]).dropped() == self.spec_table(k).interface_view().dropped().push(
                    Set::new(|x: u32| self.spec_table(k).reaper(AB::A).contains(x)),
                ).push(Set::new(|x: u32| self.spec_table(k).reaper(AB::B).contains(x))),
    {
        let ghost old_self = self;
        let mut tables = self.tables;
        let mut interfaces: Vec<I> = Vec::new();
        while tables.len() > 0
            invariant
                old_self.wf(),
                interfaces@.len() + tables@.len() == old_self.table_count(),
                tables@ == old_self.tables@.skip(interfaces@.len() as int),
                forall|k: int|
                    0 <= k < interfaces@.len() ==> (#[trigger] interfaces@[k]).dropped()
                        == old_self.spec_table(k).interface_view().dropped().push(
                        Set::new(|x: u32| old_self.spec_table(k).reaper(AB::A).contains(x)),
                    ).push(Set::new(|x: u32| old_self.spec_table(k).reaper(AB::B).contains(x))),
            decreases tables@.len(),
        {
            let ghost k = interfaces@.len() as int;
            proof {
                assert(tables@[0] == old_self.spec_table(k));
                assert(old_self.spec_table(k).wf());
            }
            let table = tables.remove(0);
            let interface = table.drop();
            interfaces.push(interface);
            proof {
                assert(tables@ =~= old_self.tables@.skip(interfaces@.len() as int));
            }
        }
        interfaces
    }
}

} // verus!
