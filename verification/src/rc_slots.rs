use vstd::prelude::*;
use core::marker::PhantomData;
use crate::atomic_slots::{AtomicSlots, InstanceIds, SlotKey, RAW_INDEX_LIMIT};
use crate::queue::{
    disjoint, pushed, set_next, terminated, ChainQueue, PopQueue, Queue, QueueSlot, SlotChain, NO_NEXT,
};
use crate::timestamp::{comparable, wrapping_ge, wrapping_le, Timestamp};

verus! {

/// The life cycle state of a slot, kept in the two low bits of its version.
#[derive(Copy, Clone, Debug, Eq, PartialEq, Structural)]
pub enum VersionState {
    /// The slot is dead and holds no value.
    Dead,
    /// The slot is alive: its value may be referenced, and its `atomic` is the reference count.
    Alive,
    /// The last reference is gone, but a lock that began before may still read the value.
    Reaper,
}

/// The state that a version encodes; the low bits `3` encode none.
pub open spec fn version_state(version: u32) -> Option<VersionState> {
    let m = version % 4;
    if m == 0 {
        Some(VersionState::Dead)
    } else if m == 1 {
        Some(VersionState::Alive)
    } else if m == 2 {
        Some(VersionState::Reaper)
    } else {
        None
    }
}

/// The number a state is encoded as.
pub open spec fn state_number(state: VersionState) -> u32 {
    match state {
        VersionState::Dead => 0,
        VersionState::Alive => 1,
        VersionState::Reaper => 2,
    }
}

impl VersionState {
    /// The power of two above all state numbers.
    pub const MAX: u32 = 4;

    /// The mask of the bits of a version that hold the state.
    pub const MASK: u32 = 3;

    /// The state a version encodes; the unused encoding `3` is ruled out by the caller.
    pub fn from(version: u32) -> (r: Self)
        requires
            version % 4 != 3,
        ensures
            version_state(version) == Some(r),
    {
        let m = version & Self::MASK;
        assert(version & 3 == version % 4) by (bit_vector);
        if m == 0 {
            VersionState::Dead
        } else if m == 1 {
            VersionState::Alive
        } else {
            VersionState::Reaper
        }
    }

    /// The number this state is encoded as.
    pub fn to_u32(self) -> (r: u32)
        ensures
            r == state_number(self),
    {
        match self {
            VersionState::Dead => 0,
            VersionState::Alive => 1,
            VersionState::Reaper => 2,
        }
    }
}

/// The backing slot of an [`RCSlot`], stored within [`AtomicSlots`]. Its `version` holds its state in the low two
/// bits, and is incremented on every change of state, so that each reuse of a slot results in a different version
/// (apart from wrapping around after many reuses).
///
/// * alive: `atomic` is the reference count, and `t` holds the value.
/// * reaper: `t` still holds the value, and `free_timestamp` is the lock counter at the time the last reference
///   went away; `atomic` links the slot into the reaper queue.
/// * dead: `t` is empty, and `atomic` links the slot into the dead queue.
pub struct Slot<T> {
    atomic: u32,
    version: u32,
    free_timestamp: Timestamp,
    t: Option<T>,
}

impl<T> Default for Slot<T> {
    fn default() -> (r: Self)
        ensures
            r.is_fresh(),
    {
        Slot { atomic: 0, version: 0, free_timestamp: Timestamp::new(0), t: None }
    }
}

impl<T> QueueSlot for Slot<T> {
    closed spec fn next_index(&self) -> u32 {
        self.atomic
    }

    closed spec fn with_next_index(self, next: u32) -> Self {
        Slot { atomic: next, ..self }
    }

    proof fn lemma_with_next_index(self, next: u32) {
    }

    fn atomic(&self) -> (r: u32) {
        self.atomic
    }

    fn set_atomic(&mut self, next: u32) {
        self.atomic = next;
    }
}

/// The version after a change of state from `from` to `to`.
pub open spec fn swapped_version(version: u32, from: VersionState, to: VersionState) -> u32 {
    let diff: int = (if state_number(to) > state_number(from) { 0int } else { 4int }) + state_number(to) - state_number(
        from,
    );
    ((version + diff) % 0x1_0000_0000) as u32
}

/// A change of state from `from` to `to` leaves the version in state `to`.
pub proof fn lemma_swapped_version(version: u32, from: VersionState, to: VersionState)
    requires
        version_state(version) == Some(from),
    ensures
        version_state(swapped_version(version, from, to)) == Some(to),
{
    let v = version as int;
    let d: int = (if state_number(to) > state_number(from) { 0int } else { 4int }) + state_number(to) - state_number(from);
    assert(((v + d) % 0x1_0000_0000) % 4 == (v + d) % 4) by (nonlinear_arith);
    assert((v + d) % 4 == (v % 4 + d) % 4) by (nonlinear_arith);
}

/// Each reuse cycle of a slot, from dead to alive and back to dead, either directly or through the reaper state,
/// moves its version forward by exactly `4`, wrapping around `u32`, so that each reuse gets a new version.
pub proof fn lemma_version_cycle(version: u32)
    requires
        version_state(version) == Some(VersionState::Dead),
    ensures
        swapped_version(swapped_version(version, VersionState::Dead, VersionState::Alive), VersionState::Alive,
            VersionState::Dead) == ((version + 4) % 0x1_0000_0000) as u32,
        swapped_version(
            swapped_version(swapped_version(version, VersionState::Dead, VersionState::Alive), VersionState::Alive,
                VersionState::Reaper),
            VersionState::Reaper,
            VersionState::Dead,
        ) == ((version + 4) % 0x1_0000_0000) as u32,
{
    let v = version as int;
    let a = swapped_version(version, VersionState::Dead, VersionState::Alive);
    assert(a == ((v + 1) % 0x1_0000_0000) as u32);
    let r = swapped_version(a, VersionState::Alive, VersionState::Reaper);
    assert(swapped_version(a, VersionState::Alive, VersionState::Dead) == ((a + 3) % 0x1_0000_0000) as u32);
    assert(r == ((a + 1) % 0x1_0000_0000) as u32);
    assert(swapped_version(r, VersionState::Reaper, VersionState::Dead) == ((r + 2) % 0x1_0000_0000) as u32);
    assert(0 <= v < 0x1_0000_0000);
    assert((((v + 1) % 0x1_0000_0000) + 3) % 0x1_0000_0000 == (v + 4) % 0x1_0000_0000) by (nonlinear_arith)
        requires
            0 <= v < 0x1_0000_0000,
    ;
    assert((((((v + 1) % 0x1_0000_0000) + 1) % 0x1_0000_0000) + 2) % 0x1_0000_0000 == (v + 4) % 0x1_0000_0000)
        by (nonlinear_arith)
        requires
            0 <= v < 0x1_0000_0000,
    ;
}

impl<T> Slot<T> {
    /// A slot as it is first allocated: dead, holding nothing, at version zero.
    pub closed spec fn is_fresh(&self) -> bool {
        &&& self.atomic == 0
        &&& self.version == 0
        &&& self.free_timestamp.0 == 0
        &&& self.t is None
    }

    /// Moves the slot from state `from` to state `to` by incrementing its version; the slot must be in state
    /// `from`, which the caller must show.
    fn version_swap(&mut self, from: VersionState, to: VersionState)
        requires
            version_state(old(self).version) == Some(from),
        ensures
            *final(self) == (Slot { version: swapped_version(old(self).version, from, to), ..*old(self) }),
            version_state(final(self).version) == Some(to),
    {
        let to_n = to.to_u32();
        let from_n = from.to_u32();
        let diff = if to_n > from_n { 0 } else { VersionState::MAX } + to_n - from_n;
        let old = self.version;
        self.version = old.wrapping_add(diff);
        Self::assert_version_state(old, from);
        proof {
            let v = old as int;
            let d = diff as int;
            assert(((v + d) % 0x1_0000_0000) % 4 == (v + d) % 4) by (nonlinear_arith);
            assert((v + d) % 4 == (v % 4 + d) % 4) by (nonlinear_arith);
        }
    }

    /// Checks that the version is in the expected state, which the caller must show.
    fn assert_version_state(version: u32, expected: VersionState)
        requires
            version_state(version) == Some(expected),
    {
        let state = VersionState::from(version);
        assert(state == expected);
    }
}

/// What a slot holds, as seen from outside.
pub struct SlotInfo<T> {
    pub state: VersionState,
    /// The reference count of an alive slot, zero otherwise.
    pub ref_count: u32,
    /// The lock counter at the time the last reference went away, for a slot in the reaper state, zero otherwise.
    pub free_timestamp: u32,
    pub value: Option<T>,
}

spec fn state_of(version: u32) -> VersionState {
    let m = version % 4;
    if m == 0 {
        VersionState::Dead
    } else if m == 1 {
        VersionState::Alive
    } else {
        VersionState::Reaper
    }
}

spec fn info_of<T>(s: Slot<T>) -> SlotInfo<T> {
    let state = state_of(s.version);
    SlotInfo {
        state,
        ref_count: if state == VersionState::Alive { s.atomic } else { 0 },
        free_timestamp: if state == VersionState::Reaper { s.free_timestamp.0 } else { 0 },
        value: s.t,
    }
}

/// The slot is in a consistent state.
spec fn slot_ok<T>(s: Slot<T>) -> bool {
    &&& s.version % 4 != 3
    &&& state_of(s.version) == VersionState::Dead ==> s.t is None
    &&& state_of(s.version) == VersionState::Alive ==> s.t is Some && s.atomic >= 1
    &&& state_of(s.version) == VersionState::Reaper ==> s.t is Some
}

/// A reference counted handle to a slot of an [`AtomicRCSlots`]. Its reference is given up by [`RCSlot::drop`]; a
/// handle that goes out of scope without it keeps its reference, and its slot is never freed.
pub struct RCSlot<T> {
    key: SlotKey,
    _phantom: PhantomData<T>,
}

impl<T> RCSlot<T> {
    pub closed spec fn key(&self) -> SlotKey {
        self.key
    }

    /// The key of the slot.
    pub fn slot_key(&self) -> (r: SlotKey)
        ensures
            r == self.key(),
    {
        self.key
    }

    /// Creates a handle; the caller hands over one reference count of the slot to it.
    fn new(key: SlotKey) -> (r: Self)
        ensures
            r.key() == key,
    {
        RCSlot { key, _phantom: PhantomData }
    }
}

/// A slot map of reference counted values. A slot whose last reference goes away is reclaimed once every lock that
/// began before that is unlocked, and then reused.
pub struct AtomicRCSlots<T> {
    inner: AtomicSlots<Slot<T>>,
    slots_allocated_max: u32,
    /// slots that can be dropped and reclaimed, as soon as all locks that may be using them have finished
    reaper_queue: ChainQueue<Slot<T>>,
    /// slots that are dead and may be reused
    dead_queue: PopQueue<Slot<T>>,
    /// Every created lock gets a new timestamp from this counter. May wrap around.
    curr_lock_counter: u32,
    /// The timestamp of the last lock that was unlocked. May wrap around.
    finished_lock_counter: u32,
}

impl<T> AtomicRCSlots<T> {
    pub closed spec fn wf(&self) -> bool {
        &&& self.inner.wf()
        &&& self.reaper_queue.inv(&self.inner)
        &&& self.dead_queue.inv(&self.inner)
        &&& self.slots_allocated_max == self.inner@.len()
        &&& forall|i: int| 0 <= i < self.inner@.len() ==> slot_ok(#[trigger] self.inner@[i])
        &&& forall|i: int|
            0 <= i < self.reaper_queue.keys().len() ==> state_of(
                self.inner.value(#[trigger] self.reaper_queue.keys()[i]).version,
            ) == VersionState::Reaper
        &&& forall|i: int|
            0 <= i < self.dead_queue.keys().len() ==> state_of(
                self.inner.value(#[trigger] self.dead_queue.keys()[i]).version,
            ) == VersionState::Dead
    }

    /// What each allocated slot holds, by raw index.
    pub closed spec fn view(&self) -> Seq<SlotInfo<T>> {
        self.inner@.map(|i: int, s: Slot<T>| info_of(s))
    }

    /// The raw index of the slot of a key.
    pub closed spec fn raw(&self, key: SlotKey) -> int {
        self.inner.raw_index(key)
    }

    /// The key addresses an allocated slot.
    pub closed spec fn has_key(&self, key: SlotKey) -> bool {
        self.inner.contains_key(key)
    }

    /// The key of an allocated slot addresses a slot of the view.
    pub proof fn lemma_has_key_in_view(&self, key: SlotKey)
        requires
            self.has_key(key),
        ensures
            0 <= self.raw(key) < self@.len(),
    {
    }

    /// What the slot of a key holds.
    pub open spec fn info(&self, key: SlotKey) -> SlotInfo<T> {
        self@[self.raw(key)]
    }

    /// The slot of the key is alive.
    pub open spec fn is_alive(&self, key: SlotKey) -> bool {
        self.has_key(key) && self.info(key).state == VersionState::Alive
    }

    /// The slots waiting for the locks that may still read them, oldest first.
    pub closed spec fn reaper_keys(&self) -> Seq<SlotKey> {
        self.reaper_queue.keys()
    }

    /// The dead slots waiting for reuse, in the order they will be reused.
    pub closed spec fn dead_keys(&self) -> Seq<SlotKey> {
        self.dead_queue.keys()
    }

    /// The timestamp of the last lock taken.
    pub closed spec fn lock_counter(&self) -> u32 {
        self.curr_lock_counter
    }

    /// The timestamp of the last lock released.
    pub closed spec fn finished_counter(&self) -> u32 {
        self.finished_lock_counter
    }

    /// The slot info of an alive slot holding `t` with `ref_count` references.
    pub open spec fn alive_info(ref_count: u32, t: T) -> SlotInfo<T> {
        SlotInfo { state: VersionState::Alive, ref_count, free_timestamp: 0, value: Some(t) }
    }

    /// The slot info of a dead slot.
    pub open spec fn dead_info() -> SlotInfo<T> {
        SlotInfo { state: VersionState::Dead, ref_count: 0, free_timestamp: 0, value: None }
    }

    /// The raw index of the slot of an allocated key: the number of slots allocated before it.
    pub fn key_to_raw_index(&self, key: SlotKey) -> (r: u32)
        requires
            self.wf(),
            self.has_key(key),
        ensures
            r == self.raw(key),
    {
        proof {
            self.inner.lemma_len_bound();
        }
        self.inner.key_to_raw_index(key)
    }

    /// The number of slots waiting in the reaper queue.
    pub fn reaper_count(&self) -> (r: u32)
        requires
            self.wf(),
        ensures
            r == self.reaper_keys().len(),
    {
        self.reaper_queue.debug_count(&self.inner)
    }

    /// The number of dead slots waiting for reuse.
    pub fn dead_count(&self) -> (r: u32)
        requires
            self.wf(),
        ensures
            r == self.dead_keys().len(),
    {
        self.dead_queue.debug_count(&self.inner)
    }

    pub fn new(first_block_size: u32, ids: &mut InstanceIds) -> (r: Self)
        requires
            first_block_size > 0,
        ensures
            r.wf(),
            r@ == Seq::<SlotInfo<T>>::empty(),
            r.reaper_keys() == Seq::<SlotKey>::empty(),
            r.dead_keys() == Seq::<SlotKey>::empty(),
            r.lock_counter() == 0,
            r.finished_counter() == 0,
    {
        let inner = AtomicSlots::new(first_block_size, ids);
        let r = AtomicRCSlots {
            reaper_queue: ChainQueue::new(&inner),
            dead_queue: PopQueue::new(&inner),
            inner,
            slots_allocated_max: 0,
            curr_lock_counter: 0,
            finished_lock_counter: 0,
        };
        proof {
            assert(r@ =~= Seq::<SlotInfo<T>>::empty());
        }
        r
    }
}

impl<T> AtomicRCSlots<T> {
    /// Pushing onto or popping from the queues leaves every other slot as it was, and keeps the queues and slots
    /// consistent; this is the part of [`Self::wf`] about the slots and queues, stated for new slots.
    proof fn lemma_frame(
        &self,
        new_inner: &AtomicSlots<Slot<T>>,
    )
        requires
            self.wf(),
            new_inner.wf(),
            new_inner.block_size_log() == self.inner.block_size_log(),
            new_inner.instance() == self.inner.instance(),
            self.inner@.len() <= new_inner@.len(),
            forall|i: int| 0 <= i < self.inner@.len() ==> new_inner@[i] == self.inner@[i],
        ensures
            self.reaper_queue.inv(new_inner),
            self.dead_queue.inv(new_inner),
    {
        self.reaper_queue.lemma_inv(&self.inner);
        self.dead_queue.lemma_inv(&self.inner);
        assert forall|i: int| 0 <= i < self.reaper_queue.keys().len() implies new_inner.value(
            #[trigger] self.reaper_queue.keys()[i],
        ).next_index() == self.inner.value(self.reaper_queue.keys()[i]).next_index() by {
            assert(self.inner.contains_key(self.reaper_queue.keys()[i]));
        }
        assert forall|i: int| 0 <= i < self.dead_queue.keys().len() implies new_inner.value(
            #[trigger] self.dead_queue.keys()[i],
        ).next_index() == self.inner.value(self.dead_queue.keys()[i]).next_index() by {
            assert(self.inner.contains_key(self.dead_queue.keys()[i]));
        }
        self.reaper_queue.lemma_inv_frame(&self.inner, new_inner);
        self.dead_queue.lemma_inv_frame(&self.inner, new_inner);
    }

    /// Allocates a slot holding `t` with a reference count of one. Reuses the front of the dead queue if it holds
    /// at least two slots, and allocates a new slot otherwise.
    pub fn allocate(&mut self, t: T) -> (slot: RCSlot<T>)
        requires
            old(self).wf(),
            old(self).dead_keys().len() < 2 ==> old(self)@.len() < RAW_INDEX_LIMIT,
        ensures
            final(self).wf(),
            final(self).has_key(slot.key()),
            final(self).reaper_keys() == old(self).reaper_keys(),
            final(self).lock_counter() == old(self).lock_counter(),
            final(self).finished_counter() == old(self).finished_counter(),
            old(self).dead_keys().len() >= 2 ==> {
                &&& slot.key() == old(self).dead_keys()[0]
                &&& final(self).dead_keys() == old(self).dead_keys().drop_first()
                &&& final(self)@ == old(self)@.update(final(self).raw(slot.key()), Self::alive_info(1, t))
            },
            old(self).dead_keys().len() < 2 ==> {
                &&& final(self).raw(slot.key()) == old(self)@.len()
                &&& final(self).dead_keys() == old(self).dead_keys()
                &&& final(self)@ == old(self)@.push(Self::alive_info(1, t))
            },
            forall|k: SlotKey| old(self).has_key(k) ==> final(self).has_key(k) && final(self).raw(k) == old(self).raw(k),
    {
        let ghost old_self = *self;
        let ghost old_inner = self.inner;
        proof {
            self.inner.lemma_len_bound();
            self.dead_queue.lemma_inv(&self.inner);
            self.reaper_queue.lemma_inv(&self.inner);
        }
        let popped = self.dead_queue.pop(&self.inner);
        let (key, new_alloc) = match popped {
            None => {
                let k = self.inner.allocate();
                (k, true)
            },
            Some(e) => (e, false),
        };
        proof {
            if new_alloc {
                old_self.lemma_frame(&self.inner);
                self.dead_queue.lemma_inv_frame(&old_inner, &self.inner);
                assert(self.inner@.take(old_inner@.len() as int) == old_inner@);
                assert forall|i: int| 0 <= i < old_inner@.len() implies self.inner@[i] == old_inner@[i] by {
                    assert(self.inner@.take(old_inner@.len() as int)[i] == self.inner@[i]);
                }
                old_self.lemma_frame(&self.inner);
                self.dead_queue.lemma_inv_frame(&old_inner, &self.inner);
                assert(call_ensures(Slot::<T>::default, (), self.inner@.last()));
                assert(self.inner@.last().is_fresh());
            } else {
                assert(old_self.dead_queue.keys()[0] == key);
                assert(self.inner.contains_key(old_self.dead_queue.keys()[0]));
            }
        }
        let ghost mid_inner = self.inner;
        let slot = self.inner.index_mut(key);
        slot.t = Some(t);
        slot.atomic = 1;
        slot.version_swap(VersionState::Dead, VersionState::Alive);
        if new_alloc {
            let raw = self.inner.key_to_raw_index(key);
            self.slots_allocated_max = raw + 1;
        }
        proof {
            let kraw = mid_inner.raw_index(key);
            assert(state_of(mid_inner@[kraw].version) == VersionState::Dead);
            assert forall|i: int| 0 <= i < self.reaper_queue.keys().len() implies self.inner.value(
                #[trigger] self.reaper_queue.keys()[i],
            ).next_index() == mid_inner.value(self.reaper_queue.keys()[i]).next_index() && self.inner.value(
                self.reaper_queue.keys()[i],
            ) == mid_inner.value(self.reaper_queue.keys()[i]) by {
                let k = self.reaper_queue.keys()[i];
                assert(mid_inner.contains_key(k));
                assert(state_of(mid_inner.value(k).version) == VersionState::Reaper);
                crate::queue::lemma_distinct_raw(&mid_inner, k, key);
            }
            assert forall|i: int| 0 <= i < self.dead_queue.keys().len() implies self.inner.value(
                #[trigger] self.dead_queue.keys()[i],
            ).next_index() == mid_inner.value(self.dead_queue.keys()[i]).next_index() && self.inner.value(
                self.dead_queue.keys()[i],
            ) == mid_inner.value(self.dead_queue.keys()[i]) by {
                let k = self.dead_queue.keys()[i];
                assert(mid_inner.contains_key(k));
                if !new_alloc {
                    assert(old_self.dead_queue.keys()[i + 1] == k);
                    assert(old_self.dead_queue.keys()[0] != old_self.dead_queue.keys()[i + 1]);
                } else {
                    assert(mid_inner.raw_index(k) < old_inner@.len());
                }
                crate::queue::lemma_distinct_raw(&mid_inner, k, key);
            }
            self.reaper_queue.lemma_inv_frame(&mid_inner, &self.inner);
            self.dead_queue.lemma_inv_frame(&mid_inner, &self.inner);
            assert forall|i: int| 0 <= i < self.inner@.len() implies slot_ok(#[trigger] self.inner@[i]) by {
                if i != kraw {
                    assert(self.inner@[i] == mid_inner@[i]);
                    if new_alloc && i == old_inner@.len() {
                    } else if new_alloc {
                        assert(mid_inner@[i] == old_inner@[i]);
                    }
                }
            }
            assert(self.inner@.len() == mid_inner@.len());
        }
        RCSlot::new(key)
    }
}

impl<T> AtomicRCSlots<T> {
    /// A push onto a queue only relinks slots that are not alive, so what the slots hold is unchanged.
    proof fn lemma_push_view(
        a: &AtomicSlots<Slot<T>>,
        b: &AtomicSlots<Slot<T>>,
        keys: Seq<SlotKey>,
        ckeys: Seq<SlotKey>,
    )
        requires
            a.wf(),
            ckeys.len() > 0,
            a.contains_key(ckeys.last()),
            keys.len() > 0 ==> a.contains_key(keys.last()),
            b@ == pushed(a, keys, ckeys),
            state_of(a.value(ckeys.last()).version) != VersionState::Alive,
            keys.len() > 0 ==> state_of(a.value(keys.last()).version) != VersionState::Alive,
        ensures
            b@.len() == a@.len(),
            forall|j: int| 0 <= j < a@.len() ==> info_of(#[trigger] b@[j]) == info_of(a@[j]),
            forall|j: int|
                0 <= j < a@.len() ==> (#[trigger] b@[j]).version == a@[j].version && b@[j].t == a@[j].t,
            forall|j: int|
                0 <= j < a@.len() && j != a.raw_index(ckeys.last()) && (keys.len() == 0 || j != a.raw_index(
                    keys.last(),
                )) ==> #[trigger] b@[j] == a@[j],
    {
    }

    /// Drops the value of a slot and turns it dead; the slot must be in state `from`.
    fn free_slot(slot: &mut Slot<T>, from: VersionState)
        requires
            version_state(old(slot).version) == Some(from),
        ensures
            *final(slot) == (Slot {
                version: swapped_version(old(slot).version, from, VersionState::Dead),
                t: None,
                ..*old(slot)
            }),
            version_state(final(slot).version) == Some(VersionState::Dead),
    {
        slot.version_swap(from, VersionState::Dead);
        slot.t = None;
    }

    /// The last reference to an alive slot went away: with no lock held, the slot dies at once and joins the dead
    /// queue; otherwise it keeps its value, records the current lock timestamp, and joins the reaper queue.
    fn slot_starts_dying(&mut self, key: SlotKey)
        requires
            old(self).wf(),
            old(self).is_alive(key),
            comparable(old(self).curr_lock_counter, old(self).finished_lock_counter),
        ensures
            final(self).wf(),
            final(self).inner.block_size_log() == old(self).inner.block_size_log(),
            final(self).inner.instance() == old(self).inner.instance(),
            final(self)@.len() == old(self)@.len(),
            final(self).curr_lock_counter == old(self).curr_lock_counter,
            final(self).finished_lock_counter == old(self).finished_lock_counter,
            wrapping_le(old(self).curr_lock_counter, old(self).finished_lock_counter) ==> {
                &&& final(self)@ == old(self)@.update(old(self).raw(key), Self::dead_info())
                &&& final(self).dead_keys() == old(self).dead_keys().push(key)
                &&& final(self).reaper_keys() == old(self).reaper_keys()
            },
            !wrapping_le(old(self).curr_lock_counter, old(self).finished_lock_counter) ==> {
                &&& final(self)@ == old(self)@.update(
                    old(self).raw(key),
                    SlotInfo {
                        state: VersionState::Reaper,
                        ref_count: 0,
                        free_timestamp: old(self).curr_lock_counter,
                        value: old(self).info(key).value,
                    },
                )
                &&& final(self).reaper_keys() == old(self).reaper_keys().push(key)
                &&& final(self).dead_keys() == old(self).dead_keys()
            },
    {
        let ghost old_self = *self;
        let ghost kraw = self.inner.raw_index(key);
        proof {
            self.inner.lemma_len_bound();
            self.reaper_queue.lemma_inv(&self.inner);
            self.dead_queue.lemma_inv(&self.inner);
            assert(self.inner.value(key) == self.inner@[kraw]);
        }
        let curr = Timestamp::new(self.curr_lock_counter);
        let finished = Timestamp::new(self.finished_lock_counter);
        let free_now = curr.is_le_wrapping(&finished);
        if free_now {
            Self::free_slot(self.inner.index_mut(key), VersionState::Alive);
        } else {
            let slot = self.inner.index_mut(key);
            slot.free_timestamp = curr;
            slot.version_swap(VersionState::Alive, VersionState::Reaper);
        }
        let ghost mid = self.inner;
        proof {
            // the slot of `key` is in neither queue, so both queues still hold
            assert forall|i: int| 0 <= i < self.reaper_queue.keys().len() implies mid.value(
                #[trigger] self.reaper_queue.keys()[i],
            ) == old_self.inner.value(self.reaper_queue.keys()[i]) by {
                let k = self.reaper_queue.keys()[i];
                assert(old_self.inner.contains_key(k));
                crate::queue::lemma_distinct_raw(&old_self.inner, k, key);
            }
            assert forall|i: int| 0 <= i < self.dead_queue.keys().len() implies mid.value(
                #[trigger] self.dead_queue.keys()[i],
            ) == old_self.inner.value(self.dead_queue.keys()[i]) by {
                let k = self.dead_queue.keys()[i];
                assert(old_self.inner.contains_key(k));
                crate::queue::lemma_distinct_raw(&old_self.inner, k, key);
            }
            self.reaper_queue.lemma_inv_frame(&old_self.inner, &mid);
            self.dead_queue.lemma_inv_frame(&old_self.inner, &mid);
            assert(!self.reaper_queue.keys().contains(key));
            assert(!self.dead_queue.keys().contains(key));
        }
        if free_now {
            self.dead_queue.push(&mut self.inner, key);
            proof {
                let dk = old_self.dead_queue.keys();
                if dk.len() > 0 {
                    assert(mid.contains_key(dk[dk.len() - 1]));
                    assert(state_of(mid.value(dk.last()).version) == VersionState::Dead);
                }
                assert(seq![key].last() == key);
                Self::lemma_push_view(&mid, &self.inner, dk, seq![key]);
                let rk = self.reaper_queue.keys();
                assert forall|i: int| 0 <= i < rk.len() implies self.inner.value(#[trigger] rk[i]) == mid.value(rk[i]) by {
                    assert(mid.contains_key(rk[i]));
                    crate::queue::lemma_distinct_raw(&mid, rk[i], key);
                    if dk.len() > 0 {
                        assert(rk[i] != dk.last());
                        crate::queue::lemma_distinct_raw(&mid, rk[i], dk.last());
                    }
                }
                self.reaper_queue.lemma_inv_frame(&mid, &self.inner);
                let nk = self.dead_queue.keys();
                assert forall|i: int| 0 <= i < nk.len() implies state_of(
                    self.inner.value(#[trigger] nk[i]).version,
                ) == VersionState::Dead by {
                    if i < dk.len() {
                        assert(mid.contains_key(dk[i]));
                    }
                }
                assert forall|i: int| 0 <= i < self.inner@.len() implies slot_ok(#[trigger] self.inner@[i]) by {
                    assert(self.inner@[i].version == mid@[i].version);
                    if i != kraw {
                        assert(mid@[i] == old_self.inner@[i]);
                    }
                }
                assert(self@ =~= old_self@.update(kraw, Self::dead_info()));
            }
        } else {
            self.reaper_queue.push(&mut self.inner, key);
            proof {
                let rk = old_self.reaper_queue.keys();
                if rk.len() > 0 {
                    assert(mid.contains_key(rk[rk.len() - 1]));
                    assert(state_of(mid.value(rk.last()).version) == VersionState::Reaper);
                }
                assert(seq![key].last() == key);
                Self::lemma_push_view(&mid, &self.inner, rk, seq![key]);
                let dk = self.dead_queue.keys();
                assert forall|i: int| 0 <= i < dk.len() implies self.inner.value(#[trigger] dk[i]) == mid.value(dk[i]) by {
                    assert(mid.contains_key(dk[i]));
                    crate::queue::lemma_distinct_raw(&mid, dk[i], key);
                    if rk.len() > 0 {
                        assert(dk[i] != rk.last());
                        crate::queue::lemma_distinct_raw(&mid, dk[i], rk.last());
                    }
                }
                self.dead_queue.lemma_inv_frame(&mid, &self.inner);
                let nk = self.reaper_queue.keys();
                assert forall|i: int| 0 <= i < nk.len() implies state_of(
                    self.inner.value(#[trigger] nk[i]).version,
                ) == VersionState::Reaper by {
                    if i < rk.len() {
                        assert(mid.contains_key(rk[i]));
                    }
                }
                assert forall|i: int| 0 <= i < self.inner@.len() implies slot_ok(#[trigger] self.inner@[i]) by {
                    assert(self.inner@[i].version == mid@[i].version);
                    if i != kraw {
                        assert(mid@[i] == old_self.inner@[i]);
                    }
                }
                assert(self@ =~= old_self@.update(
                    kraw,
                    SlotInfo {
                        state: VersionState::Reaper,
                        ref_count: 0,
                        free_timestamp: old_self.curr_lock_counter,
                        value: old_self.info(key).value,
                    },
                ));
            }
        }
    }
}

/// The slot info of `info` with its reference count replaced.
pub open spec fn with_ref_count<T>(info: SlotInfo<T>, ref_count: u32) -> SlotInfo<T> {
    SlotInfo { ref_count, ..info }
}

impl<T> RCSlot<T> {
    /// The slot of the handle, checked to be alive.
    fn with_slot<'a>(&self, slots: &'a AtomicRCSlots<T>) -> (r: &'a Slot<T>)
        requires
            slots.wf(),
            slots.is_alive(self.key()),
        ensures
            info_of(*r) == slots.info(self.key()),
            slot_ok(*r),
    {
        proof {
            assert(slot_ok(slots.inner@[slots.raw(self.key())]));
        }
        let slot = slots.inner.index(self.key);
        Slot::<T>::assert_version_state(slot.version, VersionState::Alive);
        slot
    }

    /// The number of references to the slot.
    pub fn ref_count(&self, slots: &AtomicRCSlots<T>) -> (r: u32)
        requires
            slots.wf(),
            slots.is_alive(self.key()),
        ensures
            r == slots.info(self.key()).ref_count,
    {
        self.with_slot(slots).atomic
    }

    /// Calls `f` with the value of the slot.
    pub fn with<R, F: FnOnce(&T) -> R>(&self, slots: &AtomicRCSlots<T>, f: F) -> (r: R)
        requires
            slots.wf(),
            slots.is_alive(self.key()),
            f.requires((&slots.info(self.key()).value.unwrap(),)),
        ensures
            f.ensures((&slots.info(self.key()).value.unwrap(),), r),
    {
        match &self.with_slot(slots).t {
            Some(t) => f(t),
            None => vstd::pervasive::unreached(),
        }
    }

    /// Adds a reference to the slot.
    pub fn ref_inc(&self, slots: &mut AtomicRCSlots<T>)
        requires
            old(slots).wf(),
            old(slots).is_alive(self.key()),
            old(slots).info(self.key()).ref_count < u32::MAX,
        ensures
            final(slots).wf(),
            final(slots)@ == old(slots)@.update(
                old(slots).raw(self.key()),
                with_ref_count(old(slots).info(self.key()), (old(slots).info(self.key()).ref_count + 1) as u32),
            ),
            final(slots).same_queues(&*old(slots)),
    {
        let ghost old_slots = *slots;
        let slot = slots.inner.index_mut(self.key);
        slot.atomic = slot.atomic + 1;
        proof {
            old_slots.lemma_alive_update(&*slots, self.key);
        }
    }

    /// Removes a reference from the slot; see [`AtomicRCSlots::slot_starts_dying`] for what happens when the last
    /// one goes away.
    pub fn ref_dec(&self, slots: &mut AtomicRCSlots<T>)
        requires
            old(slots).wf(),
            old(slots).is_alive(self.key()),
            old(slots).info(self.key()).ref_count == 1 ==> comparable(
                old(slots).lock_counter(),
                old(slots).finished_counter(),
            ),
        ensures
            final(slots).wf(),
            final(slots).same_layout(&*old(slots)),
            final(slots).lock_counter() == old(slots).lock_counter(),
            final(slots).finished_counter() == old(slots).finished_counter(),
            old(slots).dropped(&*final(slots), self.key()),
    {
        let ghost old_slots = *slots;
        let prev = slots.inner.index(self.key).atomic;
        if prev == 1 {
            slots.slot_starts_dying(self.key);
        } else {
            let slot = slots.inner.index_mut(self.key);
            slot.atomic = prev - 1;
            proof {
                old_slots.lemma_alive_update(&*slots, self.key);
            }
        }
    }

    /// A new handle to the slot, adding a reference.
    pub fn clone(&self, slots: &mut AtomicRCSlots<T>) -> (r: Self)
        requires
            old(slots).wf(),
            old(slots).is_alive(self.key()),
            old(slots).info(self.key()).ref_count < u32::MAX,
        ensures
            r.key() == self.key(),
            final(slots).wf(),
            final(slots)@ == old(slots)@.update(
                old(slots).raw(self.key()),
                with_ref_count(old(slots).info(self.key()), (old(slots).info(self.key()).ref_count + 1) as u32),
            ),
            final(slots).same_queues(&*old(slots)),
    {
        self.ref_inc(slots);
        RCSlot::new(self.key)
    }

    /// Gives up this handle, removing its reference.
    pub fn drop(self, slots: &mut AtomicRCSlots<T>)
        requires
            old(slots).wf(),
            old(slots).is_alive(self.key()),
            old(slots).info(self.key()).ref_count == 1 ==> comparable(
                old(slots).lock_counter(),
                old(slots).finished_counter(),
            ),
        ensures
            final(slots).wf(),
            final(slots).same_layout(&*old(slots)),
            final(slots).lock_counter() == old(slots).lock_counter(),
            final(slots).finished_counter() == old(slots).finished_counter(),
            old(slots).dropped(&*final(slots), self.key()),
    {
        self.ref_dec(slots);
    }
}

impl<T: Copy> RCSlot<T> {
    /// A copy of the value of the slot.
    pub fn deref_copy(&self, slots: &AtomicRCSlots<T>) -> (r: T)
        requires
            slots.wf(),
            slots.is_alive(self.key()),
        ensures
            slots.info(self.key()).value == Some(r),
    {
        match slots.inner.index(self.key).t {
            Some(t) => t,
            None => vstd::pervasive::unreached(),
        }
    }
}

impl<T> AtomicRCSlots<T> {
    /// Both have the same queues and lock counters, and address the same keys.
    pub open spec fn same_queues(&self, other: &Self) -> bool {
        &&& self.same_layout(other)
        &&& self.reaper_keys() == other.reaper_keys()
        &&& self.dead_keys() == other.dead_keys()
        &&& self.lock_counter() == other.lock_counter()
        &&& self.finished_counter() == other.finished_counter()
    }

    /// Both address the same keys at the same raw indices.
    pub closed spec fn same_layout(&self, other: &Self) -> bool {
        &&& self.inner.block_size_log() == other.inner.block_size_log()
        &&& self.inner.instance() == other.inner.instance()
        &&& self@.len() == other@.len()
    }

    /// A layout shared by two slot maps addresses the same keys at the same raw indices.
    pub proof fn lemma_same_layout(&self, other: &Self, key: SlotKey)
        requires
            self.same_layout(other),
        ensures
            self.has_key(key) == other.has_key(key),
            self.raw(key) == other.raw(key),
    {
    }

    /// `new` is `self` after one reference to the alive slot of `key` went away: with more references left the
    /// count drops by one; with none left the slot dies at once when no lock is held, or joins the reaper queue
    /// with the current lock timestamp otherwise.
    pub open spec fn dropped(&self, new: &Self, key: SlotKey) -> bool {
        let i = self.raw(key);
        let info = self.info(key);
        if info.ref_count > 1 {
            &&& new@ == self@.update(i, with_ref_count(info, (info.ref_count - 1) as u32))
            &&& new.reaper_keys() == self.reaper_keys()
            &&& new.dead_keys() == self.dead_keys()
        } else if wrapping_le(self.lock_counter(), self.finished_counter()) {
            &&& new@ == self@.update(i, Self::dead_info())
            &&& new.dead_keys() == self.dead_keys().push(key)
            &&& new.reaper_keys() == self.reaper_keys()
        } else {
            &&& new@ == self@.update(
                i,
                SlotInfo {
                    state: VersionState::Reaper,
                    ref_count: 0,
                    free_timestamp: self.lock_counter(),
                    value: info.value,
                },
            )
            &&& new.reaper_keys() == self.reaper_keys().push(key)
            &&& new.dead_keys() == self.dead_keys()
        }
    }

    /// Dropping one of several references to an alive slot leaves it alive, holding the same value, with exactly one
    /// reference fewer; every other slot is unchanged.
    pub proof fn lemma_drop_of_shared_slot(&self, new: &Self, key: SlotKey)
        requires
            self.wf(),
            self.is_alive(key),
            self.info(key).ref_count > 1,
            new.same_layout(self),
            self.dropped(new, key),
        ensures
            new.is_alive(key),
            new.info(key).ref_count + 1 == self.info(key).ref_count,
            new.info(key).value == self.info(key).value,
            new.info(key).value is Some,
            forall|j: int| 0 <= j < self@.len() && j != self.raw(key) ==> new@[j] == self@[j],
    {
        new.lemma_same_layout(self, key);
        assert(slot_ok(self.inner@[self.raw(key)]));
    }

    /// A reference added and then dropped leaves every slot as it was.
    pub proof fn lemma_clone_then_drop(&self, mid: &Self, new: &Self, key: SlotKey)
        requires
            self.wf(),
            self.is_alive(key),
            self.info(key).ref_count < u32::MAX,
            mid.same_layout(self),
            mid@ == self@.update(self.raw(key), with_ref_count(self.info(key), (self.info(key).ref_count + 1) as u32)),
            mid.dropped(new, key),
        ensures
            new@ == self@,
    {
        mid.lemma_same_layout(self, key);
        assert(new@ =~= self@);
    }

    /// A value whose last reference goes away while locks are held stays visible, with its value, to every lock
    /// taken up to then.
    pub proof fn lemma_dropped_visible_to_held_lock(&self, new: &Self, key: SlotKey, ts: u32)
        requires
            self.wf(),
            self.is_alive(key),
            self.info(key).ref_count == 1,
            self.dropped(new, key),
            !wrapping_le(self.lock_counter(), self.finished_counter()),
            wrapping_ge(self.lock_counter(), ts),
        ensures
            new.visible(self.raw(key), ts) == self.info(key).value,
            self.info(key).value is Some,
    {
        assert(slot_ok(self.inner@[self.raw(key)]));
    }

    /// A value whose last reference went away is not visible to a lock taken afterwards.
    pub proof fn lemma_dropped_hidden_from_later_lock(&self, new: &Self, key: SlotKey, ts: u32)
        requires
            self.wf(),
            self.is_alive(key),
            self.info(key).ref_count == 1,
            self.dropped(new, key),
            !wrapping_ge(self.lock_counter(), ts),
        ensures
            new.visible(self.raw(key), ts) == None::<T>,
    {
    }

    /// Changing the reference count of an alive slot to another positive count keeps the slot map consistent.
    proof fn lemma_alive_update(&self, new: &Self, key: SlotKey)
        requires
            self.wf(),
            self.is_alive(key),
            new.inner.wf(),
            new.inner.block_size_log() == self.inner.block_size_log(),
            new.inner.instance() == self.inner.instance(),
            new.inner@ == self.inner@.update(
                self.raw(key),
                Slot { atomic: new.inner@[self.raw(key)].atomic, ..self.inner@[self.raw(key)] },
            ),
            new.inner@[self.raw(key)].atomic >= 1,
            new.reaper_queue == self.reaper_queue,
            new.dead_queue == self.dead_queue,
            new.slots_allocated_max == self.slots_allocated_max,
            new.curr_lock_counter == self.curr_lock_counter,
            new.finished_lock_counter == self.finished_lock_counter,
        ensures
            new.wf(),
            new@ == self@.update(self.raw(key), with_ref_count(self.info(key), new.inner@[self.raw(key)].atomic)),
            new.same_queues(self),
    {
        let kraw = self.raw(key);
        self.reaper_queue.lemma_inv(&self.inner);
        self.dead_queue.lemma_inv(&self.inner);
        assert forall|i: int| 0 <= i < self.reaper_queue.keys().len() implies new.inner.value(
            #[trigger] self.reaper_queue.keys()[i],
        ) == self.inner.value(self.reaper_queue.keys()[i]) by {
            let k = self.reaper_queue.keys()[i];
            assert(self.inner.contains_key(k));
            crate::queue::lemma_distinct_raw(&self.inner, k, key);
        }
        assert forall|i: int| 0 <= i < self.dead_queue.keys().len() implies new.inner.value(
            #[trigger] self.dead_queue.keys()[i],
        ) == self.inner.value(self.dead_queue.keys()[i]) by {
            let k = self.dead_queue.keys()[i];
            assert(self.inner.contains_key(k));
            crate::queue::lemma_distinct_raw(&self.inner, k, key);
        }
        self.reaper_queue.lemma_inv_frame(&self.inner, &new.inner);
        self.dead_queue.lemma_inv_frame(&self.inner, &new.inner);
        assert(slot_ok(self.inner@[kraw]));
        assert(new@ =~= self@.update(kraw, with_ref_count(self.info(key), new.inner@[kraw].atomic)));
    }
}

/// How many slots from the front of a reaper queue whose free timestamps are `free_ts` an unlock at `ts` frees:
/// those up to the first whose timestamp is after `ts`, but never the last one.
pub open spec fn reaped_count(free_ts: Seq<u32>, ts: u32) -> nat
    decreases free_ts.len(),
{
    if free_ts.len() <= 1 {
        0
    } else if wrapping_le(free_ts[0], ts) {
        1 + reaped_count(free_ts.drop_first(), ts)
    } else {
        0
    }
}

proof fn lemma_reaped_count(free_ts: Seq<u32>, ts: u32, n: int)
    requires
        0 <= n,
        free_ts.len() == 0 ==> n == 0,
        free_ts.len() > 0 ==> n < free_ts.len(),
        forall|j: int| 0 <= j < n ==> wrapping_le(#[trigger] free_ts[j], ts),
        n < free_ts.len() - 1 ==> !wrapping_le(free_ts[n], ts),
    ensures
        n == reaped_count(free_ts, ts),
    decreases free_ts.len(),
{
    if free_ts.len() <= 1 {
    } else if n == 0 {
    } else {
        let rest = free_ts.drop_first();
        assert forall|j: int| 0 <= j < n - 1 implies wrapping_le(#[trigger] rest[j], ts) by {
            assert(free_ts[j + 1] == rest[j]);
        }
        assert(wrapping_le(free_ts[0], ts));
        lemma_reaped_count(rest, ts, n - 1);
    }
}

/// The slots counted by [`reaped_count`] all have a timestamp not after `ts`, and are never all of them.
proof fn lemma_reaped_prefix(free_ts: Seq<u32>, ts: u32)
    ensures
        reaped_count(free_ts, ts) <= free_ts.len(),
        forall|j: int| 0 <= j < reaped_count(free_ts, ts) ==> wrapping_le(#[trigger] free_ts[j], ts),
    decreases free_ts.len(),
{
    if free_ts.len() > 1 && wrapping_le(free_ts[0], ts) {
        let rest = free_ts.drop_first();
        lemma_reaped_prefix(rest, ts);
        assert forall|j: int| 0 <= j < reaped_count(free_ts, ts) implies wrapping_le(#[trigger] free_ts[j], ts) by {
            if j > 0 {
                assert(free_ts[j] == rest[j - 1]);
            }
        }
    }
}

/// A reaper slot turned dead.
spec fn reap_slot<T>(s: Slot<T>) -> Slot<T> {
    Slot { version: swapped_version(s.version, VersionState::Reaper, VersionState::Dead), t: None, ..s }
}

/// The slots with those at the raw indices `raws` turned dead.
spec fn reap_all<T>(slots: Seq<Slot<T>>, raws: Set<int>) -> Seq<Slot<T>> {
    Seq::new(slots.len(), |j: int| if raws.contains(j) { reap_slot(slots[j]) } else { slots[j] })
}

/// The raw indices of a sequence of keys.
spec fn chain_raws<T>(inner: &AtomicSlots<Slot<T>>, keys: Seq<SlotKey>) -> Set<int> {
    Set::new(|j: int| exists|i: int| 0 <= i < keys.len() && inner.raw_index(#[trigger] keys[i]) == j)
}

/// A lock on an [`AtomicRCSlots`]: slots whose last reference goes away while it is held stay readable through it
/// until it is unlocked. It is released by [`AtomicRCSlotsLock::unlock`]; a lock that goes out of scope without it
/// stays held, and the slots it protects are never freed.
pub struct AtomicRCSlotsLock<T> {
    lock_timestamp: Timestamp,
    _phantom: PhantomData<T>,
}

impl<T> AtomicRCSlotsLock<T> {
    /// The timestamp of the lock.
    pub closed spec fn timestamp(&self) -> u32 {
        self.lock_timestamp.0
    }
}

impl<T> AtomicRCSlots<T> {
    /// The free timestamps of the reaper queue, front first.
    pub open spec fn reaper_timestamps(&self) -> Seq<u32> {
        self.reaper_keys().map_values(|k: SlotKey| self.info(k).free_timestamp)
    }

    /// `new` is `self` after the unlock of the lock with timestamp `ts`: the front of the reaper queue that is
    /// not after `ts` (but never its last slot) died and moved to the dead queue.
    pub open spec fn reaped(&self, new: &Self, ts: u32) -> bool {
        let n = reaped_count(self.reaper_timestamps(), ts) as int;
        let gone = self.reaper_keys().take(n);
        &&& new.reaper_keys() == self.reaper_keys().skip(n)
        &&& new.dead_keys() == self.dead_keys() + gone
        &&& new@.len() == self@.len()
        &&& forall|i: int| 0 <= i < n ==> new.info(#[trigger] gone[i]) == Self::dead_info()
        &&& forall|j: int|
            0 <= j < self@.len() && (forall|i: int| 0 <= i < n ==> self.raw(#[trigger] gone[i]) != j) ==> new@[j]
                == self@[j]
    }

    /// Every reaper slot can be ordered against `ts`.
    pub open spec fn reaper_comparable(&self, ts: u32) -> bool {
        forall|i: int| 0 <= i < self.reaper_keys().len() ==> comparable(#[trigger] self.reaper_timestamps()[i], ts)
    }

    /// The value the slot at raw index `i` shows to a lock with timestamp `ts`: alive slots, and reaper slots
    /// whose last reference went away no earlier than the lock was taken.
    pub open spec fn visible(&self, i: int, ts: u32) -> Option<T> {
        let info = self@[i];
        if info.state == VersionState::Alive || (info.state == VersionState::Reaper && wrapping_ge(
            info.free_timestamp,
            ts,
        )) {
            info.value
        } else {
            None
        }
    }

    /// Every lock sees the value of an alive slot, whatever its reference count, and no lock sees anything of a dead
    /// slot.
    pub proof fn lemma_visible_by_state(&self, i: int, ts: u32)
        requires
            self.wf(),
            0 <= i < self@.len(),
        ensures
            self@[i].state == VersionState::Alive ==> self.visible(i, ts) == self@[i].value && self.visible(i, ts) is Some,
            self@[i].state == VersionState::Dead ==> self.visible(i, ts) == None::<T>,
    {
        assert(slot_ok(self.inner@[i]));
    }

    /// A value whose last reference went away while a lock taken at `ts` was held stays visible to that lock across
    /// the unlock of any lock taken before the value's last reference went away: such an unlock at `ts2` reaps only
    /// slots whose timestamp is not after `ts2`, and the slot's timestamp is the newest lock at the time it was
    /// dropped. Together with [`Self::lemma_dropped_visible_to_held_lock`], the value stays visible to the lock until
    /// that lock and every lock taken before it are unlocked.
    pub proof fn lemma_reaper_stays_visible(&self, new: &Self, key: SlotKey, ts: u32, ts2: u32)
        requires
            self.wf(),
            new.same_layout(self),
            self.reaped(new, ts2),
            self.has_key(key),
            self.info(key).state == VersionState::Reaper,
            wrapping_ge(self.info(key).free_timestamp, ts),
            !wrapping_le(self.info(key).free_timestamp, ts2),
        ensures
            new.raw(key) == self.raw(key),
            new.info(key) == self.info(key),
            new.visible(self.raw(key), ts) == self.info(key).value,
            self.info(key).value is Some,
    {
        new.lemma_same_layout(self, key);
        assert(slot_ok(self.inner@[self.raw(key)]));
        let tss = self.reaper_timestamps();
        let n = reaped_count(tss, ts2) as int;
        let gone = self.reaper_keys().take(n);
        lemma_reaped_prefix(tss, ts2);
        let j = self.raw(key);
        assert forall|i: int| 0 <= i < n implies self.raw(#[trigger] gone[i]) != j by {
            assert(gone[i] == self.reaper_keys()[i]);
            assert(tss[i] == self.info(gone[i]).free_timestamp);
            assert(wrapping_le(tss[i], ts2));
        }
    }

    /// Takes a new lock, with the next timestamp.
    pub fn lock(&mut self) -> (r: AtomicRCSlotsLock<T>)
        requires
            old(self).wf(),
        ensures
            final(self).wf(),
            r.timestamp() == final(self).lock_counter(),
            final(self).lock_counter() == (if old(self).lock_counter() == u32::MAX { 0 } else { (old(self).lock_counter()
                + 1) as u32 }),
            final(self)@ == old(self)@,
            final(self).reaper_keys() == old(self).reaper_keys(),
            final(self).dead_keys() == old(self).dead_keys(),
            final(self).finished_counter() == old(self).finished_counter(),
            final(self).same_layout(&*old(self)),
    {
        let lock_id = self.curr_lock_counter.wrapping_add(1);
        self.curr_lock_counter = lock_id;
        AtomicRCSlotsLock { lock_timestamp: Timestamp::new(lock_id), _phantom: PhantomData }
    }

    /// Turns every slot of a chain of reaper slots dead.
    fn free_chain(&mut self, chain: &SlotChain)
        requires
            old(self).inner.wf(),
            chain.wf(&old(self).inner),
            forall|i: int|
                0 <= i < chain.keys().len() ==> version_state(
                    old(self).inner.value(#[trigger] chain.keys()[i]).version,
                ) == Some(VersionState::Reaper),
        ensures
            final(self).inner.wf(),
            final(self).inner.block_size_log() == old(self).inner.block_size_log(),
            final(self).inner.instance() == old(self).inner.instance(),
            final(self).reaper_queue == old(self).reaper_queue,
            final(self).dead_queue == old(self).dead_queue,
            final(self).slots_allocated_max == old(self).slots_allocated_max,
            final(self).curr_lock_counter == old(self).curr_lock_counter,
            final(self).finished_lock_counter == old(self).finished_lock_counter,
            final(self).inner@ == reap_all(old(self).inner@, chain_raws(&old(self).inner, chain.keys())),
    {
        let ghost old_inner = self.inner;
        let ghost keys = chain.keys();
        proof {
            self.inner.lemma_len_bound();
            assert(chain_raws(&old_inner, keys.take(0)) =~= Set::<int>::empty());
            assert(self.inner@ =~= reap_all(old_inner@, Set::<int>::empty()));
        }
        let mut key = chain.head();
        let ghost mut n: int = 0;
        loop
            invariant_except_break
                self.inner@ == reap_all(old_inner@, chain_raws(&old_inner, keys.take(n))),
            invariant
                self.inner.wf(),
                self.inner.block_size_log() == old_inner.block_size_log(),
                self.inner.instance() == old_inner.instance(),
                self.inner@.len() == old_inner@.len(),
                self.inner@.len() <= RAW_INDEX_LIMIT,
                self.reaper_queue == old(self).reaper_queue,
                self.dead_queue == old(self).dead_queue,
                self.slots_allocated_max == old(self).slots_allocated_max,
                self.curr_lock_counter == old(self).curr_lock_counter,
                self.finished_lock_counter == old(self).finished_lock_counter,
                chain.wf(&old_inner),
                keys == chain.keys(),
                forall|i: int|
                    0 <= i < keys.len() ==> version_state(old_inner.value(#[trigger] keys[i]).version)
                        == Some(VersionState::Reaper),
                0 <= n < keys.len(),
                key == keys[n],
            ensures
                self.inner@ == reap_all(old_inner@, chain_raws(&old_inner, keys)),
            decreases keys.len() - n,
        {
            assert(old_inner.contains_key(keys[n]));
            let ghost x = old_inner.raw_index(keys[n]);
            let ghost done = chain_raws(&old_inner, keys.take(n));
            proof {
                if done.contains(x) {
                    let t0 = keys.take(n);
                    let i = choose|i: int| 0 <= i < t0.len() && old_inner.raw_index(#[trigger] t0[i]) == x;
                    assert(old_inner.contains_key(keys[i]));
                    crate::queue::lemma_distinct_raw(&old_inner, keys[i], keys[n]);
                }
                assert(chain_raws(&old_inner, keys.take(n + 1)) =~= done.insert(x)) by {
                    assert forall|j: int| chain_raws(&old_inner, keys.take(n + 1)).contains(j) implies done.insert(
                        x,
                    ).contains(j) by {
                        let t1 = keys.take(n + 1);
                        let i = choose|i: int| 0 <= i < t1.len() && old_inner.raw_index(#[trigger] t1[i]) == j;
                        if i < n {
                            assert(keys.take(n)[i] == keys.take(n + 1)[i]);
                        }
                    }
                    assert forall|j: int| done.insert(x).contains(j) implies chain_raws(
                        &old_inner,
                        keys.take(n + 1),
                    ).contains(j) by {
                        if j == x {
                            assert(keys.take(n + 1)[n] == keys[n]);
                        } else {
                            let t0 = keys.take(n);
                            let i = choose|i: int| 0 <= i < t0.len() && old_inner.raw_index(#[trigger] t0[i]) == j;
                            assert(keys.take(n)[i] == keys.take(n + 1)[i]);
                        }
                    }
                }
            }
            Self::free_slot(self.inner.index_mut(key), VersionState::Reaper);
            proof {
                assert(self.inner@ =~= reap_all(old_inner@, done.insert(x)));
            }
            if key == chain.tail() {
                proof {
                    if n < keys.len() - 1 {
                        assert(keys[n] != keys[keys.len() - 1]);
                    }
                    assert(keys.take(n + 1) =~= keys);
                }
                break;
            }
            proof {
                assert(n < keys.len() - 1);
                assert(old_inner.value(keys[n]).next_index() == old_inner.raw_index(keys[n + 1]));
                assert(old_inner.contains_key(keys[n + 1]));
                assert(self.inner@[old_inner.raw_index(keys[n])].atomic == old_inner@[old_inner.raw_index(keys[n])].atomic);
            }
            let next = self.inner.index(key).atomic();
            key = self.inner.key_from_raw_index(next);
            proof {
                old_inner.lemma_key_unique(key, keys[n + 1]);
                n = n + 1;
            }
        }
    }
}

impl<T> AtomicRCSlots<T> {
    /// The lock counter before the lock with timestamp `ts` was taken.
    pub open spec fn previous_timestamp(ts: u32) -> u32 {
        if ts == 0 {
            u32::MAX
        } else {
            (ts - 1) as u32
        }
    }

    /// Releases the lock with timestamp `lock_timestamp`, which must be the oldest one held (older locks
    /// are released first), and frees the reaper slots no lock can read anymore.
    #[verifier::rlimit(60)]
    #[verifier::spinoff_prover]
    fn unlock(&mut self, lock_timestamp: Timestamp)
        requires
            old(self).wf(),
            old(self).finished_counter() == Self::previous_timestamp(lock_timestamp.0),
            old(self).reaper_comparable(lock_timestamp.0),
        ensures
            final(self).wf(),
            final(self).same_layout(&*old(self)),
            final(self).lock_counter() == old(self).lock_counter(),
            final(self).finished_counter() == lock_timestamp.0,
            old(self).reaped(&*final(self), lock_timestamp.0),
    {
        let ghost old_self = *self;
        let ghost ts = lock_timestamp.0;
        let ghost rk = self.reaper_queue.keys();
        proof {
            self.inner.lemma_len_bound();
            self.reaper_queue.lemma_inv(&self.inner);
            self.dead_queue.lemma_inv(&self.inner);
            assert forall|i: int| 0 <= i < rk.len() implies self.inner.contains_key(#[trigger] rk[i]) && comparable(
                self.inner.value(rk[i]).free_timestamp.0,
                ts,
            ) by {
                assert(self.inner.contains_key(rk[i]));
                assert(self.reaper_timestamps()[i] == self.info(rk[i]).free_timestamp);
                assert(self.info(rk[i]) == info_of(self.inner@[self.inner.raw_index(rk[i])]));
            }
        }
        let inner = &self.inner;
        let reapable = |key: SlotKey| -> (b: bool)
            requires
                inner.wf(),
                inner.contains_key(key),
                comparable(inner.value(key).free_timestamp.0, lock_timestamp.0),
            ensures
                b == wrapping_le(inner.value(key).free_timestamp.0, lock_timestamp.0),
        {
            inner.index(key).free_timestamp.is_le_wrapping(&lock_timestamp)
        };
        let chain = self.reaper_queue.pop_chain(inner, reapable);
        let ghost n = crate::queue::popped_count(chain);
        proof {
            let tss = old_self.reaper_timestamps();
            assert forall|j: int| 0 <= j < n implies wrapping_le(#[trigger] tss[j], ts) by {
                assert(self.inner.contains_key(rk[j]));
                assert(self.info(rk[j]) == info_of(self.inner@[self.inner.raw_index(rk[j])]));
            }
            if n < rk.len() - 1 {
                assert(self.inner.contains_key(rk[n]));
                assert(self.info(rk[n]) == info_of(self.inner@[self.inner.raw_index(rk[n])]));
            }
            lemma_reaped_count(tss, ts, n);
        }
        self.finished_lock_counter = lock_timestamp.0;
        match chain {
            None => {
                proof {
                    assert(rk.skip(0) =~= rk);
                    assert(old_self.dead_queue.keys() + rk.take(0) =~= old_self.dead_queue.keys());
                }
            },
            Some(chain) => {
                let ghost before = self.inner;
                let ghost ck = chain.keys();
                proof {
                    assert forall|i: int| 0 <= i < ck.len() implies version_state(
                        before.value(#[trigger] ck[i]).version,
                    ) == Some(VersionState::Reaper) by {
                        assert(ck[i] == rk[i]);
                        assert(before.contains_key(rk[i]));
                        assert(slot_ok(before@[before.raw_index(rk[i])]));
                    }
                }
                self.free_chain(&chain);
                let ghost mid = self.inner;
                let ghost raws = chain_raws(&before, ck);
                proof {
                    // keys outside the chain keep their slots
                    assert forall|k: SlotKey| before.contains_key(k) && !ck.contains(k) implies #[trigger] mid.value(k)
                        == before.value(k) by {
                        if raws.contains(before.raw_index(k)) {
                            let i = choose|i: int| 0 <= i < ck.len() && before.raw_index(#[trigger] ck[i]) == before.raw_index(k);
                            assert(before.contains_key(ck[i]));
                            before.lemma_key_unique(ck[i], k);
                        }
                    }
                    assert forall|i: int| 0 <= i < ck.len() implies #[trigger] mid.value(ck[i]) == reap_slot(before.value(ck[i])) by {
                        assert(before.contains_key(ck[i]));
                    }
                    let nrk = self.reaper_queue.keys();
                    assert forall|i: int| 0 <= i < nrk.len() implies mid.value(#[trigger] nrk[i]) == before.value(nrk[i]) by {
                        assert(nrk[i] == rk[i + n]);
                        assert(before.contains_key(rk[i + n]));
                        assert forall|j: int| 0 <= j < ck.len() implies ck[j] != nrk[i] by {
                            assert(ck[j] == rk[j]);
                            assert(rk[j] != rk[i + n]);
                        }
                    }
                    self.reaper_queue.lemma_inv_frame(&before, &mid);
                    let dk = self.dead_queue.keys();
                    assert forall|i: int| 0 <= i < dk.len() implies mid.value(#[trigger] dk[i]) == before.value(dk[i]) by {
                        assert(before.contains_key(dk[i]));
                        assert forall|j: int| 0 <= j < ck.len() implies ck[j] != dk[i] by {
                            assert(ck[j] == rk[j]);
                            assert(before.contains_key(rk[j]));
                        }
                    }
                    self.dead_queue.lemma_inv_frame(&before, &mid);
                    assert forall|i: int| 0 <= i < ck.len() implies mid.value(#[trigger] ck[i]).next_index() == before.value(
                        ck[i],
                    ).next_index() by {
                        assert(before.contains_key(ck[i]));
                    }
                    crate::queue::lemma_linked_frame(&before, &mid, ck);
                    assert forall|i: int, j: int| 0 <= i < dk.len() && 0 <= j < ck.len() implies dk[i] != ck[j] by {
                        assert(ck[j] == rk[j]);
                        assert(before.contains_key(rk[j]));
                        assert(before.contains_key(dk[i]));
                    }
                    if dk.len() > 0 {
                        assert(before.contains_key(dk[dk.len() - 1]));
                        assert(mid.value(dk.last()) == before.value(dk.last()));
                    }
                    assert(mid.contains_key(ck[ck.len() - 1]));
                    assert(before.contains_key(ck[ck.len() - 1]));
                    lemma_swapped_version(before.value(ck.last()).version, VersionState::Reaper, VersionState::Dead);
                }
                self.dead_queue.push_chain(&mut self.inner, chain);
                proof {
                    let dk = old_self.dead_queue.keys();
                    let nrk = self.reaper_queue.keys();
                    Self::lemma_push_view(&mid, &self.inner, dk, ck);
                    assert forall|i: int| 0 <= i < nrk.len() implies self.inner.value(#[trigger] nrk[i]) == mid.value(
                        nrk[i],
                    ) by {
                        assert(nrk[i] == rk[i + n]);
                        assert(mid.contains_key(nrk[i]));
                        assert(nrk[i] != ck.last()) by {
                            assert(ck[ck.len() - 1] == rk[ck.len() - 1]);
                        }
                        crate::queue::lemma_distinct_raw(&mid, nrk[i], ck.last());
                        if dk.len() > 0 {
                            assert(mid.contains_key(dk[dk.len() - 1]));
                            assert(before.contains_key(nrk[i]));
                            assert(before.value(nrk[i]) == old_self.inner.value(nrk[i]));
                            assert(nrk[i] != dk.last());
                            crate::queue::lemma_distinct_raw(&mid, nrk[i], dk.last());
                        }
                    }
                    self.reaper_queue.lemma_inv_frame(&mid, &self.inner);
                    assert forall|i: int| 0 <= i < nrk.len() implies state_of(
                        self.inner.value(#[trigger] nrk[i]).version,
                    ) == VersionState::Reaper by {
                        assert(nrk[i] == rk[i + n]);
                        assert(before.contains_key(rk[i + n]));
                    }
                    let ndk = self.dead_queue.keys();
                    assert forall|i: int| 0 <= i < ndk.len() implies state_of(
                        self.inner.value(#[trigger] ndk[i]).version,
                    ) == VersionState::Dead by {
                        if i < dk.len() {
                            assert(before.contains_key(dk[i]));
                            assert(mid.value(dk[i]) == before.value(dk[i]));
                        } else {
                            let c = ck[i - dk.len()];
                            assert(before.contains_key(c));
                            assert(slot_ok(before@[before.raw_index(c)]));
                            lemma_swapped_version(before.value(c).version, VersionState::Reaper, VersionState::Dead);
                        }
                    }
                    assert forall|j: int| 0 <= j < self.inner@.len() implies slot_ok(#[trigger] self.inner@[j]) by {
                        assert(slot_ok(before@[j]));
                        if raws.contains(j) {
                            lemma_swapped_version(before@[j].version, VersionState::Reaper, VersionState::Dead);
                            let i = choose|i: int| 0 <= i < ck.len() && before.raw_index(#[trigger] ck[i]) == j;
                            assert(before.contains_key(ck[i]));
                            assert(slot_ok(before@[before.raw_index(ck[i])]));
                        }
                    }
                    // the view
                    let gone = rk.take(n);
                    assert(gone =~= ck);
                    assert forall|i: int| 0 <= i < n implies self.info(#[trigger] gone[i]) == Self::dead_info() by {
                        assert(before.contains_key(ck[i]));
                        assert(slot_ok(before@[before.raw_index(ck[i])]));
                        lemma_swapped_version(before.value(ck[i]).version, VersionState::Reaper, VersionState::Dead);
                    }
                    assert forall|j: int|
                        0 <= j < old_self@.len() && (forall|i: int| 0 <= i < n ==> old_self.raw(#[trigger] gone[i]) != j)
                            implies self@[j] == old_self@[j] by {
                        if raws.contains(j) {
                            let i = choose|i: int| 0 <= i < ck.len() && before.raw_index(#[trigger] ck[i]) == j;
                            assert(old_self.raw(gone[i]) == j);
                        }
                    }
                }
            },
        }
    }
}

impl<T> AtomicRCSlots<T> {
    /// Calls `f` for every allocated slot, in raw index order, with what the slot shows to a lock with timestamp
    /// `lock_timestamp`: its value while it is alive, or in the reaper state since no earlier than the lock was
    /// taken, and `None` otherwise.
    fn iter_with<R, F: Fn(Option<&T>) -> R>(&self, lock_timestamp: Timestamp, f: F) -> (r: Vec<R>)
        requires
            self.wf(),
            forall|i: int|
                0 <= i < self@.len() && (#[trigger] self@[i]).state == VersionState::Reaper ==> comparable(
                    self@[i].free_timestamp,
                    lock_timestamp.0,
                ),
            forall|i: int| 0 <= i < self@.len() ==> f.requires((#[trigger] option_ref(&self.visible(i, lock_timestamp.0)),)),
        ensures
            r@.len() == self@.len(),
            forall|i: int|
                0 <= i < self@.len() ==> f.ensures((option_ref(&self.visible(i, lock_timestamp.0)),), #[trigger] r@[i]),
    {
        let max = self.slots_allocated_max;
        let mut out: Vec<R> = Vec::new();
        let mut index: u32 = 0;
        proof {
            self.inner.lemma_len_bound();
        }
        while index < max
            invariant
                self.wf(),
                max == self@.len(),
                max <= RAW_INDEX_LIMIT,
                index <= max,
                out@.len() == index,
                forall|i: int|
                    0 <= i < self@.len() && (#[trigger] self@[i]).state == VersionState::Reaper ==> comparable(
                        self@[i].free_timestamp,
                        lock_timestamp.0,
                    ),
                forall|i: int| 0 <= i < self@.len() ==> f.requires((#[trigger] option_ref(&self.visible(i, lock_timestamp.0)),)),
                forall|i: int|
                    0 <= i < index ==> f.ensures((option_ref(&self.visible(i, lock_timestamp.0)),), #[trigger] out@[i]),
            decreases max - index,
        {
            let key = self.inner.key_from_raw_index(index);
            let slot = self.inner.index(key);
            let ghost i = index as int;
            proof {
                assert(slot_ok(self.inner@[i]));
                assert(self@[i] == info_of(self.inner@[i]));
            }
            let present = match VersionState::from(slot.version) {
                VersionState::Dead => false,
                VersionState::Alive => true,
                VersionState::Reaper => slot.free_timestamp.is_ge_wrapping(&lock_timestamp),
            };
            proof {
                assert(*slot == self.inner@[i]);
                assert(present ==> self.visible(i, lock_timestamp.0) == slot.t);
                assert(!present ==> self.visible(i, lock_timestamp.0) == None::<T>);
                assert(f.requires((option_ref(&self.visible(i, lock_timestamp.0)),)));
            }
            let item = if present {
                match &slot.t {
                    Some(t) => f(Some(t)),
                    None => vstd::pervasive::unreached(),
                }
            } else {
                f(None)
            };
            out.push(item);
            index = index + 1;
        }
        out
    }
}

/// A reference to the value of an option, as the closures of [`AtomicRCSlotsLock::iter_with`] receive it.
pub open spec fn option_ref<'a, T>(o: &'a Option<T>) -> Option<&'a T> {
    match o {
        Some(t) => Some(t),
        None => None,
    }
}

impl<T> AtomicRCSlotsLock<T> {
    /// Releases the lock. Releasing a lock waits until every older lock is released; on a single thread that wait
    /// would never end, so this lock must be the oldest one still held.
    pub fn unlock(self, slots: &mut AtomicRCSlots<T>)
        requires
            old(slots).wf(),
            old(slots).finished_counter() == AtomicRCSlots::<T>::previous_timestamp(self.timestamp()),
            old(slots).reaper_comparable(self.timestamp()),
        ensures
            final(slots).wf(),
            final(slots).same_layout(&*old(slots)),
            final(slots).lock_counter() == old(slots).lock_counter(),
            final(slots).finished_counter() == self.timestamp(),
            old(slots).reaped(&*final(slots), self.timestamp()),
    {
        slots.unlock(self.lock_timestamp)
    }

    /// Calls `f` for every slot allocated so far, in raw index order, with the value the slot shows to this lock,
    /// and gives the results in that order.
    pub fn iter_with<R, F: Fn(Option<&T>) -> R>(&self, slots: &AtomicRCSlots<T>, f: F) -> (r: Vec<R>)
        requires
            slots.wf(),
            forall|i: int|
                0 <= i < slots@.len() && (#[trigger] slots@[i]).state == VersionState::Reaper ==> comparable(
                    slots@[i].free_timestamp,
                    self.timestamp(),
                ),
            forall|i: int| 0 <= i < slots@.len() ==> f.requires((#[trigger] option_ref(&slots.visible(i, self.timestamp())),)),
        ensures
            r@.len() == slots@.len(),
            forall|i: int|
                0 <= i < slots@.len() ==> f.ensures((option_ref(&slots.visible(i, self.timestamp())),), #[trigger] r@[i]),
    {
        slots.iter_with(self.lock_timestamp, f)
    }
}

} // verus!
