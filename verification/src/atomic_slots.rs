use vstd::prelude::*;
use vstd::arithmetic::power2::{
    pow2, lemma_pow2_pos, lemma_pow2_adds, lemma_pow2_strictly_increases, lemma_pow2_unfold,
    lemma2_to64, lemma2_to64_rest,
};
use vstd::bits::lemma_u64_shl_is_mul;

verus! {

/// The number of blocks an [`AtomicSlots`] may ever allocate.
pub const BLOCK_COUNT: u32 = 32;

/// Raw indices must stay below this bound to be turned into a [`SlotKey`].
pub const RAW_INDEX_LIMIT: u32 = 4294967195;

/// The first raw index stored in block `block`, when the first block holds `pow2(log)` slots.
pub open spec fn block_start(log: nat, block: nat) -> int {
    pow2(block + log) - pow2(log)
}

/// The raw index of slot `slot` within block `block`.
pub open spec fn raw_index_of(log: nat, block: nat, slot: nat) -> int {
    block_start(log, block) + slot
}

/// Hands out the ids that tell [`AtomicSlots`] instances apart.
pub struct InstanceIds {
    next: u16,
}

impl InstanceIds {
    /// The id the next instance will receive.
    pub closed spec fn peek(&self) -> u16 {
        self.next
    }

    pub fn new() -> (r: Self)
        ensures
            r.peek() == 0,
    {
        InstanceIds { next: 0 }
    }

    /// Takes the next id; ids wrap around after `u16::MAX`.
    pub fn next_id(&mut self) -> (id: u16)
        ensures
            id == old(self).peek(),
            final(self).peek() == (if old(self).peek() == u16::MAX { 0 } else { (old(self).peek() + 1) as u16 }),
    {
        let id = self.next;
        self.next = if id == u16::MAX { 0 } else { id + 1 };
        id
    }
}

/// Identifies a slot within one [`AtomicSlots`] instance.
#[derive(Copy, Clone, Debug, Ord, PartialOrd, Eq, PartialEq, Structural)]
pub struct SlotKey {
    instance_id: u16,
    block: u16,
    slot: u32,
}

impl SlotKey {
    pub closed spec fn instance_of(self) -> u16 {
        self.instance_id
    }

    pub closed spec fn block_of(self) -> nat {
        self.block as nat
    }

    pub closed spec fn slot_of(self) -> nat {
        self.slot as nat
    }

    /// The instance the key belongs to.
    pub fn instance_id(&self) -> (r: u16)
        ensures
            r == self.instance_of(),
    {
        self.instance_id
    }

    /// The block of the slot.
    pub fn block(&self) -> (r: u16)
        ensures
            r == self.block_of(),
    {
        self.block
    }

    /// The place of the slot in its block.
    pub fn slot(&self) -> (r: u32)
        ensures
            r == self.slot_of(),
    {
        self.slot
    }
}

/// Two keys are equal exactly when their instance, block and slot agree.
pub proof fn lemma_slot_key_eq(a: SlotKey, b: SlotKey)
    ensures
        (a == b) <==> (a.instance_of() == b.instance_of() && a.block_of() == b.block_of()
            && a.slot_of() == b.slot_of()),
{
}

/// `floor(log2(x))`.
fn floor_log2(x: u64) -> (r: u32)
    requires
        x > 0,
    ensures
        r < 64,
        pow2(r as nat) <= x < pow2(r as nat + 1),
{
    let mut r: u32 = 0;
    let mut p: u64 = 1;
    proof {
        lemma2_to64();
    }
    while p <= x / 2
        invariant
            x > 0,
            p == pow2(r as nat),
            1 <= p <= x,
            r < 64,
        decreases x - p,
    {
        proof {
            lemma_pow2_unfold(r as nat + 1);
        }
        p = p * 2;
        r = r + 1;
        proof {
            if r >= 64 {
                lemma_pow2_strictly_increases(63, r as nat);
                lemma2_to64_rest();
            }
        }
    }
    proof {
        lemma_pow2_unfold(r as nat + 1);
    }
    r
}

/// `1 << n` on `u64`.
proof fn lemma_shl_one(n: u64)
    requires
        n < 64,
    ensures
        (1u64 << n) == pow2(n as nat),
{
    lemma_pow2_pos(n as nat);
    vstd::bits::lemma_u64_pow2_no_overflow(n as nat);
    lemma_u64_shl_is_mul(1, n);
}

/// Splitting a raw index into block and slot is unique.
pub proof fn lemma_raw_index_unique(log: nat, b1: nat, s1: nat, b2: nat, s2: nat)
    requires
        s1 < pow2(b1 + log),
        s2 < pow2(b2 + log),
        raw_index_of(log, b1, s1) == raw_index_of(log, b2, s2),
    ensures
        b1 == b2,
        s1 == s2,
{
    if b1 < b2 {
        lemma_pow2_strictly_increases(b1 + log, b2 + log);
        lemma_pow2_unfold(b1 + log + 1);
        if b1 + 1 < b2 {
            lemma_pow2_strictly_increases(b1 + log + 1, b2 + log);
        }
    } else if b2 < b1 {
        lemma_pow2_strictly_increases(b2 + log, b1 + log);
        lemma_pow2_unfold(b2 + log + 1);
        if b2 + 1 < b1 {
            lemma_pow2_strictly_increases(b2 + log + 1, b1 + log);
        }
    }
}

/// Where the blocks start grows with the block.
proof fn lemma_block_start_monotonic(log: nat, b1: nat, b2: nat)
    requires
        b1 <= b2,
    ensures
        block_start(log, b1) <= block_start(log, b2),
{
    if b1 < b2 {
        lemma_pow2_strictly_increases(b1 + log, b2 + log);
    }
}

/// A canonical key below the raw index limit lies in one of the blocks that may be allocated.
proof fn lemma_block_bounds(log: nat, block: nat, slot: nat)
    requires
        log < 32,
        block + log <= 32,
        slot < pow2(block + log),
        raw_index_of(log, block, slot) < RAW_INDEX_LIMIT,
    ensures
        block < BLOCK_COUNT,
        raw_index_of(log, block, slot) < block_start(log, block + 1),
{
    lemma_pow2_unfold(block + log + 1);
    lemma2_to64();
    if block == 32 {
        assert(log == 0);
    }
}

/// A slot map of values `V` that grows by blocks that double in size. A value keeps its raw index, and so its key, for
/// as long as the slot map exists.
///
/// A slot is addressed either by a [`SlotKey`] (its block and its place in the block) or by its raw index, the
/// number of slots allocated before it.
pub struct AtomicSlots<V> {
    slots: Vec<V>,
    next_free_slot: u32,
    block_size_log: u32,
    blocks_allocated: u16,
    instance_id: u16,
}

impl<V: Default> AtomicSlots<V> {
    pub closed spec fn wf(&self) -> bool {
        &&& self.block_size_log < 32
        &&& self.blocks_allocated <= BLOCK_COUNT
        &&& self.slots@.len() == block_start(self.block_size_log as nat, self.blocks_allocated as nat)
        &&& self.next_free_slot <= self.slots@.len()
        &&& self.next_free_slot <= RAW_INDEX_LIMIT
        &&& forall|i: int|
            self.next_free_slot <= i < self.slots@.len() ==> call_ensures(V::default, (), #[trigger] self.slots@[i])
    }

    /// The values of all allocated slots, by raw index.
    pub closed spec fn view(&self) -> Seq<V> {
        self.slots@.take(self.next_free_slot as int)
    }

    /// `log2` of the size of the first block.
    pub closed spec fn block_size_log(&self) -> nat {
        self.block_size_log as nat
    }

    pub closed spec fn instance(&self) -> u16 {
        self.instance_id
    }

    /// The raw index that a key addresses.
    pub open spec fn raw_index(&self, key: SlotKey) -> int {
        raw_index_of(self.block_size_log(), key.block_of(), key.slot_of())
    }

    /// The key is of this instance and in its canonical form.
    pub open spec fn is_canonical(&self, key: SlotKey) -> bool {
        &&& key.instance_of() == self.instance()
        &&& key.slot_of() < pow2(key.block_of() + self.block_size_log())
    }

    /// The key addresses an allocated slot of this instance.
    pub open spec fn contains_key(&self, key: SlotKey) -> bool {
        &&& self.is_canonical(key)
        &&& 0 <= self.raw_index(key) < self@.len()
    }

    /// The value stored in the slot of `key`.
    pub open spec fn value(&self, key: SlotKey) -> V {
        self@[self.raw_index(key)]
    }

    /// Creates a new [`AtomicSlots`] instance.
    /// `first_block_size` must be larger than 0 and is rounded down to a power of two. It is the size of the first
    /// block, and each following block is double the size of the previous one.
    pub fn new(first_block_size: u32, ids: &mut InstanceIds) -> (r: Self)
        requires
            first_block_size > 0,
        ensures
            r.wf(),
            r@ == Seq::<V>::empty(),
            r.blocks() == 0,
            pow2(r.block_size_log()) <= first_block_size < pow2(r.block_size_log() + 1),
            r.instance() == old(ids).peek(),
            final(ids).peek() == (if old(ids).peek() == u16::MAX { 0 } else { (old(ids).peek() + 1) as u16 }),
    {
        let block_size_log = floor_log2(first_block_size as u64);
        proof {
            lemma2_to64();
            if block_size_log > 32 {
                lemma_pow2_strictly_increases(32, block_size_log as nat);
            }
        }
        let instance_id = ids.next_id();
        let r = AtomicSlots { slots: Vec::new(), next_free_slot: 0, block_size_log, blocks_allocated: 0, instance_id };
        proof {
            assert(block_start(block_size_log as nat, 0) == 0);
            assert(r@ =~= Seq::<V>::empty());
        }
        r
    }

    /// `log2` of the size of the first block.
    pub fn block_size_log_exec(&self) -> (r: u32)
        ensures
            r == self.block_size_log(),
    {
        self.block_size_log
    }

    /// Create a SlotKey from a raw index.
    pub fn key_from_raw_index(&self, index: u32) -> (key: SlotKey)
        requires
            self.wf(),
            index < RAW_INDEX_LIMIT,
        ensures
            self.is_canonical(key),
            self.raw_index(key) == index,
            key.block_of() + self.block_size_log() <= 32,
    {
        let log = self.block_size_log;
        proof {
            lemma_shl_one(log as u64);
            lemma_pow2_strictly_increases(log as nat, 32);
            lemma2_to64();
        }
        let base_offset: u64 = 1u64 << (log as u64);
        let shift = floor_log2(index as u64 + base_offset);
        proof {
            // shift is at least log
            if shift < log {
                if shift + 1 < log {
                    lemma_pow2_strictly_increases(shift as nat + 1, log as nat);
                }
            }
            // shift is at most 32
            lemma2_to64_rest();
            if shift > 33 {
                lemma_pow2_strictly_increases(33, shift as nat);
            }
            lemma_shl_one(shift as u64);
            lemma_pow2_unfold(shift as nat + 1);
        }
        let block = shift - log;
        let slot_offset: u64 = (1u64 << (shift as u64)) - base_offset;
        let slot: u32 = index - (slot_offset as u32);
        SlotKey { instance_id: self.instance_id, block: block as u16, slot }
    }

    /// The raw index of a key.
    pub fn key_to_raw_index(&self, key: SlotKey) -> (r: u32)
        requires
            self.wf(),
            key.instance_of() == self.instance(),
            self.raw_index(key) <= u32::MAX,
        ensures
            r == self.raw_index(key),
    {
        self.check(key);
        let log = self.block_size_log;
        proof {
            lemma_pow2_pos(log as nat);
            if key.block as nat + log as nat > 32 {
                lemma_pow2_strictly_increases(32, key.block as nat + log as nat);
                lemma_pow2_strictly_increases(log as nat, 32);
                lemma_pow2_unfold(33);
                if key.block as nat + log as nat > 33 {
                    lemma_pow2_strictly_increases(33, key.block as nat + log as nat);
                }
                lemma2_to64_rest();
                lemma2_to64();
            }
            lemma_shl_one(log as u64);
            lemma_shl_one((key.block as u32 + log) as u64);
            if key.block > 0 {
                lemma_pow2_strictly_increases(log as nat, key.block as nat + log as nat);
            }
            lemma2_to64_rest();
            lemma2_to64();
        }
        let base_offset: u64 = 1u64 << (log as u64);
        let shift: u32 = key.block as u32 + log;
        let slot_offset: u64 = (1u64 << (shift as u64)) - base_offset;
        key.slot + slot_offset as u32
    }

    /// A well formed instance never holds more slots than raw indices can address.
    pub proof fn lemma_len_bound(&self)
        requires
            self.wf(),
        ensures
            self@.len() <= RAW_INDEX_LIMIT,
            self.block_size_log() < 32,
    {
    }

    /// Two canonical keys of this instance that address the same raw index are the same key, so converting a key
    /// to its raw index and back gives the key again.
    pub proof fn lemma_key_unique(&self, k1: SlotKey, k2: SlotKey)
        requires
            self.is_canonical(k1),
            self.is_canonical(k2),
            self.raw_index(k1) == self.raw_index(k2),
        ensures
            k1 == k2,
    {
        lemma_raw_index_unique(self.block_size_log(), k1.block_of(), k1.slot_of(), k2.block_of(), k2.slot_of());
    }

    /// Allocates the next slot, allocating a new block when the allocated blocks are full.
    pub fn allocate(&mut self) -> (key: SlotKey)
        requires
            old(self).wf(),
            old(self)@.len() < RAW_INDEX_LIMIT,
        ensures
            final(self).wf(),
            final(self).block_size_log() == old(self).block_size_log(),
            final(self).instance() == old(self).instance(),
            final(self)@.len() == old(self)@.len() + 1,
            final(self)@.take(old(self)@.len() as int) == old(self)@,
            call_ensures(V::default, (), final(self)@.last()),
            final(self).contains_key(key),
            final(self).raw_index(key) == old(self)@.len(),
            final(self).blocks() == (if old(self).blocks() > key.block_of() {
                old(self).blocks()
            } else {
                key.block_of() + 1
            }),
    {
        let index = self.next_free_slot;
        proof {
            assert(self@.len() == index);
        }
        let slot = self.key_from_raw_index(index);
        let ghost log = self.block_size_log as nat;
        proof {
            lemma_block_bounds(log, slot.block as nat, slot.slot as nat);
        }
        if slot.block >= self.blocks_allocated {
            proof {
                lemma_block_start_monotonic(log, self.blocks_allocated as nat, slot.block as nat);
            }
            let mut i: u16 = self.blocks_allocated;
            let ghost old_slots = self.slots@;
            let ghost ba = self.blocks_allocated;
            let ghost inst = self.instance_id;
            while i <= slot.block
                invariant
                    self.block_size_log == log,
                    self.blocks_allocated == ba,
                    self.instance_id == inst,
                    self.slots@.len() >= old_slots.len(),
                    forall|j: int| 0 <= j < old_slots.len() ==> self.slots@[j] == old_slots[j],
                    log < 32,
                    self.next_free_slot == index,
                    index == raw_index_of(log, slot.block as nat, slot.slot as nat),
                    slot.slot < pow2(slot.block as nat + log),
                    slot.block as nat + log <= 32,
                    slot.block < BLOCK_COUNT,
                    self.blocks_allocated <= i <= slot.block + 1,
                    i <= slot.block ==> index >= block_start(log, i as nat),
                    self.slots@.len() == block_start(log, i as nat),
                    index <= self.slots@.len() || i <= slot.block,
                    forall|j: int|
                        index <= j < self.slots@.len() ==> call_ensures(V::default, (), #[trigger] self.slots@[j]),
                decreases slot.block + 1 - i,
            {
                proof {
                    lemma_shl_one((i as u32 + self.block_size_log) as u64);
                    lemma2_to64();
                    lemma_pow2_unfold(32);
                    lemma2_to64_rest();
                    if i as nat + log < 33 {
                        lemma_pow2_strictly_increases(i as nat + log, 33);
                    }
                }
                let size: u64 = 1u64 << ((i as u32 + self.block_size_log) as u64);
                let mut j: u64 = 0;
                while j < size
                    invariant
                        self.block_size_log == log,
                        self.blocks_allocated == ba,
                        self.instance_id == inst,
                        ba <= i,
                        self.slots@.len() >= old_slots.len(),
                        forall|k: int| 0 <= k < old_slots.len() ==> self.slots@[k] == old_slots[k],
                        self.next_free_slot == index,
                        i <= slot.block,
                        index >= block_start(log, i as nat),
                        j <= size,
                        self.slots@.len() == block_start(log, i as nat) + j,
                        forall|k: int|
                            index <= k < self.slots@.len() ==> call_ensures(V::default, (), #[trigger] self.slots@[k]),
                    decreases size - j,
                {
                    let v = V::default();
                    self.slots.push(v);
                    j = j + 1;
                }
                proof {
                    lemma_pow2_unfold(i as nat + log + 1);
                    assert(block_start(log, i as nat + 1) == block_start(log, i as nat) + pow2(i as nat + log));
                }
                i = i + 1;
            }
            self.blocks_allocated = slot.block + 1;
        }
        proof {
            lemma_pow2_unfold(slot.block as nat + log + 1);
            lemma_block_start_monotonic(log, slot.block as nat + 1, self.blocks_allocated as nat);
        }
        self.next_free_slot = index + 1;
        proof {
            assert(self@ =~= old(self)@.push(self.slots@[index as int]));
            assert(self@.take(old(self)@.len() as int) =~= old(self)@);
        }
        slot
    }

    /// The value stored in an allocated slot.
    pub fn index(&self, key: SlotKey) -> (r: &V)
        requires
            self.wf(),
            self.contains_key(key),
        ensures
            *r == self.value(key),
    {
        let i = self.key_to_raw_index(key);
        &self.slots[i as usize]
    }

    /// Mutable access to the value stored in an allocated slot.
    pub fn index_mut(&mut self, key: SlotKey) -> (r: &mut V)
        requires
            old(self).wf(),
            old(self).contains_key(key),
        ensures
            *r == old(self).value(key),
            final(self).wf(),
            final(self).block_size_log() == old(self).block_size_log(),
            final(self).instance() == old(self).instance(),
            final(self)@ == old(self)@.update(old(self).raw_index(key), *final(r)),
    {
        let i = self.key_to_raw_index(key);
        let ghost old_slots = self.slots@;
        let r = &mut self.slots[i as usize];
        proof {
            assert(after_borrow(self.slots)@.take(self.next_free_slot as int) =~= old_slots.take(
                self.next_free_slot as int,
            ).update(i as int, *final(r)));
        }
        r
    }

    /// Calls `f` with the value stored in an allocated slot.
    pub fn with<R, F: FnOnce(&V) -> R>(&self, slot: SlotKey, f: F) -> (r: R)
        requires
            self.wf(),
            self.contains_key(slot),
            f.requires((&self.value(slot),)),
        ensures
            f.ensures((&self.value(slot),), r),
    {
        let v = self.index(slot);
        f(v)
    }

    /// The number of blocks allocated so far.
    pub closed spec fn blocks(&self) -> nat {
        self.blocks_allocated as nat
    }

    /// The number of blocks allocated so far: they hold the slots below `block_start` of that number.
    pub fn blocks_allocated(&self) -> (r: u16)
        requires
            self.wf(),
        ensures
            r == self.blocks(),
            self.slots_len() == block_start(self.block_size_log(), r as nat),
    {
        self.blocks_allocated
    }

    /// The number of slots the allocated blocks hold.
    pub closed spec fn slots_len(&self) -> int {
        self.slots@.len() as int
    }

    /// The number of slots of block `block`, which is allocated.
    pub fn block_len(&self, block: u16) -> (r: u64)
        requires
            self.wf(),
            block < self.blocks(),
        ensures
            r == pow2(block as nat + self.block_size_log()),
            r == block_start(self.block_size_log(), block as nat + 1) - block_start(self.block_size_log(), block as nat),
    {
        proof {
            lemma_shl_one((block as u32 + self.block_size_log) as u64);
            lemma_pow2_unfold(block as nat + self.block_size_log() + 1);
        }
        1u64 << ((block as u32 + self.block_size_log) as u64)
    }

    pub fn get_instance_id(&self) -> (r: u16)
        ensures
            r == self.instance(),
    {
        self.instance_id
    }

    /// Checks that the id is of this instance, which the caller must show.
    pub fn check_instance_id(&self, instance_id: u16)
        requires
            instance_id == self.instance(),
    {
    }

    /// Checks that the key belongs to this instance, which the caller must show.
    pub fn check(&self, slot: SlotKey)
        requires
            slot.instance_of() == self.instance(),
    {
    }
}

} // verus!
