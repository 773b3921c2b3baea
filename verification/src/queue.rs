use vstd::prelude::*;
use core::marker::PhantomData;
use crate::atomic_slots::{AtomicSlots, SlotKey, RAW_INDEX_LIMIT};

verus! {

/// The `next` value of a slot that has no successor.
pub const NO_NEXT: u32 = 0xFFFF_FFFF;

/// A value that can be linked into a queue: it carries the raw index of the next slot of its queue.
pub trait QueueSlot: Default + Sized {
    /// The raw index of the next slot, or [`NO_NEXT`].
    spec fn next_index(&self) -> u32;

    /// This value with its `next` replaced.
    spec fn with_next_index(self, next: u32) -> Self;

    proof fn lemma_with_next_index(self, next: u32)
        ensures
            self.with_next_index(next).next_index() == next,
    ;

    /// Reads the `next` value.
    fn atomic(&self) -> (r: u32)
        ensures
            r == self.next_index(),
    ;

    /// Writes the `next` value.
    fn set_atomic(&mut self, next: u32)
        ensures
            *final(self) == old(self).with_next_index(next),
    ;
}

/// The slots of `keys` are allocated, pairwise distinct, and each but the last links to the one after it.
pub open spec fn linked<S: QueueSlot>(slots: &AtomicSlots<S>, keys: Seq<SlotKey>) -> bool {
    &&& forall|i: int| 0 <= i < keys.len() ==> slots.contains_key(#[trigger] keys[i])
    &&& forall|i: int, j: int| 0 <= i < j < keys.len() ==> keys[i] != keys[j]
    &&& forall|i: int|
        0 <= i < keys.len() - 1 ==> (#[trigger] slots.value(keys[i])).next_index() == slots.raw_index(keys[i + 1])
}

/// `keys` are linked and the last of them has no successor.
pub open spec fn terminated<S: QueueSlot>(slots: &AtomicSlots<S>, keys: Seq<SlotKey>) -> bool {
    &&& linked(slots, keys)
    &&& keys.len() > 0 ==> slots.value(keys.last()).next_index() == NO_NEXT
}

/// The slot at raw index `index` with its `next` replaced.
pub open spec fn set_next<S: QueueSlot>(values: Seq<S>, index: int, next: u32) -> Seq<S> {
    values.update(index, values[index].with_next_index(next))
}

/// Two slot maps agree on their layout.
pub open spec fn same_layout<S: QueueSlot>(a: &AtomicSlots<S>, b: &AtomicSlots<S>) -> bool {
    &&& a.wf() == b.wf()
    &&& a.block_size_log() == b.block_size_log()
    &&& a.instance() == b.instance()
}

/// Distinct canonical keys address distinct raw indices.
pub proof fn lemma_distinct_raw<S: QueueSlot>(slots: &AtomicSlots<S>, k1: SlotKey, k2: SlotKey)
    requires
        slots.is_canonical(k1),
        slots.is_canonical(k2),
        k1 != k2,
    ensures
        slots.raw_index(k1) != slots.raw_index(k2),
{
    if slots.raw_index(k1) == slots.raw_index(k2) {
        slots.lemma_key_unique(k1, k2);
    }
}

/// Linking is kept by a change of the slots that keeps the layout and the `next` of each linked slot.
pub proof fn lemma_linked_frame<S: QueueSlot>(a: &AtomicSlots<S>, b: &AtomicSlots<S>, keys: Seq<SlotKey>)
    requires
        linked(a, keys),
        a.block_size_log() == b.block_size_log(),
        a.instance() == b.instance(),
        a@.len() <= b@.len(),
        forall|i: int| 0 <= i < keys.len() ==> b.value(#[trigger] keys[i]).next_index() == a.value(keys[i]).next_index(),
    ensures
        linked(b, keys),
{
    assert forall|i: int| 0 <= i < keys.len() - 1 implies (#[trigger] b.value(keys[i])).next_index() == b.raw_index(
        keys[i + 1],
    ) by {
        assert(a.value(keys[i]).next_index() == a.raw_index(keys[i + 1]));
    }
}

/// A chain of slots, linked from `head` to `tail`.
pub struct SlotChain {
    head: SlotKey,
    tail: SlotKey,
    keys: Ghost<Seq<SlotKey>>,
}

impl SlotChain {
    /// The keys of the chain, from head to tail.
    pub closed spec fn keys(&self) -> Seq<SlotKey> {
        self.keys@
    }

    pub closed spec fn head_key(&self) -> SlotKey {
        self.head
    }

    pub closed spec fn tail_key(&self) -> SlotKey {
        self.tail
    }

    /// The chain is made of linked slots of `slots`.
    pub open spec fn wf<S: QueueSlot>(&self, slots: &AtomicSlots<S>) -> bool {
        &&& self.keys().len() > 0
        &&& self.head_key() == self.keys()[0]
        &&& self.tail_key() == self.keys().last()
        &&& linked(slots, self.keys())
    }

    fn new(head: SlotKey, tail: SlotKey, keys: Ghost<Seq<SlotKey>>) -> (r: Self)
        ensures
            r.head_key() == head,
            r.tail_key() == tail,
            r.keys() == keys@,
    {
        SlotChain { head, tail, keys }
    }

    /// A chain of a single slot.
    pub fn single(key: SlotKey) -> (r: Self)
        ensures
            r.head_key() == key,
            r.tail_key() == key,
            r.keys() == seq![key],
    {
        SlotChain { head: key, tail: key, keys: Ghost(Seq::empty().push(key)) }
    }

    /// The key of the first slot.
    pub fn head(&self) -> (r: SlotKey)
        ensures
            r == self.head_key(),
    {
        self.head
    }

    /// The key of the last slot.
    pub fn tail(&self) -> (r: SlotKey)
        ensures
            r == self.tail_key(),
    {
        self.tail
    }

    /// The one key of the chain, if it holds one slot.
    pub fn single_slot_key(&self) -> (r: Option<SlotKey>)
        ensures
            r == (if self.head_key() == self.tail_key() { Some(self.head_key()) } else { None::<SlotKey> }),
    {
        if self.head == self.tail {
            Some(self.head)
        } else {
            None
        }
    }

    /// A chain of slots holds a single slot exactly when its head is its tail.
    pub proof fn lemma_single_iff<S: QueueSlot>(&self, slots: &AtomicSlots<S>)
        requires
            self.wf(slots),
        ensures
            (self.head_key() == self.tail_key()) <==> self.keys().len() == 1,
    {
    }
}

/// The part that [`PopQueue`] and [`ChainQueue`] share: the tail end of a queue threaded through the slots.
pub struct BaseQueue<S> {
    tail: u32,
    instance_id: u16,
    _phantom: PhantomData<S>,
}

impl<S: QueueSlot> BaseQueue<S> {
    /// The raw index of the last slot, or [`NO_NEXT`] for a queue that was never pushed to.
    pub closed spec fn tail_index(&self) -> u32 {
        self.tail
    }

    pub closed spec fn instance(&self) -> u16 {
        self.instance_id
    }

    pub fn new(atomic_slots: &AtomicSlots<S>) -> (r: Self)
        ensures
            r.tail_index() == NO_NEXT,
            r.instance() == atomic_slots.instance(),
    {
        BaseQueue { tail: NO_NEXT, instance_id: atomic_slots.get_instance_id(), _phantom: PhantomData }
    }

    /// Checks that the slots are the instance of the queue, which the caller must show.
    pub fn check(&self, atomic_slots: &AtomicSlots<S>)
        requires
            self.instance() == atomic_slots.instance(),
    {
        atomic_slots.check_instance_id(self.instance_id);
    }

    /// Pushes a chain of slots onto the queue: the tail of the chain gets no successor, and the old tail, if there
    /// is one, links to the head of the chain. Returns the head of the chain and its raw index when the queue had
    /// no tail, so that the caller can make it the head of the queue.
    pub fn push_chain(&mut self, atomic_slots: &mut AtomicSlots<S>, chain: SlotChain) -> (r: Option<(SlotKey, u32)>)
        requires
            old(atomic_slots).wf(),
            old(self).instance() == old(atomic_slots).instance(),
            chain.wf(&*old(atomic_slots)),
            old(self).tail_index() != NO_NEXT ==> old(self).tail_index() < old(atomic_slots)@.len(),
        ensures
            same_layout(&*old(atomic_slots), &*final(atomic_slots)),
            final(atomic_slots).wf(),
            final(self).instance() == old(self).instance(),
            final(self).tail_index() == old(atomic_slots).raw_index(chain.tail_key()),
            ({
                let s1 = set_next(old(atomic_slots)@, old(atomic_slots).raw_index(chain.tail_key()), NO_NEXT);
                if old(self).tail_index() == NO_NEXT {
                    &&& r == Some((chain.head_key(), old(atomic_slots).raw_index(chain.head_key()) as u32))
                    &&& final(atomic_slots)@ == s1
                } else {
                    &&& r == None::<(SlotKey, u32)>
                    &&& final(atomic_slots)@ == set_next(
                        s1,
                        old(self).tail_index() as int,
                        old(atomic_slots).raw_index(chain.head_key()) as u32,
                    )
                }
            }),
    {
        self.check(atomic_slots);
        proof {
            atomic_slots.lemma_len_bound();
            assert(atomic_slots.contains_key(chain.keys()[0]));
            assert(atomic_slots.contains_key(chain.keys()[chain.keys().len() - 1]));
        }
        let head_index = atomic_slots.key_to_raw_index(chain.head);
        let tail_index = atomic_slots.key_to_raw_index(chain.tail);
        atomic_slots.index_mut(chain.tail).set_atomic(NO_NEXT);
        let prev_index = self.tail;
        self.tail = tail_index;
        if prev_index != NO_NEXT {
            let prev_key = atomic_slots.key_from_raw_index(prev_index);
            atomic_slots.index_mut(prev_key).set_atomic(head_index);
            None
        } else {
            Some((chain.head, head_index))
        }
    }
}

/// No key is in both sequences.
pub open spec fn disjoint(a: Seq<SlotKey>, b: Seq<SlotKey>) -> bool {
    forall|i: int, j: int| 0 <= i < a.len() && 0 <= j < b.len() ==> a[i] != b[j]
}

/// The slots after a chain `ckeys` was pushed onto a queue of `keys`.
pub open spec fn pushed<S: QueueSlot>(slots: &AtomicSlots<S>, keys: Seq<SlotKey>, ckeys: Seq<SlotKey>) -> Seq<S> {
    let s1 = set_next(slots@, slots.raw_index(ckeys.last()), NO_NEXT);
    if keys.len() == 0 {
        s1
    } else {
        set_next(s1, slots.raw_index(keys.last()), slots.raw_index(ckeys[0]) as u32)
    }
}

/// Pushing a linked chain onto a terminated queue gives a terminated queue of both.
proof fn lemma_pushed<S: QueueSlot>(
    old_slots: &AtomicSlots<S>,
    new_slots: &AtomicSlots<S>,
    keys: Seq<SlotKey>,
    ckeys: Seq<SlotKey>,
)
    requires
        old_slots.wf(),
        terminated(old_slots, keys),
        linked(old_slots, ckeys),
        ckeys.len() > 0,
        disjoint(keys, ckeys),
        same_layout(old_slots, new_slots),
        new_slots@ == pushed(old_slots, keys, ckeys),
    ensures
        terminated(new_slots, keys + ckeys),
{
    let all = keys + ckeys;
    let ct = ckeys.last();
    let ct_raw = old_slots.raw_index(ct);
    old_slots.lemma_len_bound();
    assert(old_slots.contains_key(ckeys[ckeys.len() - 1]));
    let s1 = set_next(old_slots@, ct_raw, NO_NEXT);
    old_slots@[ct_raw].lemma_with_next_index(NO_NEXT);
    assert forall|i: int| 0 <= i < all.len() implies new_slots.contains_key(#[trigger] all[i]) by {
        if i < keys.len() {
            assert(old_slots.contains_key(keys[i]));
        } else {
            assert(old_slots.contains_key(ckeys[i - keys.len()]));
        }
    }
    assert forall|i: int, j: int| 0 <= i < j < all.len() implies all[i] != all[j] by {
        if j < keys.len() {
        } else if i >= keys.len() {
            assert(ckeys[i - keys.len()] != ckeys[j - keys.len()]);
        } else {
            assert(keys[i] != ckeys[j - keys.len()]);
        }
    }
    // the value of every key but the two updated ones is unchanged
    assert forall|i: int|
        0 <= i < all.len() && all[i] != ct && (keys.len() == 0 || all[i] != keys.last()) implies #[trigger] new_slots.value(
        all[i],
    ) == old_slots.value(all[i]) by {
        lemma_distinct_raw(old_slots, all[i], ct);
        if keys.len() > 0 {
            assert(old_slots.contains_key(keys[keys.len() - 1]));
            lemma_distinct_raw(old_slots, all[i], keys.last());
        }
    }
    if keys.len() > 0 {
        let kt = keys.last();
        let kt_raw = old_slots.raw_index(kt);
        assert(old_slots.contains_key(keys[keys.len() - 1]));
        lemma_distinct_raw(old_slots, kt, ct);
        s1[kt_raw].lemma_with_next_index(old_slots.raw_index(ckeys[0]) as u32);
        assert(new_slots.value(kt).next_index() == old_slots.raw_index(ckeys[0]));
        assert(new_slots.value(ct).next_index() == NO_NEXT);
    }
    assert forall|i: int| 0 <= i < all.len() - 1 implies (#[trigger] new_slots.value(all[i])).next_index()
        == new_slots.raw_index(all[i + 1]) by {
        if i < keys.len() - 1 {
            assert(all[i] != ct) by {
                assert(keys[i] != ckeys[ckeys.len() - 1]);
            }
            assert(all[i] != keys.last());
            assert(old_slots.value(keys[i]).next_index() == old_slots.raw_index(keys[i + 1]));
        } else if i == keys.len() - 1 {
        } else {
            let ci = i - keys.len();
            assert(all[i] == ckeys[ci]);
            assert(ckeys[ci] != ckeys[ckeys.len() - 1]);
            if keys.len() > 0 {
                assert(keys[keys.len() - 1] != ckeys[ci]);
            }
            assert(old_slots.value(ckeys[ci]).next_index() == old_slots.raw_index(ckeys[ci + 1]));
        }
    }
    assert(all.last() == ct);
}

/// A queue of slots, threaded through the `next` values of the slots of one [`AtomicSlots`] instance.
///
/// A queue never hands out its last slot: [`Queue::pop`] gives `None` while fewer than two slots are queued.
pub trait Queue<S: QueueSlot>: Sized {
    /// The keys in the queue, from the front to the back.
    spec fn keys(&self) -> Seq<SlotKey>;

    /// The queue is well formed for these slots.
    spec fn inv(&self, slots: &AtomicSlots<S>) -> bool;

    proof fn lemma_inv(&self, slots: &AtomicSlots<S>)
        requires
            self.inv(slots),
        ensures
            slots.wf(),
            terminated(slots, self.keys()),
    ;

    /// The queue stays well formed when the slots grow or change anywhere but in the `next` of its slots.
    proof fn lemma_inv_frame(&self, a: &AtomicSlots<S>, b: &AtomicSlots<S>)
        requires
            self.inv(a),
            b.wf(),
            a.block_size_log() == b.block_size_log(),
            a.instance() == b.instance(),
            a@.len() <= b@.len(),
            forall|i: int|
                0 <= i < self.keys().len() ==> b.value(#[trigger] self.keys()[i]).next_index() == a.value(
                    self.keys()[i],
                ).next_index(),
        ensures
            self.inv(b),
    ;

    /// Pushes a slot to the back of the queue.
    fn push(&mut self, atomic_slots: &mut AtomicSlots<S>, slot_key: SlotKey)
        requires
            old(self).inv(&*old(atomic_slots)),
            old(atomic_slots).contains_key(slot_key),
            !old(self).keys().contains(slot_key),
        ensures
            final(self).inv(&*final(atomic_slots)),
            final(self).keys() == old(self).keys().push(slot_key),
            same_layout(&*old(atomic_slots), &*final(atomic_slots)),
            final(atomic_slots)@ == pushed(&*old(atomic_slots), old(self).keys(), seq![slot_key]),
    ;

    /// Pushes a chain of slots to the back of the queue.
    fn push_chain(&mut self, atomic_slots: &mut AtomicSlots<S>, chain: SlotChain)
        requires
            old(self).inv(&*old(atomic_slots)),
            chain.wf(&*old(atomic_slots)),
            disjoint(old(self).keys(), chain.keys()),
        ensures
            final(self).inv(&*final(atomic_slots)),
            final(self).keys() == old(self).keys() + chain.keys(),
            same_layout(&*old(atomic_slots), &*final(atomic_slots)),
            final(atomic_slots)@ == pushed(&*old(atomic_slots), old(self).keys(), chain.keys()),
    ;

    /// Pops the front slot, unless fewer than two slots are queued.
    fn pop(&mut self, atomic_slots: &AtomicSlots<S>) -> (r: Option<SlotKey>)
        requires
            old(self).inv(atomic_slots),
        ensures
            final(self).inv(atomic_slots),
            old(self).keys().len() >= 2 ==> r == Some(old(self).keys()[0]) && final(self).keys()
                == old(self).keys().drop_first(),
            old(self).keys().len() < 2 ==> r == None::<SlotKey> && final(self).keys() == old(self).keys(),
    ;

    /// Takes all slots out of the queue, as one chain, and gives their keys in queue order. The queue is left with
    /// no slot to pop; after taking slots out it still names the last of them as its tail, so it is no longer well
    /// formed and must not be pushed to again.
    fn dry_up(&mut self, atomic_slots: &AtomicSlots<S>) -> (r: (Option<SlotChain>, Vec<SlotKey>))
        requires
            old(self).inv(atomic_slots),
        ensures
            r.1@ == old(self).keys(),
            old(self).keys().len() == 0 ==> r.0 == None::<SlotChain>,
            old(self).keys().len() > 0 ==> (r.0 matches Some(c) && c.keys() == old(self).keys() && c.wf(atomic_slots)),
            final(self).keys() == Seq::<SlotKey>::empty(),
            final(self).inv(atomic_slots) <==> old(self).keys().len() == 0,
    ;

    /// The number of queued slots.
    fn debug_count(&self, atomic_slots: &AtomicSlots<S>) -> (r: u32)
        requires
            self.inv(atomic_slots),
        ensures
            r == self.keys().len(),
    ;
}

/// There are no more distinct allocated keys than allocated slots.
pub proof fn lemma_linked_len<S: QueueSlot>(slots: &AtomicSlots<S>, keys: Seq<SlotKey>)
    requires
        slots.wf(),
        linked(slots, keys),
    ensures
        keys.len() <= slots@.len(),
{
    let raws = keys.map(|i: int, k: SlotKey| slots.raw_index(k));
    assert(raws.no_duplicates()) by {
        assert forall|i: int, j: int| 0 <= i < raws.len() && 0 <= j < raws.len() && i != j implies raws[i]
            != raws[j] by {
            assert(slots.contains_key(keys[i]));
            assert(slots.contains_key(keys[j]));
            if i < j {
                lemma_distinct_raw(slots, keys[i], keys[j]);
            } else {
                lemma_distinct_raw(slots, keys[j], keys[i]);
            }
        }
    }
    raws.unique_seq_to_set();
    let range = vstd::set_lib::set_int_range(0, slots@.len() as int);
    assert(raws.to_set().subset_of(range)) by {
        assert forall|x: int| raws.to_set().contains(x) implies range.contains(x) by {
            let i = choose|i: int| 0 <= i < raws.len() && raws[i] == x;
            assert(slots.contains_key(keys[i]));
        }
    }
    vstd::set_lib::lemma_int_range(0, slots@.len() as int);
    vstd::set_lib::lemma_len_subset(raws.to_set(), range);
}

/// Walks a terminated queue from its front, giving its keys and the key of its last slot.
fn walk<S: QueueSlot>(atomic_slots: &AtomicSlots<S>, head: SlotKey, keys: Ghost<Seq<SlotKey>>) -> (r: (Vec<SlotKey>, SlotKey))
    requires
        atomic_slots.wf(),
        terminated(atomic_slots, keys@),
        keys@.len() > 0,
        head == keys@[0],
    ensures
        r.0@ == keys@,
        r.1 == keys@.last(),
{
    let mut visited: Vec<SlotKey> = Vec::new();
    let mut key = head;
    let ghost mut n: int = 0;
    proof {
        atomic_slots.lemma_len_bound();
    }
    loop
        invariant_except_break
            visited@ == keys@.take(n),
        invariant
            atomic_slots.wf(),
            terminated(atomic_slots, keys@),
            0 <= n < keys@.len(),
            key == keys@[n],
            atomic_slots@.len() <= RAW_INDEX_LIMIT,
        ensures
            visited@ == keys@,
            key == keys@.last(),
        decreases keys@.len() - n,
    {
        assert(atomic_slots.contains_key(keys@[n]));
        visited.push(key);
        let next_index = atomic_slots.index(key).atomic();
        if next_index == NO_NEXT {
            proof {
                if n < keys@.len() - 1 {
                    assert(atomic_slots.value(keys@[n]).next_index() == atomic_slots.raw_index(keys@[n + 1]));
                    assert(atomic_slots.contains_key(keys@[n + 1]));
                }
                assert(visited@ =~= keys@);
            }
            break;
        }
        proof {
            assert(keys@.take(n + 1) =~= keys@.take(n).push(keys@[n]));
            if n == keys@.len() - 1 {
                assert(false);
            }
            assert(atomic_slots.value(keys@[n]).next_index() == atomic_slots.raw_index(keys@[n + 1]));
            assert(atomic_slots.contains_key(keys@[n + 1]));
        }
        key = atomic_slots.key_from_raw_index(next_index);
        proof {
            atomic_slots.lemma_key_unique(key, keys@[n + 1]);
            n = n + 1;
        }
    }
    (visited, key)
}

/// A queue that any number of users may pop single slots from.
pub struct PopQueue<S> {
    base: BaseQueue<S>,
    head: u32,
    keys: Ghost<Seq<SlotKey>>,
}

impl<S: QueueSlot> PopQueue<S> {
    pub fn new(atomic_slots: &AtomicSlots<S>) -> (r: Self)
        requires
            atomic_slots.wf(),
        ensures
            r.inv(atomic_slots),
            r.keys() == Seq::<SlotKey>::empty(),
    {
        PopQueue { base: BaseQueue::new(atomic_slots), head: NO_NEXT, keys: Ghost(Seq::empty()) }
    }

    /// Checks that the slots are the instance of the queue, which the caller must show.
    pub fn check(&self, atomic_slots: &AtomicSlots<S>)
        requires
            self.inv(atomic_slots),
    {
        self.base.check(atomic_slots)
    }
}

impl<S: QueueSlot> Queue<S> for PopQueue<S> {
    closed spec fn keys(&self) -> Seq<SlotKey> {
        self.keys@
    }

    closed spec fn inv(&self, slots: &AtomicSlots<S>) -> bool {
        &&& slots.wf()
        &&& self.base.instance() == slots.instance()
        &&& terminated(slots, self.keys@)
        &&& self.keys@.len() == 0 ==> self.head == NO_NEXT && self.base.tail_index() == NO_NEXT
        &&& self.keys@.len() > 0 ==> self.head == slots.raw_index(self.keys@[0]) && self.base.tail_index()
            == slots.raw_index(self.keys@.last())
    }

    proof fn lemma_inv(&self, slots: &AtomicSlots<S>) {
    }

    proof fn lemma_inv_frame(&self, a: &AtomicSlots<S>, b: &AtomicSlots<S>) {
        lemma_linked_frame(a, b, self.keys());
        if self.keys().len() > 0 {
            assert(b.value(self.keys()[self.keys().len() - 1]).next_index() == a.value(
                self.keys()[self.keys().len() - 1],
            ).next_index());
        }
    }

    fn push(&mut self, atomic_slots: &mut AtomicSlots<S>, slot_key: SlotKey) {
        self.push_chain(atomic_slots, SlotChain::single(slot_key))
    }

    fn push_chain(&mut self, atomic_slots: &mut AtomicSlots<S>, chain: SlotChain) {
        let ghost old_slots = *atomic_slots;
        proof {
            atomic_slots.lemma_len_bound();
            if self.keys@.len() > 0 {
                assert(atomic_slots.contains_key(self.keys@[self.keys@.len() - 1]));
            }
            assert(atomic_slots.contains_key(chain.keys()[0]));
        }
        if let Some((_, head)) = self.base.push_chain(atomic_slots, chain) {
            self.head = head;
        }
        proof {
            lemma_pushed(&old_slots, atomic_slots, self.keys@, chain.keys());
            assert((self.keys@ + chain.keys())[0] == if self.keys@.len() > 0 { self.keys@[0] } else { chain.keys()[0] });
        }
        self.keys = Ghost(self.keys@ + chain.keys());
    }

    fn pop(&mut self, atomic_slots: &AtomicSlots<S>) -> (r: Option<SlotKey>) {
        self.check(atomic_slots);
        proof {
            atomic_slots.lemma_len_bound();
        }
        let slot_index = self.head;
        if slot_index == NO_NEXT {
            proof {
                if self.keys@.len() > 0 {
                    assert(atomic_slots.contains_key(self.keys@[0]));
                }
            }
            return None;
        }
        assert(atomic_slots.contains_key(self.keys@[0]));
        let slot_key = atomic_slots.key_from_raw_index(slot_index);
        proof {
            atomic_slots.lemma_key_unique(slot_key, self.keys@[0]);
        }
        let next_index = atomic_slots.index(slot_key).atomic();
        if next_index == NO_NEXT {
            proof {
                if self.keys@.len() >= 2 {
                    assert(atomic_slots.value(self.keys@[0]).next_index() == atomic_slots.raw_index(self.keys@[1]));
                    assert(atomic_slots.contains_key(self.keys@[1]));
                }
            }
            return None;
        }
        proof {
            assert(self.keys@.len() >= 2);
            assert(atomic_slots.value(self.keys@[0]).next_index() == atomic_slots.raw_index(self.keys@[1]));
            let rest = self.keys@.drop_first();
            assert forall|i: int| 0 <= i < rest.len() - 1 implies (#[trigger] atomic_slots.value(rest[i])).next_index()
                == atomic_slots.raw_index(rest[i + 1]) by {
                assert(atomic_slots.value(self.keys@[i + 1]).next_index() == atomic_slots.raw_index(self.keys@[i + 2]));
            }
            assert forall|i: int| 0 <= i < rest.len() implies atomic_slots.contains_key(#[trigger] rest[i]) by {
                assert(atomic_slots.contains_key(self.keys@[i + 1]));
            }
            assert forall|i: int, j: int| 0 <= i < j < rest.len() implies rest[i] != rest[j] by {
                assert(self.keys@[i + 1] != self.keys@[j + 1]);
            }
        }
        self.head = next_index;
        self.keys = Ghost(self.keys@.drop_first());
        Some(slot_key)
    }

    fn dry_up(&mut self, atomic_slots: &AtomicSlots<S>) -> (r: (Option<SlotChain>, Vec<SlotKey>)) {
        self.check(atomic_slots);
        let head = self.head;
        if head == NO_NEXT {
            proof {
                atomic_slots.lemma_len_bound();
                if self.keys@.len() > 0 {
                    assert(atomic_slots.contains_key(self.keys@[0]));
                }
            }
            return (None, Vec::new());
        }
        proof {
            atomic_slots.lemma_len_bound();
            assert(atomic_slots.contains_key(self.keys@[0]));
        }
        let head = atomic_slots.key_from_raw_index(head);
        proof {
            atomic_slots.lemma_key_unique(head, self.keys@[0]);
        }
        let keys = self.keys;
        let (visited, tail) = walk(atomic_slots, head, keys);
        let chain = SlotChain::new(head, tail, keys);
        self.head = NO_NEXT;
        self.keys = Ghost(Seq::empty());
        proof {
            assert(atomic_slots.contains_key(keys@.last()));
        }
        (Some(chain), visited)
    }

    fn debug_count(&self, atomic_slots: &AtomicSlots<S>) -> (r: u32) {
        self.check(atomic_slots);
        proof {
            atomic_slots.lemma_len_bound();
            lemma_linked_len(atomic_slots, self.keys@);
        }
        let mut count: u32 = 0;
        let mut slot_index = self.head;
        loop
            invariant
                atomic_slots.wf(),
                terminated(atomic_slots, self.keys@),
                self.keys@.len() <= RAW_INDEX_LIMIT,
                atomic_slots@.len() <= RAW_INDEX_LIMIT,
                count <= self.keys@.len(),
                count < self.keys@.len() ==> slot_index == atomic_slots.raw_index(self.keys@[count as int]),
                count == self.keys@.len() ==> slot_index == NO_NEXT,
            ensures
                count == self.keys@.len(),
            decreases self.keys@.len() - count,
        {
            if slot_index == NO_NEXT {
                proof {
                    if count < self.keys@.len() {
                        assert(atomic_slots.contains_key(self.keys@[count as int]));
                    }
                }
                break;
            }
            assert(atomic_slots.contains_key(self.keys@[count as int]));
            let slot_key = atomic_slots.key_from_raw_index(slot_index);
            proof {
                atomic_slots.lemma_key_unique(slot_key, self.keys@[count as int]);
                if (count as int) < self.keys@.len() - 1 {
                    assert(atomic_slots.value(self.keys@[count as int]).next_index() == atomic_slots.raw_index(
                        self.keys@[count + 1],
                    ));
                }
            }
            count = count + 1;
            slot_index = atomic_slots.index(slot_key).atomic();
        }
        count
    }
}

/// The number of slots a [`ChainQueue::pop_chain`] took out of the queue.
pub open spec fn popped_count(r: Option<SlotChain>) -> int {
    match r {
        Some(c) => c.keys().len() as int,
        None => 0,
    }
}

/// The result of popping a chain: the first `popped_count(r)` keys were accepted by `process_slot` and form the
/// chain, the next one, unless it is the last of the queue, was refused, and the queue keeps the rest.
pub open spec fn popped_chain<S: QueueSlot, F: Fn(SlotKey) -> bool>(
    slots: &AtomicSlots<S>,
    old_keys: Seq<SlotKey>,
    new_keys: Seq<SlotKey>,
    process_slot: F,
    r: Option<SlotChain>,
) -> bool {
    let n = popped_count(r);
    if old_keys.len() == 0 {
        r == None::<SlotChain> && new_keys == old_keys
    } else {
        &&& 0 <= n < old_keys.len()
        &&& new_keys == old_keys.skip(n)
        &&& forall|j: int| 0 <= j < n ==> process_slot.ensures((old_keys[j],), true)
        &&& n < old_keys.len() - 1 ==> process_slot.ensures((old_keys[n],), false)
        &&& r matches Some(c) ==> c.keys() == old_keys.take(n) && c.wf(slots)
    }
}

/// A queue that pops whole chains of slots at once.
pub struct ChainQueue<S> {
    base: BaseQueue<S>,
    head: Option<SlotKey>,
    keys: Ghost<Seq<SlotKey>>,
}

impl<S: QueueSlot> ChainQueue<S> {
    pub fn new(atomic_slots: &AtomicSlots<S>) -> (r: Self)
        requires
            atomic_slots.wf(),
        ensures
            r.inv(atomic_slots),
            r.keys() == Seq::<SlotKey>::empty(),
    {
        ChainQueue { base: BaseQueue::new(atomic_slots), head: None, keys: Ghost(Seq::empty()) }
    }

    /// Checks that the slots are the instance of the queue, which the caller must show.
    pub fn check(&self, atomic_slots: &AtomicSlots<S>)
        requires
            self.inv(atomic_slots),
    {
        self.base.check(atomic_slots)
    }

    fn pop_chain_inner<F: Fn(SlotKey) -> bool>(&mut self, atomic_slots: &AtomicSlots<S>, process_slot: F) -> (r:
        Option<SlotChain>)
        requires
            old(self).inv(atomic_slots),
            forall|i: int| 0 <= i < old(self).keys().len() ==> process_slot.requires((#[trigger] old(self).keys()[i],)),
        ensures
            final(self).inv(atomic_slots),
            popped_chain(atomic_slots, old(self).keys(), final(self).keys(), process_slot, r),
    {
        proof {
            atomic_slots.lemma_len_bound();
        }
        match self.head {
            None => None,
            Some(head) => {
                let ghost keys = self.keys@;
                let mut prev = head;
                let mut curr = head;
                let ghost mut n: int = 0;
                assert forall|i: int| 0 <= i < keys.len() implies process_slot.requires((#[trigger] keys[i],)) by {
                    assert(keys[i] == old(self).keys()[i]);
                }
                loop
                    invariant
                        atomic_slots.wf(),
                        atomic_slots@.len() <= RAW_INDEX_LIMIT,
                        terminated(atomic_slots, keys),
                        forall|i: int| 0 <= i < keys.len() ==> process_slot.requires((#[trigger] keys[i],)),
                        keys.len() > 0,
                        head == keys[0],
                        0 <= n < keys.len(),
                        curr == keys[n],
                        n > 0 ==> prev == keys[n - 1],
                        n == 0 ==> prev == head,
                        forall|j: int| 0 <= j < n ==> process_slot.ensures((keys[j],), true),
                    ensures
                        0 <= n < keys.len(),
                        curr == keys[n],
                        n > 0 ==> prev == keys[n - 1],
                        forall|j: int| 0 <= j < n ==> process_slot.ensures((keys[j],), true),
                        n < keys.len() - 1 ==> process_slot.ensures((keys[n],), false),
                    decreases keys.len() - n,
                {
                    assert(atomic_slots.contains_key(keys[n]));
                    let next_index = atomic_slots.index(curr).atomic();
                    if next_index == NO_NEXT {
                        proof {
                            if n < keys.len() - 1 {
                                assert(atomic_slots.value(keys[n]).next_index() == atomic_slots.raw_index(keys[n + 1]));
                                assert(atomic_slots.contains_key(keys[n + 1]));
                            }
                        }
                        break;
                    }
                    if !process_slot(curr) {
                        break;
                    }
                    proof {
                        if n == keys.len() - 1 {
                            assert(false);
                        }
                        assert(atomic_slots.value(keys[n]).next_index() == atomic_slots.raw_index(keys[n + 1]));
                        assert(atomic_slots.contains_key(keys[n + 1]));
                    }
                    prev = curr;
                    curr = atomic_slots.key_from_raw_index(next_index);
                    proof {
                        atomic_slots.lemma_key_unique(curr, keys[n + 1]);
                        n = n + 1;
                    }
                }
                if curr != head {
                    proof {
                        assert(n > 0);
                        let rest = keys.skip(n);
                        assert forall|i: int| 0 <= i < rest.len() - 1 implies (#[trigger] atomic_slots.value(
                            rest[i],
                        )).next_index() == atomic_slots.raw_index(rest[i + 1]) by {
                            assert(atomic_slots.value(keys[i + n]).next_index() == atomic_slots.raw_index(keys[i + n + 1]));
                        }
                        assert forall|i: int| 0 <= i < rest.len() implies atomic_slots.contains_key(#[trigger] rest[i]) by {
                            assert(atomic_slots.contains_key(keys[i + n]));
                        }
                        assert forall|i: int, j: int| 0 <= i < j < rest.len() implies rest[i] != rest[j] by {
                            assert(keys[i + n] != keys[j + n]);
                        }
                        let taken = keys.take(n);
                        assert forall|i: int| 0 <= i < taken.len() - 1 implies (#[trigger] atomic_slots.value(
                            taken[i],
                        )).next_index() == atomic_slots.raw_index(taken[i + 1]) by {
                            assert(atomic_slots.value(keys[i]).next_index() == atomic_slots.raw_index(keys[i + 1]));
                        }
                        assert forall|i: int| 0 <= i < taken.len() implies atomic_slots.contains_key(#[trigger] taken[i]) by {
                            assert(atomic_slots.contains_key(keys[i]));
                        }
                        assert(rest.last() == keys.last());
                    }
                    self.head = Some(curr);
                    self.keys = Ghost(keys.skip(n));
                    Some(SlotChain::new(head, prev, Ghost(keys.take(n))))
                } else {
                    proof {
                        if n > 0 {
                            assert(atomic_slots.contains_key(keys[n]));
                            assert(keys[0] != keys[n]);
                        }
                        assert(keys.skip(0) =~= keys);
                    }
                    None
                }
            },
        }
    }

    /// Pops a chain of slots, retaining the links between them, without waiting on other poppers; in this model,
    /// no one else can be popping, so it behaves as [`Self::pop_chain`].
    pub fn try_pop_chain<F: Fn(SlotKey) -> bool>(&mut self, atomic_slots: &AtomicSlots<S>, process_slot: F) -> (r:
        Option<SlotChain>)
        requires
            old(self).inv(atomic_slots),
            forall|i: int| 0 <= i < old(self).keys().len() ==> process_slot.requires((#[trigger] old(self).keys()[i],)),
        ensures
            final(self).inv(atomic_slots),
            popped_chain(atomic_slots, old(self).keys(), final(self).keys(), process_slot, r),
    {
        self.check(atomic_slots);
        self.pop_chain_inner(atomic_slots, process_slot)
    }

    /// Pops a chain of slots, retaining the links between them.
    ///
    /// `process_slot` is called with the slots from the front as long as it returns true, consuming each. If it
    /// returns false once, the chain of the slots for which it returned true is returned, and the slot it returned
    /// false for stays in the queue. It is never called with the last slot, which always stays in the queue.
    pub fn pop_chain<F: Fn(SlotKey) -> bool>(&mut self, atomic_slots: &AtomicSlots<S>, process_slot: F) -> (r:
        Option<SlotChain>)
        requires
            old(self).inv(atomic_slots),
            forall|i: int| 0 <= i < old(self).keys().len() ==> process_slot.requires((#[trigger] old(self).keys()[i],)),
        ensures
            final(self).inv(atomic_slots),
            popped_chain(atomic_slots, old(self).keys(), final(self).keys(), process_slot, r),
    {
        self.check(atomic_slots);
        self.pop_chain_inner(atomic_slots, process_slot)
    }
}

impl<S: QueueSlot> Queue<S> for ChainQueue<S> {
    closed spec fn keys(&self) -> Seq<SlotKey> {
        self.keys@
    }

    closed spec fn inv(&self, slots: &AtomicSlots<S>) -> bool {
        &&& slots.wf()
        &&& self.base.instance() == slots.instance()
        &&& terminated(slots, self.keys@)
        &&& self.keys@.len() == 0 ==> self.head == None::<SlotKey> && self.base.tail_index() == NO_NEXT
        &&& self.keys@.len() > 0 ==> self.head == Some(self.keys@[0]) && self.base.tail_index() == slots.raw_index(
            self.keys@.last(),
        )
    }

    proof fn lemma_inv(&self, slots: &AtomicSlots<S>) {
    }

    proof fn lemma_inv_frame(&self, a: &AtomicSlots<S>, b: &AtomicSlots<S>) {
        lemma_linked_frame(a, b, self.keys());
        if self.keys().len() > 0 {
            assert(b.value(self.keys()[self.keys().len() - 1]).next_index() == a.value(
                self.keys()[self.keys().len() - 1],
            ).next_index());
        }
    }

    fn push(&mut self, atomic_slots: &mut AtomicSlots<S>, slot_key: SlotKey) {
        self.push_chain(atomic_slots, SlotChain::single(slot_key))
    }

    fn push_chain(&mut self, atomic_slots: &mut AtomicSlots<S>, chain: SlotChain) {
        let ghost old_slots = *atomic_slots;
        proof {
            atomic_slots.lemma_len_bound();
            if self.keys@.len() > 0 {
                assert(atomic_slots.contains_key(self.keys@[self.keys@.len() - 1]));
            }
            assert(atomic_slots.contains_key(chain.keys()[0]));
        }
        if let Some((head, _)) = self.base.push_chain(atomic_slots, chain) {
            self.head = Some(head);
        }
        proof {
            lemma_pushed(&old_slots, atomic_slots, self.keys@, chain.keys());
            assert((self.keys@ + chain.keys())[0] == if self.keys@.len() > 0 { self.keys@[0] } else { chain.keys()[0] });
        }
        self.keys = Ghost(self.keys@ + chain.keys());
    }

    fn pop(&mut self, atomic_slots: &AtomicSlots<S>) -> (r: Option<SlotKey>) {
        self.check(atomic_slots);
        proof {
            atomic_slots.lemma_len_bound();
        }
        match self.head {
            None => None,
            Some(head) => {
                assert(atomic_slots.contains_key(self.keys@[0]));
                let next_index = atomic_slots.index(head).atomic();
                if next_index == NO_NEXT {
                    proof {
                        if self.keys@.len() >= 2 {
                            assert(atomic_slots.value(self.keys@[0]).next_index() == atomic_slots.raw_index(
                                self.keys@[1],
                            ));
                            assert(atomic_slots.contains_key(self.keys@[1]));
                        }
                    }
                    return None;
                }
                proof {
                    assert(self.keys@.len() >= 2);
                    assert(atomic_slots.value(self.keys@[0]).next_index() == atomic_slots.raw_index(self.keys@[1]));
                    assert(atomic_slots.contains_key(self.keys@[1]));
                    let rest = self.keys@.drop_first();
                    assert forall|i: int| 0 <= i < rest.len() - 1 implies (#[trigger] atomic_slots.value(
                        rest[i],
                    )).next_index() == atomic_slots.raw_index(rest[i + 1]) by {
                        assert(atomic_slots.value(self.keys@[i + 1]).next_index() == atomic_slots.raw_index(
                            self.keys@[i + 2],
                        ));
                    }
                    assert forall|i: int| 0 <= i < rest.len() implies atomic_slots.contains_key(#[trigger] rest[i]) by {
                        assert(atomic_slots.contains_key(self.keys@[i + 1]));
                    }
                    assert forall|i: int, j: int| 0 <= i < j < rest.len() implies rest[i] != rest[j] by {
                        assert(self.keys@[i + 1] != self.keys@[j + 1]);
                    }
                }
                let next = atomic_slots.key_from_raw_index(next_index);
                proof {
                    atomic_slots.lemma_key_unique(next, self.keys@[1]);
                }
                self.head = Some(next);
                self.keys = Ghost(self.keys@.drop_first());
                Some(head)
            },
        }
    }

    fn dry_up(&mut self, atomic_slots: &AtomicSlots<S>) -> (r: (Option<SlotChain>, Vec<SlotKey>)) {
        self.check(atomic_slots);
        match self.head {
            None => (None, Vec::new()),
            Some(head) => {
                let keys = self.keys;
                let (visited, tail) = walk(atomic_slots, head, keys);
                let chain = SlotChain::new(head, tail, keys);
                self.head = None;
                self.keys = Ghost(Seq::empty());
                proof {
                    atomic_slots.lemma_len_bound();
                    assert(atomic_slots.contains_key(keys@.last()));
                }
                (Some(chain), visited)
            },
        }
    }

    fn debug_count(&self, atomic_slots: &AtomicSlots<S>) -> (r: u32) {
        self.check(atomic_slots);
        proof {
            atomic_slots.lemma_len_bound();
            lemma_linked_len(atomic_slots, self.keys@);
        }
        match self.head {
            None => 0,
            Some(head) => {
                let mut key = head;
                let mut count: u32 = 1;
                loop
                    invariant
                        atomic_slots.wf(),
                        atomic_slots@.len() <= RAW_INDEX_LIMIT,
                        terminated(atomic_slots, self.keys@),
                        self.keys@.len() <= RAW_INDEX_LIMIT,
                        1 <= count <= self.keys@.len(),
                        key == self.keys@[count - 1],
                    ensures
                        count == self.keys@.len(),
                    decreases self.keys@.len() - count,
                {
                    assert(atomic_slots.contains_key(self.keys@[count - 1]));
                    let slot_index = atomic_slots.index(key).atomic();
                    if slot_index == NO_NEXT {
                        proof {
                            if (count as int) < self.keys@.len() {
                                assert(atomic_slots.value(self.keys@[count - 1]).next_index()
                                    == atomic_slots.raw_index(self.keys@[count as int]));
                                assert(atomic_slots.contains_key(self.keys@[count as int]));
                            }
                        }
                        break;
                    }
                    proof {
                        if count as int == self.keys@.len() {
                            assert(false);
                        }
                        assert(atomic_slots.value(self.keys@[count - 1]).next_index() == atomic_slots.raw_index(
                            self.keys@[count as int],
                        ));
                        assert(atomic_slots.contains_key(self.keys@[count as int]));
                    }
                    count = count + 1;
                    key = atomic_slots.key_from_raw_index(slot_index);
                    proof {
                        atomic_slots.lemma_key_unique(key, self.keys@[count - 1]);
                    }
                }
                count
            },
        }
    }
}

} // verus!
