use std::sync::Arc;
use vulkano_bindless::atomic_slots::InstanceIds;
use vulkano_bindless::rc_slots::{AtomicRCSlots, AtomicRCSlotsLock, RCSlot};

fn new_slots<T>() -> AtomicRCSlots<T> {
    let mut ids = InstanceIds::new();
    AtomicRCSlots::new(32, &mut ids)
}

/// Holds a lock, and replaces it by a newer one on `advance`.
struct LockUnlock<T> {
    lock: Option<AtomicRCSlotsLock<T>>,
}

impl<T> LockUnlock<T> {
    fn new(slots: &mut AtomicRCSlots<T>) -> Self {
        Self { lock: Some(slots.lock()) }
    }

    fn advance(&mut self, slots: &mut AtomicRCSlots<T>) {
        let new = slots.lock();
        self.lock.replace(new).unwrap().unlock(slots);
    }
}

fn raw<T>(slots: &AtomicRCSlots<T>, slot: &RCSlot<T>) -> u32 {
    slots.key_to_raw_index(slot.slot_key())
}

fn drop_all<T>(slots: &mut AtomicRCSlots<T>, vec: Vec<RCSlot<T>>) {
    for slot in vec {
        slot.drop(slots);
    }
}

#[test]
fn test_ref_counting() {
    let mut slots = new_slots();
    let slot = slots.allocate(42);
    assert_eq!(slot.deref_copy(&slots), 42);
    assert_eq!(slot.ref_count(&slots), 1);

    {
        let slotc = slot.clone(&mut slots);
        assert_eq!(slotc.deref_copy(&slots), 42);
        assert_eq!(slot.deref_copy(&slots), 42);
        assert_eq!(slotc.ref_count(&slots), 2);
        assert_eq!(slot.ref_count(&slots), 2);
        slotc.drop(&mut slots);
    }

    assert_eq!(slot.deref_copy(&slots), 42);
    assert_eq!(slot.ref_count(&slots), 1);
}

#[test]
fn test_alloc_unique() {
    let mut slots = new_slots();

    let count: u32 = 5;
    let vec = (0..count).map(|i| slots.allocate(i)).collect::<Vec<_>>();
    for (i, slot) in vec.iter().enumerate() {
        assert_eq!(slot.deref_copy(&slots), i as u32);
        assert_eq!(raw(&slots, slot), i as u32);

        assert_eq!(slot.ref_count(&slots), 1);
        {
            let slot = slot.clone(&mut slots);
            assert_eq!(slot.ref_count(&slots), 2);
            slot.drop(&mut slots);
        }
        assert_eq!(slot.ref_count(&slots), 1);
    }
}

#[test]
fn test_queues() {
    let mut slots = new_slots();
    let mut lock_unlock = LockUnlock::new(&mut slots);

    let arc1 = Arc::new(42);
    let slot1 = slots.allocate(arc1.clone());
    assert_eq!(raw(&slots, &slot1), 0);
    let arc2 = Arc::new(69);
    let slot2 = slots.allocate(arc2.clone());
    assert_eq!(raw(&slots, &slot2), 1);

    assert_eq!(slots.reaper_count(), 0);
    assert_eq!(slots.dead_count(), 0);
    assert_eq!(Arc::strong_count(&arc1), 2); // alive
    assert_eq!(Arc::strong_count(&arc2), 2); // alive

    slot1.drop(&mut slots);
    assert_eq!(slots.reaper_count(), 1);
    assert_eq!(slots.dead_count(), 0);
    assert_eq!(Arc::strong_count(&arc1), 2); // alive
    assert_eq!(Arc::strong_count(&arc2), 2); // alive

    // reaper_queue retains 1 slot
    lock_unlock.advance(&mut slots);
    assert_eq!(slots.reaper_count(), 1);
    assert_eq!(slots.dead_count(), 0);
    assert_eq!(Arc::strong_count(&arc1), 2); // reaper
    assert_eq!(Arc::strong_count(&arc2), 2); // alive

    slot2.drop(&mut slots);
    assert_eq!(slots.reaper_count(), 2);
    assert_eq!(slots.dead_count(), 0);
    assert_eq!(Arc::strong_count(&arc1), 2); // reaper
    assert_eq!(Arc::strong_count(&arc2), 2); // reaper

    // reaper_queue retains 1 slot
    lock_unlock.advance(&mut slots);
    assert_eq!(slots.reaper_count(), 1);
    assert_eq!(slots.dead_count(), 1);
    assert_eq!(Arc::strong_count(&arc1), 1); // dead
    assert_eq!(Arc::strong_count(&arc2), 2); // reaper

    drop(arc1);

    // new slot will allocate a new slot, not reuse, as dead_queue retains 1 slot
    let arc3 = Arc::new(3);
    let slot3 = slots.allocate(arc3.clone());
    assert_eq!(raw(&slots, &slot3), 2);

    assert_eq!(slots.reaper_count(), 1);
    assert_eq!(slots.dead_count(), 1);
    assert_eq!(Arc::strong_count(&arc2), 2); // reaper
    assert_eq!(Arc::strong_count(&arc3), 2); // alive

    slot3.drop(&mut slots);
    assert_eq!(slots.reaper_count(), 2);
    assert_eq!(slots.dead_count(), 1);
    assert_eq!(Arc::strong_count(&arc2), 2); // reaper
    assert_eq!(Arc::strong_count(&arc3), 2); // reaper

    // reaper_queue retains 1 slot
    lock_unlock.advance(&mut slots);
    assert_eq!(slots.reaper_count(), 1);
    assert_eq!(slots.dead_count(), 2);
    assert_eq!(Arc::strong_count(&arc2), 1); // dead
    assert_eq!(Arc::strong_count(&arc3), 2); // reaper

    drop(arc2);

    // new slot will reuse slot 1
    let arc4 = Arc::new(4);
    let slot4 = slots.allocate(arc4.clone());
    assert_eq!(raw(&slots, &slot4), 0);

    assert_eq!(slots.reaper_count(), 1);
    assert_eq!(slots.dead_count(), 1);
    assert_eq!(Arc::strong_count(&arc3), 2); // reaper
    assert_eq!(Arc::strong_count(&arc4), 2); // alive

    // new slot will allocate a new slot, not reuse, as dead_queue retains 1 slot
    let arc5 = Arc::new(5);
    let slot5 = slots.allocate(arc5.clone());
    assert_eq!(raw(&slots, &slot5), 3);

    assert_eq!(slots.reaper_count(), 1);
    assert_eq!(slots.dead_count(), 1);
    assert_eq!(Arc::strong_count(&arc3), 2); // reaper
    assert_eq!(Arc::strong_count(&arc4), 2); // alive
    assert_eq!(Arc::strong_count(&arc5), 2); // alive
}

#[test]
fn test_queues_many_entries() {
    let mut slots = new_slots();
    let mut lock_unlock = LockUnlock::new(&mut slots);

    for i in 0..5 {
        let slot = slots.allocate(());
        assert_eq!(raw(&slots, &slot), i);
        slot.drop(&mut slots);
    }
    assert_eq!(slots.reaper_count(), 5);
    assert_eq!(slots.dead_count(), 0);

    lock_unlock.advance(&mut slots);
    assert_eq!(slots.reaper_count(), 1);
    assert_eq!(slots.dead_count(), 4);

    // 3 reused
    for i in 0..3 {
        let slot = slots.allocate(());
        assert_eq!(raw(&slots, &slot), i);
        assert_eq!(slots.reaper_count(), 1 + i);
        assert_eq!(slots.dead_count(), 3 - i);
        slot.drop(&mut slots);
    }

    // 2 newly allocated
    for i in 0..2 {
        let slot = slots.allocate(());
        assert_eq!(raw(&slots, &slot), i + 5);
        assert_eq!(slots.reaper_count(), 4 + i);
        assert_eq!(slots.dead_count(), 1);
        slot.drop(&mut slots);
    }

    lock_unlock.advance(&mut slots);
    assert_eq!(slots.reaper_count(), 1);
    assert_eq!(slots.dead_count(), 6);
}

#[test]
fn test_queues_while_unlocked() {
    let mut slots = new_slots();

    let slot = slots.allocate(0);
    slot.drop(&mut slots);
    assert_eq!(slots.reaper_count(), 0);
    assert_eq!(slots.dead_count(), 1);

    let slot = slots.allocate(1);
    assert_eq!(slots.reaper_count(), 0);
    assert_eq!(slots.dead_count(), 1);

    slot.drop(&mut slots);
    assert_eq!(slots.reaper_count(), 0);
    assert_eq!(slots.dead_count(), 2);

    let slot = slots.allocate(2);
    assert_eq!(slots.reaper_count(), 0);
    assert_eq!(slots.dead_count(), 1);

    slot.drop(&mut slots);
    assert_eq!(slots.reaper_count(), 0);
    assert_eq!(slots.dead_count(), 2);
}

fn alloc_values(slots: &mut AtomicRCSlots<u32>, count: u32) -> Vec<RCSlot<u32>> {
    (0..count).map(|i| slots.allocate(i)).collect::<Vec<_>>()
}

#[test]
fn test_queues_mix_locked_and_unlocked() {
    let mut slots = new_slots();

    // unlocked behaviour
    // 5 new
    let vec = alloc_values(&mut slots, 5);
    assert_eq!(slots.reaper_count(), 0);
    assert_eq!(slots.dead_count(), 0);

    drop_all(&mut slots, vec);
    assert_eq!(slots.reaper_count(), 0);
    assert_eq!(slots.dead_count(), 5);

    // locked behaviour
    let lock = slots.lock();
    // 1 new, 4 reused
    let vec = alloc_values(&mut slots, 5);
    assert_eq!(slots.reaper_count(), 0);
    assert_eq!(slots.dead_count(), 1);

    drop_all(&mut slots, vec);
    assert_eq!(slots.reaper_count(), 5);
    assert_eq!(slots.dead_count(), 1);

    lock.unlock(&mut slots);
    assert_eq!(slots.reaper_count(), 1);
    assert_eq!(slots.dead_count(), 5);

    // unlocked behaviour
    // 1 new, 4 reused
    let vec = alloc_values(&mut slots, 5);
    assert_eq!(slots.reaper_count(), 1);
    assert_eq!(slots.dead_count(), 1);

    drop_all(&mut slots, vec);
    assert_eq!(slots.reaper_count(), 1);
    assert_eq!(slots.dead_count(), 6);
}

#[test]
fn test_queues_drop_before_and_after_lock() {
    let mut slots = new_slots();

    let before_lock_a = alloc_values(&mut slots, 2);
    let before_lock_b = alloc_values(&mut slots, 3);
    let lock = slots.lock();
    let after_lock_a = alloc_values(&mut slots, 4);
    let after_lock_b = alloc_values(&mut slots, 5);
    assert_eq!(slots.reaper_count(), 0);
    assert_eq!(slots.dead_count(), 0);

    drop_all(&mut slots, before_lock_a);
    drop_all(&mut slots, after_lock_a);
    assert_eq!(slots.reaper_count(), 6);
    assert_eq!(slots.dead_count(), 0);

    lock.unlock(&mut slots);
    assert_eq!(slots.reaper_count(), 1);
    assert_eq!(slots.dead_count(), 5);

    drop_all(&mut slots, before_lock_b);
    drop_all(&mut slots, after_lock_b);
    assert_eq!(slots.reaper_count(), 1);
    assert_eq!(slots.dead_count(), 13);
}

#[test]
fn test_reaper_queue_leak() {
    let mut slots = new_slots();

    let arc = Arc::new(42);
    let slot = slots.allocate(arc.clone());
    assert_eq!(Arc::strong_count(&arc), 2);

    // get slot in the reaper queue, where it remains unfreed
    let lock = slots.lock();
    slot.drop(&mut slots);
    lock.unlock(&mut slots);
    assert_eq!(Arc::strong_count(&arc), 2);

    // must free slot in reaper queue
    drop(slots);
    assert_eq!(Arc::strong_count(&arc), 1, "reaper queue is leaking!");
}

#[test]
fn test_lock_timestamp_ordering() {
    let mut slots = new_slots();

    let arc = Arc::new(42);
    let slot = slots.allocate(arc.clone());
    let slot_flush = slots.allocate(Arc::new(42));
    assert_eq!(Arc::strong_count(&arc), 2);

    let lock1 = slots.lock();
    let lock2 = slots.lock();
    assert_eq!(Arc::strong_count(&arc), 2);

    slot.drop(&mut slots);
    slot_flush.drop(&mut slots);
    assert_eq!(Arc::strong_count(&arc), 2);

    lock1.unlock(&mut slots);
    assert_eq!(Arc::strong_count(&arc), 2);

    lock2.unlock(&mut slots);
    assert_eq!(Arc::strong_count(&arc), 1);
}

fn iter_collect<T: Clone>(lock: &AtomicRCSlotsLock<T>, slots: &AtomicRCSlots<T>) -> Vec<Option<T>> {
    lock.iter_with(slots, |t| t.cloned())
}

/// Takes a lock, collects through it and releases it again.
fn iter_collect_now<T: Clone>(slots: &mut AtomicRCSlots<T>) -> Vec<Option<T>> {
    let lock = slots.lock();
    let r = iter_collect(&lock, slots);
    lock.unlock(slots);
    r
}

#[test]
fn test_iter_smoke() {
    let mut slots = new_slots();
    assert_eq!(iter_collect_now(&mut slots), []);

    let slot1 = slots.allocate(42);
    assert_eq!(iter_collect_now(&mut slots), [Some(42)]);

    let slot2 = slots.allocate(69);
    assert_eq!(iter_collect_now(&mut slots), [Some(42), Some(69)]);

    slot2.drop(&mut slots);
    assert_eq!(iter_collect_now(&mut slots), [Some(42), None]);

    slot1.drop(&mut slots);
    assert_eq!(iter_collect_now(&mut slots), [None, None]);
}

#[test]
fn test_iter_locked() {
    let mut slots = new_slots();
    assert_eq!(iter_collect_now(&mut slots), []);

    let slot1 = slots.allocate(1);
    let slot2 = slots.allocate(2);
    let slot3 = slots.allocate(3);
    assert_eq!(iter_collect_now(&mut slots), [Some(1), Some(2), Some(3)]);

    // 1 lock
    let lock1 = slots.lock();
    assert_eq!(iter_collect(&lock1, &slots), [Some(1), Some(2), Some(3)]);
    slot1.drop(&mut slots);
    assert_eq!(iter_collect(&lock1, &slots), [Some(1), Some(2), Some(3)]);
    lock1.unlock(&mut slots);
    assert_eq!(iter_collect_now(&mut slots), [None, Some(2), Some(3)]);

    // 2 locks in parallel
    let lock2 = slots.lock();
    assert_eq!(iter_collect(&lock2, &slots), [None, Some(2), Some(3)]);
    slot2.drop(&mut slots);
    assert_eq!(iter_collect(&lock2, &slots), [None, Some(2), Some(3)]);

    let lock3 = slots.lock();
    assert_eq!(iter_collect(&lock2, &slots), [None, Some(2), Some(3)]);
    assert_eq!(iter_collect(&lock3, &slots), [None, None, Some(3)]);
    slot3.drop(&mut slots);
    assert_eq!(iter_collect(&lock2, &slots), [None, Some(2), Some(3)]);
    assert_eq!(iter_collect(&lock3, &slots), [None, None, Some(3)]);

    lock2.unlock(&mut slots);
    assert_eq!(iter_collect(&lock3, &slots), [None, None, Some(3)]);

    lock3.unlock(&mut slots);
    assert_eq!(iter_collect_now(&mut slots), [None, None, None]);
}

#[test]
fn with_reads_the_value_and_ref_inc_dec_count() {
    let mut slots = new_slots();
    let slot = slots.allocate(10u32);
    assert_eq!(slot.with(&slots, |v| *v * 2), 20);
    slot.ref_inc(&mut slots);
    assert_eq!(slot.ref_count(&slots), 2);
    slot.ref_dec(&mut slots);
    assert_eq!(slot.ref_count(&slots), 1);
}
