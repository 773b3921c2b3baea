use std::cell::RefCell;
use std::sync::Arc;
use vstd::seq::Seq;
use vstd::set::Set;
use vulkano_bindless::ab::AB::{self, A, B};
use vulkano_bindless::descriptor_counts::{SlotAllocationError, TableRegisterError};
use vulkano_bindless::range_set::DescriptorIndexRangeSet;
use vulkano_bindless::table::{FrameGuard, RcTableSlot, TableInterface, TableManager};
use vulkano_bindless::table_id::TABLE_COUNT;

struct DummyInterface;

impl TableInterface for DummyInterface {
    type Slot = Arc<u32>;

    fn dropped(&self) -> Seq<Set<u32>> {
        unreachable!("the log of dropped indices is only read in proofs")
    }

    fn drop_slots(&mut self, _indices: &DescriptorIndexRangeSet) {}

    fn flush(&mut self) {}
}

struct SimpleInterface {
    drops: RefCell<Vec<Vec<u32>>>,
}

impl SimpleInterface {
    fn new() -> Self {
        Self { drops: RefCell::new(Vec::new()) }
    }

    fn take(&self) -> Vec<Vec<u32>> {
        std::mem::take(&mut *self.drops.borrow_mut())
    }
}

impl TableInterface for SimpleInterface {
    type Slot = Arc<u32>;

    fn dropped(&self) -> Seq<Set<u32>> {
        unreachable!("the log of dropped indices is only read in proofs")
    }

    fn drop_slots(&mut self, indices: &DescriptorIndexRangeSet) {
        self.drops.borrow_mut().push(indices.iter());
    }

    fn flush(&mut self) {}
}

fn take(tm: &TableManager<SimpleInterface>) -> Vec<Vec<u32>> {
    tm.table(0).interface().take()
}

fn simple_tm() -> TableManager<SimpleInterface> {
    let mut tm = TableManager::new();
    tm.register(128, SimpleInterface::new()).unwrap();
    tm
}

fn drop_frame<I: TableInterface>(tm: &mut TableManager<I>) {
    let f = tm.frame();
    f.drop(tm);
}

fn drop_slots<I: TableInterface>(tm: &mut TableManager<I>, slots: Vec<RcTableSlot>) {
    for slot in slots {
        slot.drop(tm);
    }
}

#[test]
fn test_table_register() {
    let mut tm = TableManager::new();
    tm.register(128, DummyInterface).unwrap();
}

#[test]
fn test_alloc_slot() {
    const N: u32 = 128;

    let mut tm = TableManager::new();
    let table = tm.register(N, DummyInterface).unwrap().to_u32();

    let _slots = (0..N)
        .map(|i| {
            let slot = tm.alloc_slot(table, Arc::new(42 + i)).unwrap();
            assert_eq!(slot.index(), i);
            assert_eq!(slot.table_id(), 0);
            assert_eq!(slot.version(), 0);
            assert_eq!(**slot.deref(&tm), 42 + i);
            slot
        })
        .collect::<Vec<_>>();

    tm.alloc_slot(table, Arc::new(69)).expect_err("we should be out of slots");
    tm.alloc_slot(table, Arc::new(70))
        .expect_err("asking again but still out of slots");
}

#[test]
fn test_slot_reuse() {
    let mut tm = TableManager::new();
    let table = tm.register(128, DummyInterface).unwrap().to_u32();

    let alloc = |tm: &mut TableManager<DummyInterface>, cnt: u32, exp_offset: u32, exp_version: u32| {
        (0..cnt)
            .map(|i| {
                let slot = tm.alloc_slot(table, Arc::new(42 + i)).unwrap();
                assert_eq!(**slot.deref(tm), 42 + i);
                assert_eq!(slot.index(), i + exp_offset);
                assert_eq!(slot.version(), exp_version);
                slot
            })
            .collect::<Vec<_>>()
    };
    let flush = |tm: &mut TableManager<DummyInterface>| {
        for _ in 0..3 {
            drop_frame(tm);
        }
    };

    let alloc1 = alloc(&mut tm, 5, 0, 0);
    let alloc2 = alloc(&mut tm, 8, 5, 0);
    drop_slots(&mut tm, alloc1);
    flush(&mut tm);

    let alloc1 = alloc(&mut tm, 5, 0, 1);
    let alloc3 = alloc(&mut tm, 3, 5 + 8, 0);
    drop_slots(&mut tm, alloc2);
    flush(&mut tm);

    let alloc2 = alloc(&mut tm, 8, 5, 1);
    let alloc4 = alloc(&mut tm, 1, 5 + 8 + 3, 0);
    drop_slots(&mut tm, alloc1);
    drop_slots(&mut tm, alloc2);
    drop_slots(&mut tm, alloc3);
    flush(&mut tm);

    let alloc1 = alloc(&mut tm, 5, 0, 2);
    let alloc2 = alloc(&mut tm, 8, 5, 2);
    let alloc3 = alloc(&mut tm, 3, 5 + 8, 1);
    let alloc5 = alloc(&mut tm, 2, 5 + 8 + 3 + 1, 0);
    drop_slots(&mut tm, alloc1);
    drop_slots(&mut tm, alloc2);
    drop_slots(&mut tm, alloc3);
    drop_slots(&mut tm, alloc4);
    drop_slots(&mut tm, alloc5);
}

#[test]
fn test_frames_sequential() {
    let mut tm = TableManager::new();
    tm.register(128, DummyInterface).unwrap();

    let frame = |tm: &mut TableManager<DummyInterface>, exp: AB| {
        let f = tm.frame();
        assert_eq!(f.ab(), exp);
        f.drop(tm);
    };

    for _ in 0..5 {
        frame(&mut tm, A);
    }
}

#[test]
fn test_frames_dry_out() {
    let mut tm = TableManager::new();
    tm.register(128, DummyInterface).unwrap();

    for i in 0..5 {
        println!("iter {}", i);
        let flip = |ab: AB| if i % 2 == 0 { ab } else { !ab };

        assert_eq!(tm.frame_ab(), flip(A));
        let a1 = tm.frame();
        assert_eq!(a1.ab(), flip(A));

        assert_eq!(tm.frame_ab(), flip(B));
        let b1 = tm.frame();
        assert_eq!(b1.ab(), flip(B));

        assert_eq!(tm.frame_ab(), flip(B));
        a1.drop(&mut tm);
        assert_eq!(tm.frame_ab(), flip(A));
        b1.drop(&mut tm);
        assert_eq!(tm.frame_ab(), flip(B));
    }
}

#[test]
fn test_frames_interleaved() {
    let mut tm = TableManager::new();
    tm.register(128, DummyInterface).unwrap();

    let a1 = tm.frame();
    assert_eq!(a1.ab(), A);

    let b1 = tm.frame();
    assert_eq!(b1.ab(), B);
    let b2 = tm.frame();
    assert_eq!(b2.ab(), B);

    a1.drop(&mut tm);
    let a2 = tm.frame();
    assert_eq!(a2.ab(), A);
    let a3 = tm.frame();
    assert_eq!(a3.ab(), A);

    b1.drop(&mut tm);
    b2.drop(&mut tm);
    let b3 = tm.frame();
    assert_eq!(b3.ab(), B);

    // no switch!
    b3.drop(&mut tm);
    let b4 = tm.frame();
    assert_eq!(b4.ab(), B);
    a2.drop(&mut tm);
    a3.drop(&mut tm);
    b4.drop(&mut tm);
}

/// Keeps one frame of each half in flight, and replaces the older one on `switch`.
struct FrameSwitch {
    frame: [Option<FrameGuard>; 2],
    ab: AB,
}

fn ab_index(ab: AB) -> usize {
    match ab {
        A => 0,
        B => 1,
    }
}

impl FrameSwitch {
    fn new<I: TableInterface>(tm: &mut TableManager<I>) -> Self {
        let mut switch = Self { frame: [None, None], ab: A };
        for _ in 0..3 {
            switch.switch(tm);
        }
        switch
    }

    fn switch<I: TableInterface>(&mut self, tm: &mut TableManager<I>) {
        let slot = &mut self.frame[ab_index(self.ab)];
        if let Some(old) = slot.take() {
            old.drop(tm);
        }
        let frame = tm.frame();
        assert_eq!(frame.ab(), self.ab);
        *slot = Some(frame);
        self.ab = !self.ab;
    }
}

#[test]
fn test_gc() {
    let mut tm = simple_tm();
    let mut switch = FrameSwitch::new(&mut tm);
    take(&tm);

    let slot1 = tm.alloc_slot(0, Arc::new(42)).unwrap();
    let slot2 = tm.alloc_slot(0, Arc::new(69)).unwrap();
    slot1.drop(&mut tm);
    assert_eq!(take(&tm), Vec::<Vec<u32>>::new());

    switch.switch(&mut tm);
    assert_eq!(take(&tm), &[&[]]);

    slot2.drop(&mut tm);
    switch.switch(&mut tm);
    assert_eq!(take(&tm), &[&[0]]);

    switch.switch(&mut tm);
    assert_eq!(take(&tm), &[&[1]]);

    switch.switch(&mut tm);
    assert_eq!(take(&tm), &[&[]]);
    switch.switch(&mut tm);
    assert_eq!(take(&tm), &[&[]]);
}

#[test]
fn test_gc_long() {
    let mut tm = simple_tm();

    let a1 = tm.frame();
    assert_eq!(a1.ab(), A);
    let long_frame_b = tm.frame();
    assert_eq!(long_frame_b.ab(), B);
    a1.drop(&mut tm);

    let slot = tm.alloc_slot(0, Arc::new(42)).unwrap();
    slot.drop(&mut tm);
    assert_eq!(take(&tm), &[&[], &[]]);

    // doesn't matter how many frames, it never gets dropped until long_frame_b is done
    for _ in 0..5 {
        let a = tm.frame();
        assert_eq!(a.ab(), A);
        a.drop(&mut tm);
        // no cleanup happened
        assert_eq!(take(&tm), &[&[]; 0]);
    }

    // gc of nothing
    long_frame_b.drop(&mut tm);
    assert_eq!(take(&tm), &[&[]]);

    // 2nd gc should drop 0
    drop_frame(&mut tm);
    assert_eq!(take(&tm), &[&[0][..], &[]]);
}

#[test]
fn test_gc_dry_out() {
    let mut tm = simple_tm();

    let a1 = tm.frame();
    let slot = tm.alloc_slot(0, Arc::new(42)).unwrap();
    slot.drop(&mut tm);
    a1.drop(&mut tm);
    assert_eq!(take(&tm), &[&[], &[]]);

    drop_frame(&mut tm);
    assert_eq!(take(&tm), &[&[0][..], &[]]);
}

#[test]
fn register_runs_out_of_table_ids() {
    let mut tm = TableManager::new();
    for i in 0..TABLE_COUNT {
        assert_eq!(tm.register(4, DummyInterface).unwrap().to_u32(), i);
    }
    assert_eq!(tm.register(4, DummyInterface).unwrap_err(), TableRegisterError::OutOfTables);
}

#[test]
fn alloc_slot_error_names_capacity() {
    let mut tm = TableManager::new();
    let table = tm.register(1, DummyInterface).unwrap().to_u32();
    let _slot = tm.alloc_slot(table, Arc::new(1)).unwrap();
    assert_eq!(tm.alloc_slot(table, Arc::new(2)).unwrap_err(), SlotAllocationError::NoMoreCapacity(1));
}

#[test]
fn clone_counts_references_and_keeps_the_slot_alive() {
    let mut tm = simple_tm();
    let value = Arc::new(5);
    let slot = tm.alloc_slot(0, value.clone()).unwrap();
    let copy = slot.clone(&mut tm);
    assert_eq!(copy.index(), slot.index());
    slot.drop(&mut tm);
    // one reference is left: nothing is collected
    for _ in 0..3 {
        drop_frame(&mut tm);
    }
    assert_eq!(Arc::strong_count(&value), 2);
    assert_eq!(**copy.deref(&tm), 5);
    copy.drop(&mut tm);
    for _ in 0..3 {
        drop_frame(&mut tm);
    }
    assert_eq!(Arc::strong_count(&value), 1);
    assert_eq!(tm.table(0).slots_capacity(), 128);
}

#[test]
fn gc_collect_and_drop_in_increasing_order() {
    let mut tm = simple_tm();
    let slots = (0..4).map(|i| tm.alloc_slot(0, Arc::new(i)).unwrap()).collect::<Vec<_>>();
    // dropped out of order: the table is told in increasing order
    let mut slots = slots.into_iter().map(Some).collect::<Vec<_>>();
    for i in [2usize, 0, 3] {
        slots[i].take().unwrap().drop(&mut tm);
    }
    for _ in 0..2 {
        drop_frame(&mut tm);
    }
    let drops = take(&tm).concat();
    assert_eq!(drops, vec![0, 2, 3]);
    // the dead queue gives them back in that order, with the next version
    let a = tm.alloc_slot(0, Arc::new(10)).unwrap();
    let b = tm.alloc_slot(0, Arc::new(11)).unwrap();
    let c = tm.alloc_slot(0, Arc::new(12)).unwrap();
    assert_eq!((a.index(), b.index(), c.index()), (0, 2, 3));
    assert_eq!((a.version(), b.version(), c.version()), (1, 1, 1));
    let d = tm.alloc_slot(0, Arc::new(13)).unwrap();
    assert_eq!(d.index(), 4);
}

#[test]
fn teardown_tells_interface_of_waiting_slots() {
    let mut tm = simple_tm();
    let a1 = tm.frame();
    let value = Arc::new(7);
    let slot = tm.alloc_slot(0, value.clone()).unwrap();
    slot.drop(&mut tm);
    a1.drop(&mut tm);
    take(&tm);
    // the slot waits in a reaper queue; tearing down drops it and tells the interface
    assert_eq!(Arc::strong_count(&value), 2);
    let interfaces = tm.drop();
    assert_eq!(interfaces.len(), 1);
    let drops = interfaces[0].take();
    assert_eq!(drops.concat(), vec![0]);
    assert_eq!(drops.len(), 2);
    assert_eq!(Arc::strong_count(&value), 1);
}
