use vulkano_bindless::atomic_slots::{AtomicSlots, InstanceIds};

#[test]
fn test_make_key() {
    let mut ids = InstanceIds::new();
    for (block_size, blocks_max) in [(4u32, 6u16), (16, 4), (64, 2)] {
        let slots = AtomicSlots::<u32>::new(block_size, &mut ids);
        let instance_id = slots.get_instance_id();

        let mut index_counter: u32 = 0;
        for block in 0..blocks_max {
            for slot in 0..(block_size << block) {
                let index = index_counter;
                index_counter += 1;
                let key = slots.key_from_raw_index(index);

                assert_eq!(key.instance_id(), instance_id, "key_from_raw_index({}) -> {:?}", index, key);
                assert_eq!(key.block(), block, "key_from_raw_index({}) -> {:?}", index, key);
                assert_eq!(key.slot(), slot, "key_from_raw_index({}) -> {:?}", index, key);

                let index_actual = slots.key_to_raw_index(key);
                assert_eq!(
                    index_actual, index,
                    "key_to_raw_index({:?}) -> {} should be {}",
                    key, index_actual, index
                );
            }
        }
    }
}

#[test]
fn test_alloc_within_block() {
    let mut ids = InstanceIds::new();
    let mut slots = AtomicSlots::<u32>::new(16, &mut ids);
    assert_eq!(slots.blocks_allocated(), 0);
    let key = slots.allocate();
    assert_eq!(key, slots.key_from_raw_index(0));
    assert_eq!(slots.blocks_allocated(), 1);
    for i in 0..5 {
        let key = slots.allocate();
        assert_eq!(key, slots.key_from_raw_index(i + 1));
    }

    assert_eq!(slots.blocks_allocated(), 1);
    assert_eq!(slots.block_len(0), 16);
}

#[test]
fn test_alloc_new_block() {
    let mut ids = InstanceIds::new();
    let mut slots = AtomicSlots::<u32>::new(4, &mut ids);
    assert_eq!(slots.blocks_allocated(), 0);
    for i in 0..4 {
        let key = slots.allocate();
        assert_eq!(key, slots.key_from_raw_index(i));
        assert_eq!(slots.blocks_allocated(), 1);
    }
    assert_eq!(slots.block_len(0), 4);

    for i in 0..8 {
        let key = slots.allocate();
        assert_eq!(key, slots.key_from_raw_index(i + 4));
        assert_eq!(slots.blocks_allocated(), 2);
    }
    assert_eq!(slots.block_len(1), 8);

    for i in 0..16 {
        let key = slots.allocate();
        assert_eq!(key, slots.key_from_raw_index(i + 12));
        assert_eq!(slots.blocks_allocated(), 3);
    }
    assert_eq!(slots.block_len(2), 16);
}

#[test]
fn test_block_size_not_pow_2() {
    let mut ids = InstanceIds::new();
    let slots = AtomicSlots::<u32>::new(14, &mut ids);
    assert_eq!(1 << slots.block_size_log_exec(), 8);
}

#[test]
fn test_alloc_block_sizes() {
    let mut ids = InstanceIds::new();
    for (block_size, blocks_max) in [(4u32, 6u16), (16, 4), (64, 2)] {
        let mut slots = AtomicSlots::<u32>::new(block_size, &mut ids);

        // fill slots
        {
            let mut curr_block_size = block_size;
            for block in 0..blocks_max {
                assert_eq!(slots.blocks_allocated(), block);
                for _slot in 0..curr_block_size {
                    slots.allocate();
                }
                curr_block_size *= 2;
            }
        }

        assert_eq!(slots.blocks_allocated(), blocks_max);

        let mut block_len = block_size as u64;
        for i in 0..blocks_max {
            assert_eq!(
                slots.block_len(i),
                block_len,
                "block index {} should have the size {} at block_size {}",
                i,
                block_len,
                block_size
            );
            block_len *= 2;
        }
    }
}

#[test]
fn allocate_stores_default_and_index_mut_writes() {
    let mut ids = InstanceIds::new();
    let mut slots = AtomicSlots::<u32>::new(2, &mut ids);
    let a = slots.allocate();
    let b = slots.allocate();
    let c = slots.allocate();
    assert_eq!(*slots.index(a), 0);
    *slots.index_mut(b) = 7;
    assert_eq!(*slots.index(b), 7);
    assert_eq!(*slots.index(a), 0);
    assert_eq!(slots.with(b, |v| *v + 1), 8);
    assert_eq!(c.block(), 1);
    assert_eq!(c.slot(), 0);
    assert_eq!(slots.key_to_raw_index(c), 2);
}

#[test]
fn instance_ids_differ_and_wrap() {
    let mut ids = InstanceIds::new();
    let first = ids.next_id();
    let second = ids.next_id();
    assert_eq!(second, first.wrapping_add(1));
    let s1 = AtomicSlots::<u32>::new(4, &mut ids);
    let s2 = AtomicSlots::<u32>::new(4, &mut ids);
    assert_ne!(s1.get_instance_id(), s2.get_instance_id());
}

#[test]
fn loom_alloc_first_block() {
    let mut ids = InstanceIds::new();
    let mut slots = AtomicSlots::<u32>::new(4, &mut ids);
    let a = slots.allocate();
    let b = slots.allocate();
    let c = slots.allocate();
    assert_ne!(a, b);
    assert_ne!(b, c);
    assert_ne!(a, c);
    assert_eq!(slots.blocks_allocated(), 1);
}

#[test]
fn loom_alloc_next_block() {
    let block_size = 4;
    let mut ids = InstanceIds::new();
    let mut slots = AtomicSlots::<u32>::new(block_size, &mut ids);
    for _ in 0..block_size {
        slots.allocate();
    }
    let a = slots.allocate();
    let b = slots.allocate();
    assert_ne!(a, b);
    assert_eq!(slots.blocks_allocated(), 2);
}

#[test]
fn loom_access() {
    let mut ids = InstanceIds::new();
    let mut slots = AtomicSlots::<u32>::new(4, &mut ids);
    let key = slots.allocate();
    assert_eq!(slots.with(key, |slot| *slot), 0);
    let key = slots.allocate();
    assert_eq!(slots.with(key, |slot| *slot), 0);
}
