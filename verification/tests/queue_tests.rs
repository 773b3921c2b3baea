use rand::rngs::mock::StepRng;
use rand::seq::SliceRandom;
use vulkano_bindless::atomic_slots::{AtomicSlots, InstanceIds, SlotKey};
use vulkano_bindless::queue::{ChainQueue, PopQueue, Queue, SlotChain};
use vulkano_bindless::rc_slots::Slot;

type TestSlot = Slot<u32>;

fn new_slots() -> AtomicSlots<TestSlot> {
    let mut ids = InstanceIds::new();
    AtomicSlots::<TestSlot>::new(32, &mut ids)
}

fn test_empty<Q: Queue<TestSlot>>(queue: impl Fn(&AtomicSlots<TestSlot>) -> Q) {
    let slots = new_slots();
    let mut queue = queue(&slots);
    assert_eq!(queue.pop(&slots), None);
}

#[test]
fn test_pop_empty() {
    test_empty(|slots| PopQueue::new(slots));
}

#[test]
fn test_chain_empty() {
    test_empty(|slots| ChainQueue::new(slots));
}

fn test_single<Q: Queue<TestSlot>>(queue: impl Fn(&AtomicSlots<TestSlot>) -> Q) {
    let mut slots = new_slots();
    let mut queue = queue(&slots);
    assert_eq!(queue.debug_count(&slots), 0);

    let key0 = slots.allocate();
    let key1 = slots.allocate();

    queue.push(&mut slots, key0);
    queue.push(&mut slots, key1);
    assert_eq!(queue.debug_count(&slots), 2);
    assert_eq!(queue.pop(&slots), Some(key0));
    assert_eq!(queue.pop(&slots), None);
    assert_eq!(queue.debug_count(&slots), 1);
}

#[test]
fn test_pop_single() {
    test_single(|slots| PopQueue::new(slots));
}

#[test]
fn test_chain_single() {
    test_single(|slots| ChainQueue::new(slots));
}

fn test_many<Q: Queue<TestSlot>>(queue: impl Fn(&AtomicSlots<TestSlot>) -> Q) {
    let mut slots = new_slots();
    let mut queue = queue(&slots);

    const KEY_COUNT: usize = 5;
    let mut keys: Vec<SlotKey> = (0..KEY_COUNT).map(|_| slots.allocate()).collect();
    let mut rng = StepRng::new(!1, 0xDEADBEEF);
    keys.shuffle(&mut rng);
    println!("{:?}", keys);

    assert_eq!(queue.debug_count(&slots), 0);
    for key in keys.iter() {
        queue.push(&mut slots, *key);
    }
    assert_eq!(queue.debug_count(&slots), 5);

    // last entry cannot be poped
    for key in &keys[0..KEY_COUNT - 1] {
        assert_eq!(queue.pop(&slots), Some(*key));
    }
    assert_eq!(queue.debug_count(&slots), 1);
    assert_eq!(queue.pop(&slots), None);
}

#[test]
fn test_pop_many() {
    test_many(|slots| PopQueue::new(slots));
}

#[test]
fn test_chain_many() {
    test_many(|slots| ChainQueue::new(slots));
}

fn test_dry_and_reconnect<Q: Queue<TestSlot>>(queue: impl Fn(&AtomicSlots<TestSlot>) -> Q) {
    let mut slots = new_slots();
    let mut queue = queue(&slots);

    let key0 = slots.allocate();
    let key1 = slots.allocate();
    let key2 = slots.allocate();

    assert_eq!(queue.pop(&slots), None);
    assert_eq!(queue.debug_count(&slots), 0);

    queue.push(&mut slots, key0);
    assert_eq!(queue.pop(&slots), None);
    assert_eq!(queue.debug_count(&slots), 1);

    queue.push(&mut slots, key1);
    assert_eq!(queue.debug_count(&slots), 2);
    assert_eq!(queue.pop(&slots), Some(key0));
    assert_eq!(queue.pop(&slots), None);
    assert_eq!(queue.debug_count(&slots), 1);

    queue.push(&mut slots, key2);
    assert_eq!(queue.debug_count(&slots), 2);
    assert_eq!(queue.pop(&slots), Some(key1));
    assert_eq!(queue.pop(&slots), None);
    assert_eq!(queue.debug_count(&slots), 1);
}

#[test]
fn test_pop_dry_and_reconnect() {
    test_dry_and_reconnect(|slots| PopQueue::new(slots));
}

#[test]
fn test_chain_dry_and_reconnect() {
    test_dry_and_reconnect(|slots| ChainQueue::new(slots));
}

fn make_chain(slots: &mut AtomicSlots<TestSlot>, key_count: usize) -> (SlotChain, Vec<SlotKey>) {
    let mut first = ChainQueue::new(slots);

    let mut keys: Vec<SlotKey> = (0..key_count).map(|_| slots.allocate()).collect();
    let mut rng = StepRng::new(!1, 0xDEADBEEF);
    keys.shuffle(&mut rng);
    println!("{:?}", keys);

    for key in &keys {
        first.push(slots, *key);
    }
    let extra = slots.allocate();
    first.push(slots, extra);
    assert_eq!(first.debug_count(slots), key_count as u32 + 1);

    let chain = first.pop_chain(slots, |_| true).unwrap();
    assert_eq!(chain.head(), keys[0]);
    assert_eq!(chain.tail(), keys[key_count - 1]);
    (chain, keys)
}

#[test]
fn test_make_chain() {
    let mut slots = new_slots();
    make_chain(&mut slots, 5);
}

fn test_push_chain<Q: Queue<TestSlot>>(queue: impl Fn(&AtomicSlots<TestSlot>) -> Q) {
    let mut slots = new_slots();
    let (chain, keys) = make_chain(&mut slots, 8);
    let mut queue = queue(&slots);

    queue.push_chain(&mut slots, chain);
    let extra = slots.allocate();
    queue.push(&mut slots, extra);
    assert_eq!(queue.debug_count(&slots), 9);
    for key in &keys {
        assert_eq!(queue.pop(&slots), Some(*key));
    }
    assert_eq!(queue.debug_count(&slots), 1);
    assert_eq!(queue.pop(&slots), None);
}

#[test]
fn test_pop_push_chain() {
    test_push_chain(|slots| PopQueue::new(slots));
}

#[test]
fn test_chain_push_chain() {
    test_push_chain(|slots| ChainQueue::new(slots));
}

fn test_push<Q: Queue<TestSlot>>(queue: impl Fn(&AtomicSlots<TestSlot>) -> Q) {
    const PUSH_THREADS: usize = 3;
    let mut slots = new_slots();
    let mut queue = queue(&slots);
    for _ in 0..PUSH_THREADS {
        let key = slots.allocate();
        queue.push(&mut slots, key);
    }
    assert_eq!(queue.debug_count(&slots), PUSH_THREADS as u32);
}

#[test]
fn test_pop_push() {
    test_push(|slots| PopQueue::new(slots))
}

#[test]
fn test_chain_push() {
    test_push(|slots| ChainQueue::new(slots))
}

fn test_pop<Q: Queue<TestSlot>>(queue: impl Fn(&AtomicSlots<TestSlot>) -> Q) {
    const POP_THREADS: usize = 3;
    let mut slots = new_slots();
    let mut queue = queue(&slots);
    let keys: Vec<SlotKey> = (0..POP_THREADS).map(|_| slots.allocate()).collect();
    for key in keys.iter() {
        queue.push(&mut slots, *key);
    }
    let extra = slots.allocate();
    queue.push(&mut slots, extra);

    let mut result: Vec<SlotKey> = (0..POP_THREADS).map(|_| queue.pop(&slots).unwrap()).collect();
    result.sort_by_key(|key| slots.key_to_raw_index(*key));
    assert_eq!(result, keys);
}

#[test]
fn test_pop_pop() {
    test_pop(|slots| PopQueue::new(slots))
}

#[test]
fn test_chain_pop() {
    test_pop(|slots| ChainQueue::new(slots))
}

fn test_push_pop<Q: Queue<TestSlot>>(queue: impl Fn(&AtomicSlots<TestSlot>) -> Q) {
    const THREADS: usize = 1;
    let mut slots = new_slots();
    let mut queue = queue(&slots);
    let keys: Vec<SlotKey> = (0..THREADS + 1).map(|_| slots.allocate()).collect();
    queue.push(&mut slots, keys[THREADS]);

    for i in 0..THREADS {
        queue.push(&mut slots, keys[i]);
    }
    let mut popped = Vec::new();
    for _ in 0..THREADS {
        popped.push(queue.pop(&slots).unwrap());
    }
    assert_eq!(popped, vec![keys[THREADS]]);
}

#[test]
fn test_pop_push_pop() {
    test_push_pop(|slots| PopQueue::new(slots))
}

#[test]
fn test_chain_push_pop() {
    test_push_pop(|slots| ChainQueue::new(slots))
}

#[test]
fn pop_chain_keeps_rejected_slots_queued() {
    let mut slots = new_slots();
    let mut queue = ChainQueue::new(&slots);
    let keys: Vec<SlotKey> = (0..4).map(|_| slots.allocate()).collect();
    for key in keys.iter() {
        queue.push(&mut slots, *key);
    }
    // the first two slots are accepted, the third is refused: the chain holds the first two
    let chain = queue.pop_chain(&slots, |k| k != keys[2]).unwrap();
    assert_eq!(chain.head(), keys[0]);
    assert_eq!(chain.tail(), keys[1]);
    assert_eq!(queue.debug_count(&slots), 2);
    assert_eq!(queue.pop(&slots), Some(keys[2]));
    assert_eq!(queue.pop(&slots), None);
}

#[test]
fn dry_up_gives_every_slot_in_order() {
    let mut slots = new_slots();
    let mut queue = PopQueue::new(&slots);
    let keys: Vec<SlotKey> = (0..3).map(|_| slots.allocate()).collect();
    for key in keys.iter() {
        queue.push(&mut slots, *key);
    }
    let (chain, dried) = queue.dry_up(&slots);
    assert_eq!(dried, keys);
    let chain = chain.unwrap();
    assert_eq!(chain.head(), keys[0]);
    assert_eq!(chain.tail(), keys[2]);

    // the queue has nothing left to pop; it still names the old tail, so slots pushed later never come out
    assert_eq!(queue.debug_count(&slots), 0);
    assert_eq!(queue.pop(&slots), None);
    let a = slots.allocate();
    let b = slots.allocate();
    queue.push(&mut slots, a);
    queue.push(&mut slots, b);
    assert_eq!(queue.pop(&slots), None);

    let mut empty = ChainQueue::new(&slots);
    let (chain, dried) = empty.dry_up(&slots);
    assert!(chain.is_none());
    assert!(dried.is_empty());
}

#[test]
fn single_chain_holds_one_key() {
    let mut slots = new_slots();
    let key = slots.allocate();
    let chain = SlotChain::single(key);
    assert_eq!(chain.head(), key);
    assert_eq!(chain.tail(), key);
    assert_eq!(chain.single_slot_key(), Some(key));
}
