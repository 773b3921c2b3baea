use vstd::prelude::*;
use crate::descriptor::ID_TYPE_BITS;

verus! {

/// The number of tables a descriptor id can address: `1 << ID_TYPE_BITS`.
pub const TABLE_COUNT: u32 = 4;

/// A descriptor id addresses exactly [`TABLE_COUNT`] tables with its kind bits.
pub proof fn lemma_table_count()
    ensures
        TABLE_COUNT == 1u32 << ID_TYPE_BITS,
{
    assert(4u32 == 1u32 << 2u32) by (bit_vector);
}

/// The number of ids fixed in advance: those of the buffer, storage image and sampled image tables, `0` to `2`. Ids
/// handed out at run time start after them, so the first one is `3`, the id the sampler table also has.
pub const RESERVED_TABLES: u32 = 3;

/// The id of a descriptor table.
#[derive(Clone, Copy, Debug, PartialEq, Eq, Structural)]
pub struct TableId(u32);

/// The kind of descriptor a table holds, named by the id of its table.
pub type DescriptorType = TableId;

impl TableId {
    pub closed spec fn spec_id(&self) -> u32 {
        self.0
    }

    /// The table with the given id, which must address a table.
    pub fn new(id: u32) -> (r: Option<Self>)
        ensures
            id < TABLE_COUNT ==> (r matches Some(t) && t.spec_id() == id),
            id >= TABLE_COUNT ==> r == None::<TableId>,
    {
        if id < TABLE_COUNT {
            Some(TableId(id))
        } else {
            None
        }
    }

    pub fn to_u32(&self) -> (r: u32)
        ensures
            r == self.spec_id(),
    {
        self.0
    }

    pub fn to_usize(&self) -> (r: usize)
        ensures
            r == self.spec_id(),
    {
        self.0 as usize
    }
}

/// Hands out the ids of tables registered at run time, after the reserved ones.
pub struct TableIdCounter {
    next: u32,
}

impl TableIdCounter {
    /// The counter never goes below the reserved ids.
    #[verifier::type_invariant]
    spec fn after_reserved(&self) -> bool {
        self.next >= RESERVED_TABLES
    }

    /// The id the next registration will receive.
    pub closed spec fn peek(&self) -> u32 {
        self.next
    }

    pub fn new() -> (r: Self)
        ensures
            r.peek() == RESERVED_TABLES,
    {
        TableIdCounter { next: RESERVED_TABLES }
    }

    fn take(&mut self) -> (id: u32)
        requires
            old(self).peek() < TABLE_COUNT,
        ensures
            id == old(self).peek(),
            final(self).peek() == old(self).peek() + 1,
    {
        proof {
            use_type_invariant(&*self);
        }
        let id = self.next;
        self.next = id + 1;
        id
    }
}

/// Ids taken one after another from one counter differ: each fresh id is the counter's value at the time, and the
/// counter moves past it and never goes back.
pub proof fn lemma_fresh_ids_differ(
    first: TableId,
    counter_after_first: TableIdCounter,
    counter_before_second: TableIdCounter,
    second: TableId,
)
    requires
        first.spec_id() < counter_after_first.peek(),
        counter_after_first.peek() <= counter_before_second.peek(),
        second.spec_id() == counter_before_second.peek(),
    ensures
        first != second,
{
}

/// A table id that is taken from the counter the first time it is asked for, and stays the same afterwards.
#[derive(Debug)]
pub struct TableIdRegistration {
    once: Option<TableId>,
}

impl TableIdRegistration {
    /// The id, once it has been taken.
    pub closed spec fn taken(&self) -> Option<TableId> {
        self.once
    }

    pub fn new() -> (r: Self)
        ensures
            r.taken() == None::<TableId>,
    {
        TableIdRegistration { once: None }
    }

    /// The id of the table: taken from `counter` on the first call, the same on every later one. The counter
    /// must not have passed the last table, which a second fresh registration on one counter would: a descriptor
    /// addresses [`TABLE_COUNT`] tables, and only one id is left after the reserved ones.
    pub fn get(&mut self, counter: &mut TableIdCounter) -> (r: TableId)
        requires
            old(self).taken() is None ==> old(counter).peek() < TABLE_COUNT,
        ensures
            final(self).taken() == Some(r),
            old(self).taken() matches Some(t) ==> r == t && final(counter).peek() == old(counter).peek(),
            old(self).taken() is None ==> r.spec_id() == old(counter).peek() && final(counter).peek() == old(
                counter,
            ).peek() + 1 && RESERVED_TABLES <= r.spec_id() < TABLE_COUNT,
    {
        match self.once {
            Some(id) => id,
            None => {
                proof {
                    use_type_invariant(&*counter);
                }
                let id = counter.take();
                let table = TableId(id);
                self.once = Some(table);
                table
            },
        }
    }
}

/// A registration of a kind of descriptor, whose id is fixed in advance for the reserved kinds and taken from the
/// counter for the others.
pub struct DescriptorTypeRegistration(Option<DescriptorType>);

impl DescriptorTypeRegistration {
    /// The id, once it has been taken.
    pub closed spec fn taken(&self) -> Option<DescriptorType> {
        self.0
    }

    pub fn new() -> (r: Self)
        ensures
            r.taken() == None::<DescriptorType>,
    {
        DescriptorTypeRegistration(None)
    }

    /// A registration of a reserved kind; `id` must be a reserved id.
    pub fn new_reserved(id: u32) -> (r: Self)
        requires
            id < RESERVED_TABLES,
        ensures
            r.taken() matches Some(t) && t.spec_id() == id,
    {
        DescriptorTypeRegistration(Some(TableId(id)))
    }

    /// The id of the kind: taken from `counter` on the first call, the same on every later one. The counter
    /// must not have run out of ids.
    pub fn get(&mut self, counter: &mut TableIdCounter) -> (r: DescriptorType)
        requires
            old(self).taken() is None ==> old(counter).peek() < TABLE_COUNT,
        ensures
            final(self).taken() == Some(r),
            old(self).taken() matches Some(t) ==> r == t && final(counter).peek() == old(counter).peek(),
            old(self).taken() is None ==> r.spec_id() == old(counter).peek() && final(counter).peek() == old(
                counter,
            ).peek() + 1 && RESERVED_TABLES <= r.spec_id() < TABLE_COUNT,
    {
        match self.0 {
            Some(id) => id,
            None => {
                proof {
                    use_type_invariant(&*counter);
                }
                let id = counter.take();
                let table = TableId(id);
                self.0 = Some(table);
                table
            },
        }
    }
}

} // verus!
