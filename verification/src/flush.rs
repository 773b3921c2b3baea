use vstd::prelude::*;
use crate::range_set::DescriptorIndexRangeSet;

verus! {

/// A write of `count` descriptors to the array elements of `binding` that start at `first_array_element`.
#[derive(Copy, Clone, Debug, PartialEq, Eq, Structural)]
pub struct DescriptorWrite {
    pub binding: u32,
    pub first_array_element: u32,
    pub count: u32,
}

/// The usages of an image that decide the bindings it is written to.
#[derive(Copy, Clone, Debug, PartialEq, Eq, Structural)]
pub struct ImageUsage {
    pub storage: bool,
    pub sampled: bool,
}

/// The array element after the last one a write covers.
pub open spec fn write_end(w: DescriptorWrite) -> int {
    w.first_array_element + w.count
}

/// The write covers the image at position `k` of the images that start at array element `start`.
pub open spec fn covers(w: DescriptorWrite, binding: u32, start: int, k: int) -> bool {
    &&& w.binding == binding
    &&& w.first_array_element - start <= k < write_end(w) - start
}

/// The write is a maximal run of images that have `flags` set: all images it covers do, and the images just before
/// and just after it do not.
pub open spec fn run_write(w: DescriptorWrite, binding: u32, start: int, flags: Seq<bool>) -> bool {
    let a = w.first_array_element - start;
    let b = write_end(w) - start;
    &&& w.binding == binding
    &&& w.count > 0
    &&& 0 <= a
    &&& b <= flags.len()
    &&& forall|k: int| a <= k < b ==> #[trigger] flags[k]
    &&& a == 0 || !flags[a - 1]
    &&& b == flags.len() || !flags[b]
}

/// The storage usage of each image.
pub open spec fn storage_flags(usages: Seq<ImageUsage>) -> Seq<bool> {
    usages.map_values(|u: ImageUsage| u.storage)
}

/// The sampled usage of each image.
pub open spec fn sampled_flags(usages: Seq<ImageUsage>) -> Seq<bool> {
    usages.map_values(|u: ImageUsage| u.sampled)
}

/// Gathers a run of consecutive images written to one binding.
pub struct ImageUpdateBuffer {
    binding: u32,
    start: u32,
    len: u32,
}

impl ImageUpdateBuffer {
    pub closed spec fn spec_binding(&self) -> u32 {
        self.binding
    }

    /// The array element of the first image of the run.
    pub closed spec fn spec_start(&self) -> u32 {
        self.start
    }

    /// The number of images in the run.
    pub closed spec fn spec_len(&self) -> u32 {
        self.len
    }

    pub fn new(binding: u32) -> (r: Self)
        ensures
            r.spec_binding() == binding,
            r.spec_start() == u32::MAX,
            r.spec_len() == 0,
    {
        ImageUpdateBuffer { binding, start: u32::MAX, len: 0 }
    }

    /// Begins a run at array element `start`.
    pub fn start(&mut self, start: u32)
        requires
            old(self).spec_len() == 0,
        ensures
            final(self).spec_binding() == old(self).spec_binding(),
            final(self).spec_start() == start,
            final(self).spec_len() == 0,
    {
        self.start = start;
    }

    /// Adds the next image to the run.
    pub fn advance_push(&mut self)
        requires
            old(self).spec_len() < u32::MAX,
        ensures
            final(self).spec_binding() == old(self).spec_binding(),
            final(self).spec_start() == old(self).spec_start(),
            final(self).spec_len() == old(self).spec_len() + 1,
    {
        self.len = self.len + 1;
    }

    /// Ends the run before the next image, which is not written to this binding: the run, unless it is empty, is
    /// written out, and the next run starts after that image.
    pub fn advance_flush(&mut self, writes: &mut Vec<DescriptorWrite>)
        requires
            old(self).spec_start() + old(self).spec_len() + 1 <= u32::MAX,
        ensures
            final(self).spec_binding() == old(self).spec_binding(),
            final(self).spec_start() == old(self).spec_start() + old(self).spec_len() + 1,
            final(self).spec_len() == 0,
            old(self).spec_len() > 0 ==> final(writes)@ == old(writes)@.push(
                DescriptorWrite {
                    binding: old(self).spec_binding(),
                    first_array_element: old(self).spec_start(),
                    count: old(self).spec_len(),
                },
            ),
            old(self).spec_len() == 0 ==> final(writes)@ == old(writes)@,
    {
        let len = self.len;
        if len > 0 {
            writes.push(DescriptorWrite { binding: self.binding, first_array_element: self.start, count: len });
        }
        self.start = self.start + len + 1;
        self.len = 0;
    }
}

/// The run of a buffer is the maximal run of `flags` that ends just before position `k`, for images that start at
/// array element `start`.
spec fn open_run(buf: ImageUpdateBuffer, binding: u32, start: int, k: int, flags: Seq<bool>) -> bool {
    let a = k - buf.spec_len();
    &&& buf.spec_binding() == binding
    &&& buf.spec_start() + buf.spec_len() == start + k
    &&& 0 <= a
    &&& forall|j: int| a <= j < k ==> #[trigger] flags[j]
    &&& a == 0 || !flags[a - 1]
}

/// Every position before `k` that has `flags` set is covered by a write of `binding`, or waits in the run of the
/// buffer.
spec fn covered_before(
    writes: Seq<DescriptorWrite>,
    buf: ImageUpdateBuffer,
    binding: u32,
    start: int,
    k: int,
    flags: Seq<bool>,
) -> bool {
    forall|j: int|
        0 <= j < k && #[trigger] flags[j] ==> j >= k - buf.spec_len() || exists|i: int|
            0 <= i < writes.len() && #[trigger] covers(writes[i], binding, start, j)
}

/// The writes are ordered by the element they end before, and of two writes that end before the same element the
/// storage one comes first.
pub open spec fn writes_ordered(writes: Seq<DescriptorWrite>, storage_binding: u32, sampled_binding: u32) -> bool {
    forall|i: int, j: int|
        0 <= i < j < writes.len() ==> write_end(#[trigger] writes[i]) <= write_end(#[trigger] writes[j]) && (write_end(
            writes[i],
        ) == write_end(writes[j]) ==> writes[i].binding == storage_binding && writes[j].binding == sampled_binding)
}

/// The descriptor writes for the images from array element `start` on, with the given usages: storage images go to
/// `storage_binding` and sampled images to `sampled_binding`, each binding receiving one write per maximal run of
/// consecutive images of that usage. A run is written out once the first image after it that lacks the usage, or the
/// end, is reached; the storage run before the sampled one.
pub fn image_update_writes(storage_binding: u32, sampled_binding: u32, start: u32, usages: &Vec<ImageUsage>) -> (r: Vec<
    DescriptorWrite,
>)
    requires
        storage_binding != sampled_binding,
        start + usages@.len() < u32::MAX,
    ensures
        forall|i: int|
            0 <= i < r@.len() ==> run_write(#[trigger] r@[i], storage_binding, start as int, storage_flags(usages@))
                || run_write(r@[i], sampled_binding, start as int, sampled_flags(usages@)),
        forall|k: int|
            0 <= k < usages@.len() && usages@[k].storage ==> exists|i: int|
                0 <= i < r@.len() && #[trigger] covers(r@[i], storage_binding, start as int, k),
        forall|k: int|
            0 <= k < usages@.len() && usages@[k].sampled ==> exists|i: int|
                0 <= i < r@.len() && #[trigger] covers(r@[i], sampled_binding, start as int, k),
        writes_ordered(r@, storage_binding, sampled_binding),
{
    let ghost s = start as int;
    let ghost sf = storage_flags(usages@);
    let ghost pf = sampled_flags(usages@);
    let ghost n = usages@.len() as int;
    let mut writes: Vec<DescriptorWrite> = Vec::new();
    let mut storage_buf = ImageUpdateBuffer::new(storage_binding);
    let mut sampled_buf = ImageUpdateBuffer::new(sampled_binding);
    storage_buf.start(start);
    sampled_buf.start(start);
    let mut k: usize = 0;
    while k < usages.len()
        invariant
            storage_binding != sampled_binding,
            s == start,
            s + n < u32::MAX,
            n == usages@.len(),
            sf == storage_flags(usages@),
            pf == sampled_flags(usages@),
            sf.len() == n,
            pf.len() == n,
            k <= n,
            open_run(storage_buf, storage_binding, s, k as int, sf),
            open_run(sampled_buf, sampled_binding, s, k as int, pf),
            forall|i: int|
                0 <= i < writes@.len() ==> run_write(#[trigger] writes@[i], storage_binding, s, sf) || run_write(
                    writes@[i],
                    sampled_binding,
                    s,
                    pf,
                ),
            forall|i: int| 0 <= i < writes@.len() ==> write_end(#[trigger] writes@[i]) < s + k,
            writes_ordered(writes@, storage_binding, sampled_binding),
            covered_before(writes@, storage_buf, storage_binding, s, k as int, sf),
            covered_before(writes@, sampled_buf, sampled_binding, s, k as int, pf),
        decreases n - k,
    {
        let usage = usages[k];
        let ghost kk = k as int;
        let ghost before = writes@;
        let ghost sb0 = storage_buf;
        let ghost pb0 = sampled_buf;
        proof {
            assert(sf[kk] == usage.storage);
            assert(pf[kk] == usage.sampled);
        }
        if usage.storage {
            storage_buf.advance_push();
        } else {
            storage_buf.advance_flush(&mut writes);
        }
        let ghost mid = writes@;
        if usage.sampled {
            sampled_buf.advance_push();
        } else {
            sampled_buf.advance_flush(&mut writes);
        }
        proof {
            let after = writes@;
            // every write is one of the earlier ones, or a run closed at this image
            assert forall|i: int| 0 <= i < after.len() implies run_write(#[trigger] after[i], storage_binding, s, sf)
                || run_write(after[i], sampled_binding, s, pf) by {
                if i < before.len() {
                    assert(after[i] == before[i]);
                } else if i < mid.len() {
                    assert(after[i] == mid[i]);
                    assert(!usage.storage && sb0.spec_len() > 0);
                    assert(run_write(after[i], storage_binding, s, sf));
                } else {
                    assert(!usage.sampled && pb0.spec_len() > 0);
                    assert(run_write(after[i], sampled_binding, s, pf));
                }
            }
            assert forall|i: int| 0 <= i < after.len() implies write_end(#[trigger] after[i]) < s + kk + 1 by {
                if i < before.len() {
                    assert(after[i] == before[i]);
                } else if i < mid.len() {
                    assert(after[i] == mid[i]);
                }
            }
            assert forall|i: int, j: int| 0 <= i < j < after.len() implies write_end(#[trigger] after[i]) <= write_end(
                #[trigger] after[j],
            ) && (write_end(after[i]) == write_end(after[j]) ==> after[i].binding == storage_binding
                && after[j].binding == sampled_binding) by {
                if j < before.len() {
                    assert(after[i] == before[i]);
                    assert(after[j] == before[j]);
                } else if i < before.len() {
                    assert(after[i] == before[i]);
                    if j < mid.len() {
                        assert(after[j] == mid[j]);
                    }
                } else if j < mid.len() {
                } else {
                    assert(after[i] == mid[i]);
                }
            }
            assert forall|j: int| 0 <= j < kk + 1 && #[trigger] sf[j] implies j >= kk + 1 - storage_buf.spec_len()
                || exists|i: int| 0 <= i < after.len() && #[trigger] covers(after[i], storage_binding, s, j) by {
                if j < kk && j < kk - sb0.spec_len() {
                    let i = choose|i: int| 0 <= i < before.len() && #[trigger] covers(before[i], storage_binding, s, j);
                    assert(after[i] == before[i]);
                    assert(covers(after[i], storage_binding, s, j));
                } else if !usage.storage && j < kk {
                    let i = before.len() as int;
                    assert(after[i] == mid[i]);
                    assert(covers(after[i], storage_binding, s, j));
                }
            }
            assert forall|j: int| 0 <= j < kk + 1 && #[trigger] pf[j] implies j >= kk + 1 - sampled_buf.spec_len()
                || exists|i: int| 0 <= i < after.len() && #[trigger] covers(after[i], sampled_binding, s, j) by {
                if j < kk && j < kk - pb0.spec_len() {
                    let i = choose|i: int| 0 <= i < before.len() && #[trigger] covers(before[i], sampled_binding, s, j);
                    assert(after[i] == before[i]);
                    assert(covers(after[i], sampled_binding, s, j));
                } else if !usage.sampled && j < kk {
                    let i = mid.len() as int;
                    assert(covers(after[i], sampled_binding, s, j));
                }
            }
        }
        k = k + 1;
    }
    let ghost before = writes@;
    let ghost sb0 = storage_buf;
    let ghost pb0 = sampled_buf;
    storage_buf.advance_flush(&mut writes);
    let ghost mid = writes@;
    sampled_buf.advance_flush(&mut writes);
    proof {
        let after = writes@;
        assert forall|i: int| 0 <= i < after.len() implies run_write(#[trigger] after[i], storage_binding, s, sf)
            || run_write(after[i], sampled_binding, s, pf) by {
            if i < before.len() {
                assert(after[i] == before[i]);
            } else if i < mid.len() {
                assert(after[i] == mid[i]);
                assert(run_write(after[i], storage_binding, s, sf));
            } else {
                assert(run_write(after[i], sampled_binding, s, pf));
            }
        }
        assert forall|i: int, j: int| 0 <= i < j < after.len() implies write_end(#[trigger] after[i]) <= write_end(
            #[trigger] after[j],
        ) && (write_end(after[i]) == write_end(after[j]) ==> after[i].binding == storage_binding && after[j].binding
            == sampled_binding) by {
            if j < before.len() {
                assert(after[i] == before[i]);
                assert(after[j] == before[j]);
            } else if i < before.len() {
                assert(after[i] == before[i]);
                if j < mid.len() {
                    assert(after[j] == mid[j]);
                }
            } else if j < mid.len() {
            } else {
                assert(after[i] == mid[i]);
            }
        }
        assert forall|k: int| 0 <= k < n && usages@[k].storage implies exists|i: int|
            0 <= i < after.len() && #[trigger] covers(after[i], storage_binding, s, k) by {
            assert(sf[k]);
            if k < n - sb0.spec_len() {
                let i = choose|i: int| 0 <= i < before.len() && #[trigger] covers(before[i], storage_binding, s, k);
                assert(after[i] == before[i]);
                assert(covers(after[i], storage_binding, s, k));
            } else {
                let i = before.len() as int;
                assert(after[i] == mid[i]);
                assert(covers(after[i], storage_binding, s, k));
            }
        }
        assert forall|k: int| 0 <= k < n && usages@[k].sampled implies exists|i: int|
            0 <= i < after.len() && #[trigger] covers(after[i], sampled_binding, s, k) by {
            assert(pf[k]);
            if k < n - pb0.spec_len() {
                let i = choose|i: int| 0 <= i < before.len() && #[trigger] covers(before[i], sampled_binding, s, k);
                assert(after[i] == before[i]);
                assert(covers(after[i], sampled_binding, s, k));
            } else {
                let i = mid.len() as int;
                assert(covers(after[i], sampled_binding, s, k));
            }
        }
    }
    writes
}

/// The descriptor writes that flush the slots of `indices` to `binding`: one write per maximal range of consecutive
/// indices, in increasing order.
pub fn range_writes(binding: u32, indices: &DescriptorIndexRangeSet) -> (r: Vec<DescriptorWrite>)
    ensures
        forall|i: int| 0 <= i < r@.len() ==> (#[trigger] r@[i]).binding == binding && r@[i].count > 0,
        forall|i: int, j: int| 0 <= i < j < r@.len() ==> write_end(#[trigger] r@[i]) < (#[trigger] r@[j]).first_array_element,
        forall|x: u32| indices@.contains(x) <==> exists|i: int| 0 <= i < r@.len() && #[trigger] covers(r@[i], binding, 0, x as int),
{
    let ranges = indices.iter_ranges();
    let mut writes: Vec<DescriptorWrite> = Vec::new();
    let mut k: usize = 0;
    while k < ranges.len()
        invariant
            k <= ranges@.len(),
            writes@.len() == k,
            forall|i: int| 0 <= i < ranges@.len() ==> (#[trigger] ranges@[i]).0 < ranges@[i].1,
            forall|i: int| 0 <= i < k ==> #[trigger] writes@[i] == (DescriptorWrite {
                binding,
                first_array_element: ranges@[i].0,
                count: (ranges@[i].1 - ranges@[i].0) as u32,
            }),
        decreases ranges@.len() - k,
    {
        let (first, end) = ranges[k];
        writes.push(DescriptorWrite { binding, first_array_element: first, count: end - first });
        k = k + 1;
    }
    proof {
        assert forall|i: int, j: int| 0 <= i < j < writes@.len() implies write_end(#[trigger] writes@[i]) < (
        #[trigger] writes@[j]).first_array_element by {
            assert(ranges@[i].1 < ranges@[j].0);
        }
        assert forall|x: u32| indices@.contains(x) <==> exists|i: int|
            0 <= i < writes@.len() && #[trigger] covers(writes@[i], binding, 0, x as int) by {
            if indices@.contains(x) {
                let i = choose|i: int| 0 <= i < ranges@.len() && (#[trigger] ranges@[i]).0 <= x < ranges@[i].1;
                assert(covers(writes@[i], binding, 0, x as int));
            }
            if exists|i: int| 0 <= i < writes@.len() && #[trigger] covers(writes@[i], binding, 0, x as int) {
                let i = choose|i: int| 0 <= i < writes@.len() && #[trigger] covers(writes@[i], binding, 0, x as int);
                assert(ranges@[i].0 <= x < ranges@[i].1);
            }
        }
    }
    writes
}

/// The writes that invalidate the descriptors of a dropped image at slot `index`, one element each: its sampled
/// binding if it is sampled, then its storage binding if it is a storage image.
pub fn image_invalidations(storage_binding: u32, sampled_binding: u32, index: u32, usage: ImageUsage) -> (r: Vec<
    DescriptorWrite,
>)
    ensures
        r@ == (if usage.sampled {
            seq![DescriptorWrite { binding: sampled_binding, first_array_element: index, count: 1 }]
        } else {
            Seq::empty()
        }) + (if usage.storage {
            seq![DescriptorWrite { binding: storage_binding, first_array_element: index, count: 1 }]
        } else {
            Seq::empty()
        }),
{
    let mut r: Vec<DescriptorWrite> = Vec::new();
    if usage.sampled {
        r.push(DescriptorWrite { binding: sampled_binding, first_array_element: index, count: 1 });
    }
    if usage.storage {
        r.push(DescriptorWrite { binding: storage_binding, first_array_element: index, count: 1 });
    }
    proof {
        if usage.sampled && usage.storage {
            assert(r@ =~= seq![
                DescriptorWrite { binding: sampled_binding, first_array_element: index, count: 1 },
                DescriptorWrite { binding: storage_binding, first_array_element: index, count: 1 },
            ]);
        } else if usage.sampled {
            assert(r@ =~= seq![DescriptorWrite { binding: sampled_binding, first_array_element: index, count: 1 }]);
        } else if usage.storage {
            assert(r@ =~= seq![DescriptorWrite { binding: storage_binding, first_array_element: index, count: 1 }]);
        } else {
            assert(r@ =~= Seq::<DescriptorWrite>::empty());
        }
    }
    r
}

/// The write puts queued images to the binding of a usage they have: every slot it covers is queued and its image
/// has the usage of the write's binding.
pub open spec fn image_write_sound(
    w: DescriptorWrite,
    storage_binding: u32,
    sampled_binding: u32,
    queued: Set<u32>,
    usages: Seq<ImageUsage>,
) -> bool {
    &&& w.binding == storage_binding || w.binding == sampled_binding
    &&& w.count > 0
    &&& write_end(w) <= usages.len()
    &&& forall|k: int|
        w.first_array_element <= k < write_end(w) ==> queued.contains(k as u32) && (if w.binding == storage_binding {
            (#[trigger] usages[k]).storage
        } else {
            usages[k].sampled
        })
}

proof fn lemma_segment_write_sound(
    w: DescriptorWrite,
    storage_binding: u32,
    sampled_binding: u32,
    first: u32,
    end: u32,
    queued: Set<u32>,
    usages: Seq<ImageUsage>,
)
    requires
        storage_binding != sampled_binding,
        first <= end <= usages.len(),
        forall|x: u32| first <= x < end ==> queued.contains(x),
        run_write(w, storage_binding, first as int, storage_flags(usages.subrange(first as int, end as int)))
            || run_write(w, sampled_binding, first as int, sampled_flags(usages.subrange(first as int, end as int))),
    ensures
        image_write_sound(w, storage_binding, sampled_binding, queued, usages),
{
    let part = usages.subrange(first as int, end as int);
    assert(storage_flags(part).len() == part.len());
    assert(sampled_flags(part).len() == part.len());
    assert(write_end(w) <= end);
    assert(w.binding == storage_binding || w.binding == sampled_binding);
    assert forall|k: int| w.first_array_element <= k < write_end(w) implies queued.contains(k as u32) && (
    if w.binding == storage_binding {
        (#[trigger] usages[k]).storage
    } else {
        usages[k].sampled
    }) by {
        assert(first <= k < end);
        assert(queued.contains(k as u32));
        if w.binding == storage_binding {
            assert(storage_flags(part)[k - first]);
        } else {
            assert(sampled_flags(part)[k - first]);
        }
    }
}

/// The writes flush the queued images: every write puts queued images to the binding of a usage they have, and every
/// queued image is written to the binding of each usage it has.
pub open spec fn image_flush(
    writes: Seq<DescriptorWrite>,
    storage_binding: u32,
    sampled_binding: u32,
    queued: Set<u32>,
    usages: Seq<ImageUsage>,
) -> bool {
    &&& forall|i: int|
        0 <= i < writes.len() ==> image_write_sound(#[trigger] writes[i], storage_binding, sampled_binding, queued, usages)
    &&& forall|x: u32|
        queued.contains(x) && usages[x as int].storage ==> exists|i: int|
            0 <= i < writes.len() && #[trigger] covers(writes[i], storage_binding, 0, x as int)
    &&& forall|x: u32|
        queued.contains(x) && usages[x as int].sampled ==> exists|i: int|
            0 <= i < writes.len() && #[trigger] covers(writes[i], sampled_binding, 0, x as int)
}

/// A flush writes every image allocated before it: the image of a slot pushed to the queue, and not flushed since, is
/// written by the next flush to the binding of each usage it has, and to no binding of a usage it lacks.
pub proof fn lemma_flush_writes_pushed(
    before: Set<u32>,
    index: u32,
    writes: Seq<DescriptorWrite>,
    storage_binding: u32,
    sampled_binding: u32,
    usages: Seq<ImageUsage>,
)
    requires
        storage_binding != sampled_binding,
        image_flush(writes, storage_binding, sampled_binding, before.insert(index), usages),
    ensures
        usages[index as int].storage <==> exists|i: int|
            0 <= i < writes.len() && #[trigger] covers(writes[i], storage_binding, 0, index as int),
        usages[index as int].sampled <==> exists|i: int|
            0 <= i < writes.len() && #[trigger] covers(writes[i], sampled_binding, 0, index as int),
{
    let queued = before.insert(index);
    assert(queued.contains(index));
    if exists|i: int| 0 <= i < writes.len() && #[trigger] covers(writes[i], storage_binding, 0, index as int) {
        let i = choose|i: int| 0 <= i < writes.len() && #[trigger] covers(writes[i], storage_binding, 0, index as int);
        assert(image_write_sound(writes[i], storage_binding, sampled_binding, queued, usages));
        assert(usages[index as int].storage);
    }
    if exists|i: int| 0 <= i < writes.len() && #[trigger] covers(writes[i], sampled_binding, 0, index as int) {
        let i = choose|i: int| 0 <= i < writes.len() && #[trigger] covers(writes[i], sampled_binding, 0, index as int);
        assert(image_write_sound(writes[i], storage_binding, sampled_binding, queued, usages));
        assert(usages[index as int].sampled);
    }
}

/// The slots allocated since the last flush, waiting for their descriptors to be written.
pub struct FlushQueue {
    ranges: DescriptorIndexRangeSet,
}

impl FlushQueue {
    /// The queued slot indices.
    pub closed spec fn view(&self) -> Set<u32> {
        self.ranges@
    }

    pub fn new() -> (r: Self)
        ensures
            r@ == Set::<u32>::empty(),
    {
        FlushQueue { ranges: DescriptorIndexRangeSet::new() }
    }

    /// Queues a newly allocated slot.
    pub fn push(&mut self, index: u32)
        requires
            index < u32::MAX,
        ensures
            final(self)@ == old(self)@.insert(index),
    {
        self.ranges.insert(index);
    }

    /// Takes every queued slot, leaving the queue empty, and gives the writes that flush them to `binding`: one per
    /// maximal range of consecutive indices, in increasing order.
    pub fn flush(&mut self, binding: u32) -> (r: Vec<DescriptorWrite>)
        ensures
            final(self)@ == Set::<u32>::empty(),
            forall|i: int| 0 <= i < r@.len() ==> (#[trigger] r@[i]).binding == binding && r@[i].count > 0,
            forall|i: int, j: int|
                0 <= i < j < r@.len() ==> write_end(#[trigger] r@[i]) < (#[trigger] r@[j]).first_array_element,
            forall|x: u32|
                old(self)@.contains(x) <==> exists|i: int| 0 <= i < r@.len() && #[trigger] covers(r@[i], binding, 0, x as int),
    {
        let taken = self.take();
        range_writes(binding, &taken)
    }

    /// Takes every queued image slot, leaving the queue empty, and gives the writes that flush them, given the
    /// usage of the image at each slot: for each range of consecutive queued slots, the writes that
    /// [`image_update_writes`] gives for its images. Every write puts queued images to the binding of a usage they
    /// have, and every queued image is written to the binding of each usage it has.
    pub fn flush_images(&mut self, storage_binding: u32, sampled_binding: u32, usages: &Vec<ImageUsage>) -> (r: Vec<
        DescriptorWrite,
    >)
        requires
            storage_binding != sampled_binding,
            usages@.len() < u32::MAX,
            forall|x: u32| old(self)@.contains(x) ==> x < usages@.len(),
        ensures
            final(self)@ == Set::<u32>::empty(),
            image_flush(r@, storage_binding, sampled_binding, old(self)@, usages@),
    {
        let ghost queued = self@;
        let taken = self.take();
        let ranges = taken.iter_ranges();
        let mut writes: Vec<DescriptorWrite> = Vec::new();
        let mut k: usize = 0;
        while k < ranges.len()
            invariant
                k <= ranges@.len(),
                storage_binding != sampled_binding,
                usages@.len() < u32::MAX,
                taken@ == queued,
                forall|x: u32| queued.contains(x) ==> x < usages@.len(),
                forall|i: int| 0 <= i < ranges@.len() ==> (#[trigger] ranges@[i]).0 < ranges@[i].1,
                forall|x: u32| queued.contains(x) <==> exists|i: int| 0 <= i < ranges@.len() && (#[trigger] ranges@[i]).0 <= x < ranges@[i].1,
                forall|i: int|
                    0 <= i < writes@.len() ==> image_write_sound(#[trigger] writes@[i], storage_binding, sampled_binding, queued, usages@),
                forall|j: int, x: u32|
#![trigger ranges@[j], usages@[x as int]]
                    0 <= j < k && ranges@[j].0 <= x < ranges@[j].1 && usages@[x as int].storage ==> exists|i: int|
                        0 <= i < writes@.len() && #[trigger] covers(writes@[i], storage_binding, 0, x as int),
                forall|j: int, x: u32|
#![trigger ranges@[j], usages@[x as int]]
                    0 <= j < k && ranges@[j].0 <= x < ranges@[j].1 && usages@[x as int].sampled ==> exists|i: int|
                        0 <= i < writes@.len() && #[trigger] covers(writes@[i], sampled_binding, 0, x as int),
            decreases ranges@.len() - k,
        {
            let (first, end) = ranges[k];
            proof {
                assert(queued.contains((end - 1) as u32));
            }
            let mut part: Vec<ImageUsage> = Vec::new();
            let mut x: u32 = first;
            while x < end
                invariant
                    first <= x <= end,
                    end <= usages@.len(),
                    part@ == usages@.subrange(first as int, x as int),
                decreases end - x,
            {
                part.push(usages[x as usize]);
                x = x + 1;
                proof {
                    assert(part@ =~= usages@.subrange(first as int, x as int));
                }
            }
            let segment = image_update_writes(storage_binding, sampled_binding, first, &part);
            let ghost before = writes@;
            let mut m: usize = 0;
            while m < segment.len()
                invariant
                    m <= segment@.len(),
                    writes@ == before + segment@.subrange(0, m as int),
                decreases segment@.len() - m,
            {
                writes.push(segment[m]);
                m = m + 1;
                proof {
                    assert(writes@ =~= before + segment@.subrange(0, m as int));
                }
            }
            proof {
                assert(segment@.subrange(0, m as int) =~= segment@);
                assert forall|x: u32| first <= x < end implies queued.contains(x) by {
                    assert(ranges@[k as int].0 <= x < ranges@[k as int].1);
                }
                assert forall|i: int| 0 <= i < writes@.len() implies image_write_sound(
                    #[trigger] writes@[i],
                    storage_binding,
                    sampled_binding,
                    queued,
                    usages@,
                ) by {
                    if i >= before.len() {
                        let w = segment@[i - before.len()];
                        assert(writes@[i] == w);
                        lemma_segment_write_sound(w, storage_binding, sampled_binding, first, end, queued, usages@);
                    }
                }
                assert forall|j: int, x: u32|
#![trigger ranges@[j], usages@[x as int]]
                    0 <= j < k + 1 && ranges@[j].0 <= x < ranges@[j].1 && usages@[x as int].storage implies exists|i: int|
                        0 <= i < writes@.len() && #[trigger] covers(writes@[i], storage_binding, 0, x as int) by {
                    if j < k {
                        let i = choose|i: int| 0 <= i < before.len() && #[trigger] covers(before[i], storage_binding, 0, x as int);
                        assert(writes@[i] == before[i]);
                    } else {
                        assert(part@[x - first] == usages@[x as int]);
                        assert(storage_flags(part@)[x - first]);
                        let i = choose|i: int| 0 <= i < segment@.len() && #[trigger] covers(segment@[i], storage_binding, first as int, x - first);
                        assert(writes@[before.len() + i] == segment@[i]);
                        assert(covers(writes@[before.len() + i], storage_binding, 0, x as int));
                    }
                }
                assert forall|j: int, x: u32|
#![trigger ranges@[j], usages@[x as int]]
                    0 <= j < k + 1 && ranges@[j].0 <= x < ranges@[j].1 && usages@[x as int].sampled implies exists|i: int|
                        0 <= i < writes@.len() && #[trigger] covers(writes@[i], sampled_binding, 0, x as int) by {
                    if j < k {
                        let i = choose|i: int| 0 <= i < before.len() && #[trigger] covers(before[i], sampled_binding, 0, x as int);
                        assert(writes@[i] == before[i]);
                    } else {
                        assert(part@[x - first] == usages@[x as int]);
                        assert(sampled_flags(part@)[x - first]);
                        let i = choose|i: int| 0 <= i < segment@.len() && #[trigger] covers(segment@[i], sampled_binding, first as int, x - first);
                        assert(writes@[before.len() + i] == segment@[i]);
                        assert(covers(writes@[before.len() + i], sampled_binding, 0, x as int));
                    }
                }
            }
            k = k + 1;
        }
        proof {
            assert forall|x: u32| queued.contains(x) && usages@[x as int].storage implies exists|i: int|
                0 <= i < writes@.len() && #[trigger] covers(writes@[i], storage_binding, 0, x as int) by {
                let j = choose|j: int| 0 <= j < ranges@.len() && (#[trigger] ranges@[j]).0 <= x < ranges@[j].1;
            }
            assert forall|x: u32| queued.contains(x) && usages@[x as int].sampled implies exists|i: int|
                0 <= i < writes@.len() && #[trigger] covers(writes@[i], sampled_binding, 0, x as int) by {
                let j = choose|j: int| 0 <= j < ranges@.len() && (#[trigger] ranges@[j]).0 <= x < ranges@[j].1;
            }
        }
        writes
    }

    /// Takes every queued slot, leaving the queue empty.
    pub fn take(&mut self) -> (r: DescriptorIndexRangeSet)
        ensures
            r@ == old(self)@,
            final(self)@ == Set::<u32>::empty(),
    {
        let mut taken = DescriptorIndexRangeSet::new();
        std::mem::swap(&mut taken, &mut self.ranges);
        taken
    }
}

} // verus!
