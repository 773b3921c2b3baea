use vstd::prelude::*;
use rangemap::RangeSet;

verus! {

#[verifier::external_type_specification]
#[verifier::external_body]
#[verifier::reject_recursive_types(T)]
pub struct ExRangeSet<T>(RangeSet<T>);

/// The values covered by the ranges of a `rangemap::RangeSet`.
pub uninterp spec fn range_set_items(set: RangeSet<u32>) -> Set<u32>;

/// An empty set.
///
/// Calls `rangemap::RangeSet::new`, which makes a set with no ranges.
#[verifier::external_body]
fn range_set_new() -> (r: RangeSet<u32>)
    ensures
        range_set_items(r) == Set::<u32>::empty(),
{
    RangeSet::new()
}

/// Adds the values of the half-open range `start..end` to the set.
///
/// Calls `rangemap::RangeSet::insert`, which adds the values of the range to the set, coalescing it with overlapping
/// or adjacent ranges; it panics on an empty range, which `start < end` rules out.
#[verifier::external_body]
fn range_set_insert(set: &mut RangeSet<u32>, start: u32, end: u32)
    requires
        start < end,
    ensures
        range_set_items(*final(set)) == range_set_items(*old(set)).union(Set::new(|x: u32| start <= x < end)),
{
    set.insert(start..end)
}

/// The ranges of the set, as `(start, end)` pairs of half-open ranges.
///
/// Calls `rangemap::RangeSet::iter`, which gives the stored ranges ordered by range. The stored ranges are never
/// empty, and neither overlap nor touch, since overlapping and adjacent ranges are coalesced on insertion; together
/// they cover exactly the values of the set.
#[verifier::external_body]
fn range_set_ranges(set: &RangeSet<u32>) -> (r: Vec<(u32, u32)>)
    ensures
        forall|i: int| 0 <= i < r@.len() ==> (#[trigger] r@[i]).0 < r@[i].1,
        forall|i: int, j: int| 0 <= i < j < r@.len() ==> (#[trigger] r@[i]).1 < (#[trigger] r@[j]).0,
        forall|x: u32|
            range_set_items(*set).contains(x) <==> exists|i: int| 0 <= i < r@.len() && (#[trigger] r@[i]).0 <= x < r@[i].1,
{
    set.iter().map(|range| (range.start, range.end)).collect()
}

/// A set of descriptor indices, stored as ranges.
pub struct DescriptorIndexRangeSet(pub RangeSet<u32>);

/// The indices of a range, in order.
pub fn range_to_descriptor_index(start: u32, end: u32) -> (r: Vec<u32>)
    ensures
        r@.len() == if start <= end { end - start } else { 0 },
        forall|i: int| 0 <= i < r@.len() ==> #[trigger] r@[i] == start + i,
{
    let mut v: Vec<u32> = Vec::new();
    let mut i = start;
    while i < end
        invariant
            start <= i <= end || (i == start && start > end),
            start <= end ==> v@.len() == i - start,
            start > end ==> v@.len() == 0,
            forall|j: int| 0 <= j < v@.len() ==> #[trigger] v@[j] == start + j,
        decreases end - i,
    {
        v.push(i);
        i = i + 1;
    }
    v
}

impl DescriptorIndexRangeSet {
    /// The indices in the set.
    pub open spec fn view(&self) -> Set<u32> {
        range_set_items(self.0)
    }

    pub fn new() -> (r: Self)
        ensures
            r@ == Set::<u32>::empty(),
    {
        DescriptorIndexRangeSet(range_set_new())
    }

    pub fn into_inner(self) -> (r: RangeSet<u32>)
        ensures
            range_set_items(r) == self@,
    {
        self.0
    }

    /// Adds an index to the set.
    pub fn insert(&mut self, index: u32)
        requires
            index < u32::MAX,
        ensures
            final(self)@ == old(self)@.insert(index),
    {
        range_set_insert(&mut self.0, index, index + 1);
        proof {
            assert(Set::new(|x: u32| index <= x < index + 1) =~= set![index]);
            assert(old(self)@.union(set![index]) =~= old(self)@.insert(index));
        }
    }

    /// The maximal ranges of consecutive indices of the set, in order, as half-open `(start, end)` pairs.
    pub fn iter_ranges(&self) -> (r: Vec<(u32, u32)>)
        ensures
            forall|i: int| 0 <= i < r@.len() ==> (#[trigger] r@[i]).0 < r@[i].1,
            forall|i: int, j: int| 0 <= i < j < r@.len() ==> (#[trigger] r@[i]).1 < (#[trigger] r@[j]).0,
            forall|x: u32| self@.contains(x) <==> exists|i: int| 0 <= i < r@.len() && (#[trigger] r@[i]).0 <= x < r@[i].1,
    {
        range_set_ranges(&self.0)
    }

    /// The indices of the set, in increasing order.
    pub fn iter(&self) -> (r: Vec<u32>)
        ensures
            forall|i: int, j: int| 0 <= i < j < r@.len() ==> r@[i] < r@[j],
            forall|x: u32| self@.contains(x) <==> r@.contains(x),
    {
        let ranges = self.iter_ranges();
        let mut out: Vec<u32> = Vec::new();
        let mut k: usize = 0;
        while k < ranges.len()
            invariant
                forall|i: int| 0 <= i < ranges@.len() ==> (#[trigger] ranges@[i]).0 < ranges@[i].1,
                forall|i: int, j: int| 0 <= i < j < ranges@.len() ==> (#[trigger] ranges@[i]).1 <= (#[trigger] ranges@[j]).0,
                k <= ranges@.len(),
                forall|i: int, j: int| 0 <= i < j < out@.len() ==> out@[i] < out@[j],
                k > 0 ==> forall|i: int| 0 <= i < out@.len() ==> out@[i] < ranges@[k - 1].1,
                k == 0 ==> out@.len() == 0,
                forall|x: u32| out@.contains(x) <==> exists|i: int| 0 <= i < k && (#[trigger] ranges@[i]).0 <= x < ranges@[i].1,
            decreases ranges@.len() - k,
        {
            let (start, end) = ranges[k];
            proof {
                if k > 0 {
                    assert(ranges@[k - 1].1 <= ranges@[k as int].0);
                }
                assert forall|j: int| 0 <= j < out@.len() implies out@[j] < start by {
                    if k > 0 {
                        assert(ranges@[k - 1].1 <= ranges@[k as int].0);
                    }
                }
            }
            let mut i = start;
            let ghost base = out@;
            while i < end
                invariant
                    start < end,
                    start <= i <= end,
                    out@.len() == base.len() + (i - start),
                    out@.take(base.len() as int) == base,
                    forall|j: int| base.len() <= j < out@.len() ==> out@[j] == start + (j - base.len()),
                    forall|j: int| 0 <= j < base.len() ==> base[j] < start,
                    forall|a: int, b: int| 0 <= a < b < base.len() ==> base[a] < base[b],
                decreases end - i,
            {
                out.push(i);
                i = i + 1;
                proof {
                    assert(out@.take(base.len() as int) =~= base);
                }
            }
            proof {
                assert forall|j: int| 0 <= j < out@.len() implies out@[j] < ranges@[k as int].1 by {
                    if j < base.len() {
                        assert(out@[j] == out@.take(base.len() as int)[j]);
                    }
                }
                assert forall|a: int, b: int| 0 <= a < b < out@.len() implies out@[a] < out@[b] by {
                    if b < base.len() {
                        assert(out@[a] == base[a]);
                        assert(out@[b] == base[b]);
                    } else if a < base.len() {
                        assert(out@[a] == base[a]);
                    }
                }
                assert forall|x: u32| out@.contains(x) <==> exists|j: int| 0 <= j < k + 1 && (#[trigger] ranges@[j]).0 <= x
                    < ranges@[j].1 by {
                    if out@.contains(x) {
                        let p = choose|p: int| 0 <= p < out@.len() && out@[p] == x;
                        if p < base.len() {
                            assert(base.contains(x)) by {
                                assert(base[p] == out@[p]);
                            }
                        } else {
                            assert(ranges@[k as int].0 <= x < ranges@[k as int].1);
                        }
                    }
                    if exists|j: int| 0 <= j < k + 1 && (#[trigger] ranges@[j]).0 <= x < ranges@[j].1 {
                        let j = choose|j: int| 0 <= j < k + 1 && (#[trigger] ranges@[j]).0 <= x < ranges@[j].1;
                        if j < k {
                            assert(base.contains(x));
                            let p = choose|p: int| 0 <= p < base.len() && base[p] == x;
                            assert(out@[p] == x);
                        } else {
                            let p = base.len() + (x - start);
                            assert(out@[p] == x);
                        }
                    }
                }
            }
            k = k + 1;
        }
        out
    }
}

} // verus!
