use vstd::prelude::*;
use crate::descriptor::DescContentType;

verus! {

/// The number of descriptors of each kind a descriptor set holds.
#[derive(Copy, Clone, Debug, Eq, PartialEq, Structural)]
pub struct DescriptorCounts {
    pub buffers: u32,
    pub image: u32,
    pub samplers: u32,
}

impl DescriptorCounts {
    /// Counts that suit most uses, before they are capped by what the device supports.
    pub fn reasonable_default_counts() -> (r: Self)
        ensures
            r == (DescriptorCounts { buffers: 10_000, image: 10_000, samplers: 400 }),
    {
        DescriptorCounts { buffers: 10_000, image: 10_000, samplers: 400 }
    }

    /// The reasonable default counts, capped by the `limits` of the device.
    pub fn reasonable_defaults(limits: Self) -> (r: Self)
        ensures
            r == Self::reasonable_default_counts_spec().spec_min(limits),
    {
        Self::reasonable_default_counts().min(limits)
    }

    pub open spec fn reasonable_default_counts_spec() -> Self {
        DescriptorCounts { buffers: 10_000, image: 10_000, samplers: 400 }
    }

    pub open spec fn spec_is_within_limit(self, limit: Self) -> bool {
        self.buffers <= limit.buffers && self.image <= limit.image && self.samplers <= limit.samplers
    }

    pub open spec fn spec_min(self, other: Self) -> Self {
        DescriptorCounts {
            buffers: if self.buffers <= other.buffers { self.buffers } else { other.buffers },
            image: if self.image <= other.image { self.image } else { other.image },
            samplers: if self.samplers <= other.samplers { self.samplers } else { other.samplers },
        }
    }

    /// Every count is at most the count of `limit`.
    pub fn is_within_limit(self, limit: Self) -> (r: bool)
        ensures
            r == self.spec_is_within_limit(limit),
    {
        let DescriptorCounts { buffers, image, samplers } = self;
        buffers <= limit.buffers && image <= limit.image && samplers <= limit.samplers
    }

    /// The smaller of each count.
    pub fn min(self, other: Self) -> (r: Self)
        ensures
            r == self.spec_min(other),
    {
        DescriptorCounts {
            buffers: if self.buffers <= other.buffers { self.buffers } else { other.buffers },
            image: if self.image <= other.image { self.image } else { other.image },
            samplers: if self.samplers <= other.samplers { self.samplers } else { other.samplers },
        }
    }
}

/// The minimum of two counts is within the limit of each, is the largest such count, and does not depend on
/// the order of the two.
pub proof fn lemma_min_within_limit(a: DescriptorCounts, b: DescriptorCounts, c: DescriptorCounts)
    ensures
        a.spec_min(b).spec_is_within_limit(a),
        a.spec_min(b).spec_is_within_limit(b),
        c.spec_is_within_limit(a) && c.spec_is_within_limit(b) ==> c.spec_is_within_limit(a.spec_min(b)),
        a.spec_min(b) == b.spec_min(a),
        a.spec_is_within_limit(a),
{
}

/// A table could not be registered.
#[derive(Copy, Clone, Debug, Eq, PartialEq, Structural)]
pub enum TableRegisterError {
    /// All table ids are taken.
    OutOfTables,
}

/// A slot could not be allocated.
#[derive(Copy, Clone, Debug, Eq, PartialEq, Structural)]
pub enum SlotAllocationError {
    /// All slots of the table, whose capacity is given, are in use.
    NoMoreCapacity(u32),
}

/// The strong references of a buffer could not be collected.
#[derive(Copy, Clone, Debug, Eq, PartialEq, Structural)]
pub enum BackingRefsError {
    /// The descriptor of the kind, id and version was no longer alive while a strong reference to it existed.
    NoLongerAlive(DescContentType, u32, u32),
}

} // verus!
