use vstd::prelude::*;
use core::cmp::Ordering;

verus! {

/// How far `b` is ahead of `a`, counting around the wrap of `u32`.
pub open spec fn wrapping_distance(a: u32, b: u32) -> int {
    if b >= a {
        b - a
    } else {
        b - a + 0x1_0000_0000
    }
}

/// The order of two wrapping timestamps: they are ordered when they are at most `0x3FFF_FFFF` apart (in either
/// direction around the wrap), and not ordered otherwise.
pub open spec fn wrapping_order(a: u32, b: u32) -> Option<Ordering> {
    let d = wrapping_distance(a, b);
    if d == 0 {
        Some(Ordering::Equal)
    } else if d <= 0x3FFF_FFFF {
        Some(Ordering::Less)
    } else if d <= 0xC000_0000 {
        None
    } else {
        Some(Ordering::Greater)
    }
}

/// `a` is at most `b` in the wrapping order.
pub open spec fn wrapping_le(a: u32, b: u32) -> bool {
    wrapping_distance(a, b) <= 0x3FFF_FFFF
}

/// `a` is at least `b` in the wrapping order.
pub open spec fn wrapping_ge(a: u32, b: u32) -> bool {
    wrapping_distance(a, b) == 0 || wrapping_distance(a, b) >= 0xC000_0001
}

/// The two timestamps can be ordered.
pub open spec fn comparable(a: u32, b: u32) -> bool {
    wrapping_order(a, b) is Some
}

/// A point in time that wraps around after `u32::MAX`.
///
/// # Ordering
/// Timestamps are only partially ordered using [`Timestamp::compare_wrapping`] due to being able to wrap around. If
/// two timestamps are within `0x3FFFFFFF` (one quarter of [`u32::MAX`]) of each other, they can be compared.
/// Otherwise, the timestamps are seen as too far apart to be ordered.
#[derive(Copy, Clone, Debug, Eq, PartialEq, Structural)]
pub struct Timestamp(pub u32);

impl Timestamp {
    #[inline]
    pub fn new(value: u32) -> (r: Self)
        ensures
            r.0 == value,
    {
        Timestamp(value)
    }

    pub fn get(&self) -> (r: u32)
        ensures
            r == self.0,
    {
        self.0
    }

    /// See [`Timestamp`] #Ordering.
    pub fn compare_wrapping(&self, other: &Self) -> (r: Option<Ordering>)
        ensures
            r == wrapping_order(self.0, other.0),
    {
        let d = other.0.wrapping_sub(self.0);
        if d == 0 {
            Some(Ordering::Equal)
        } else if d <= 0x3FFF_FFFF {
            Some(Ordering::Less)
        } else if d <= 0xC000_0000 {
            None
        } else {
            Some(Ordering::Greater)
        }
    }

    /// Whether `self` is at most `other`; the timestamps must be comparable.
    pub fn is_le_wrapping(&self, other: &Self) -> (r: bool)
        requires
            comparable(self.0, other.0),
        ensures
            r == wrapping_le(self.0, other.0),
    {
        match self.compare_wrapping(other) {
            Some(Ordering::Less) => true,
            Some(Ordering::Equal) => true,
            Some(Ordering::Greater) => false,
            None => false,
        }
    }

    /// Whether `self` is at least `other`; the timestamps must be comparable.
    pub fn is_ge_wrapping(&self, other: &Self) -> (r: bool)
        requires
            comparable(self.0, other.0),
        ensures
            r == wrapping_ge(self.0, other.0),
    {
        match self.compare_wrapping(other) {
            Some(Ordering::Less) => false,
            Some(Ordering::Equal) => true,
            Some(Ordering::Greater) => true,
            None => false,
        }
    }
}

/// The wrapping order is antisymmetric: `a` is before `b` exactly when `b` is after `a`, every timestamp equals
/// itself, and two timestamps can be ordered in one direction exactly when they can in the other.
pub proof fn lemma_compare_wrapping_antisymmetric(a: Timestamp, b: Timestamp)
    ensures
        wrapping_order(a.0, a.0) == Some(Ordering::Equal),
        (wrapping_order(a.0, b.0) == Some(Ordering::Less)) <==> (wrapping_order(b.0, a.0) == Some(Ordering::Greater)),
        (wrapping_order(a.0, b.0) == Some(Ordering::Equal)) <==> a == b,
        comparable(a.0, b.0) <==> comparable(b.0, a.0),
{
}

} // verus!
