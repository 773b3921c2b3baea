use vstd::prelude::*;
use core::ops::Not;
use vstd::std_specs::ops::NotSpecImpl;

verus! {

/// One of the two alternating halves used for double buffering.
#[derive(Debug, Copy, Clone, PartialEq, Eq, Structural)]
pub enum AB {
    A,
    B,
}

impl AB {
    /// The number a half is stored as.
    pub open spec fn spec_to_u32(self) -> u32 {
        match self {
            AB::A => 0,
            AB::B => 1,
        }
    }

    /// The other half.
    pub open spec fn other(self) -> AB {
        match self {
            AB::A => AB::B,
            AB::B => AB::A,
        }
    }

    pub fn to_u32(&self) -> (r: u32)
        ensures
            r == self.spec_to_u32(),
    {
        match self {
            AB::A => 0,
            AB::B => 1,
        }
    }

    pub fn from_u32(value: u32) -> (r: Option<Self>)
        ensures
            r == (if value == 0 {
                Some(AB::A)
            } else if value == 1 {
                Some(AB::B)
            } else {
                None::<AB>
            }),
    {
        match value {
            0 => Some(AB::A),
            1 => Some(AB::B),
            _ => None,
        }
    }
}

impl Not for AB {
    type Output = AB;

    #[inline]
    fn not(self) -> (r: Self::Output) {
        match self {
            AB::A => AB::B,
            AB::B => AB::A,
        }
    }
}

impl NotSpecImpl for AB {
    open spec fn obeys_not_spec() -> bool {
        true
    }

    open spec fn not_req(self) -> bool {
        true
    }

    open spec fn not_spec(self) -> AB {
        self.other()
    }
}

/// Converting a half to its number and back gives the half, and taking the other half twice gives the half.
pub proof fn lemma_ab_round_trip(ab: AB)
    ensures
        (if ab.spec_to_u32() == 0 { Some(AB::A) } else if ab.spec_to_u32() == 1 { Some(AB::B) } else { None::<AB> })
            == Some(ab),
        ab.other().other() == ab,
        ab.other() != ab,
{
}

/// An `[T; 2]` that can be indexed by [`AB`].
pub struct ABArray<T>([T; 2]);

impl<T> ABArray<T> {
    /// The element for a half.
    pub closed spec fn at(&self, ab: AB) -> T {
        match ab {
            AB::A => self.0@[0],
            AB::B => self.0@[1],
        }
    }

    /// Creates the array by calling `f` once for each half, `A` first.
    #[inline]
    pub fn new<F: Fn() -> T>(f: F) -> (r: Self)
        requires
            f.requires(()),
        ensures
            f.ensures((), r.at(AB::A)),
            f.ensures((), r.at(AB::B)),
    {
        let a = f();
        let b = f();
        ABArray([a, b])
    }

    /// The element for a half.
    #[inline]
    pub fn index(&self, index: AB) -> (r: &T)
        ensures
            *r == self.at(index),
    {
        match index {
            AB::A => &self.0[0],
            AB::B => &self.0[1],
        }
    }

    /// Mutable access to the element for a half.
    pub fn index_mut(&mut self, index: AB) -> (r: &mut T)
        ensures
            *r == old(self).at(index),
            final(self).at(index) == *final(r),
            final(self).at(index.other()) == old(self).at(index.other()),
    {
        match index {
            AB::A => &mut self.0[0],
            AB::B => &mut self.0[1],
        }
    }

    /// Replaces the element for a half.
    pub fn set(&mut self, index: AB, value: T)
        ensures
            final(self).at(index) == value,
            final(self).at(index.other()) == old(self).at(index.other()),
    {
        match index {
            AB::A => {
                self.0[0] = value;
            },
            AB::B => {
                self.0[1] = value;
            },
        }
    }
}

} // verus!
