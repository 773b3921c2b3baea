use vstd::prelude::*;

verus! {

/// The most frames that may be in flight at the same time.
pub const FRAMES_LIMIT: u32 = 3;

/// Hands out the seeds of [`SeedInFlight`]s; seeds repeat only after wrapping around `u16`.
pub struct SeedCounter {
    next: u16,
}

impl SeedCounter {
    /// The seed the next [`SeedInFlight`] will receive.
    pub closed spec fn peek(&self) -> u16 {
        self.next
    }

    pub fn new() -> (r: Self)
        ensures
            r.peek() == 42,
    {
        SeedCounter { next: 42 }
    }

    /// Takes the next seed.
    fn next_seed(&mut self) -> (seed: u16)
        ensures
            seed == old(self).peek(),
            final(self).peek() == (if old(self).peek() == u16::MAX { 0 } else { (old(self).peek() + 1) as u16 }),
    {
        let seed = self.next;
        self.next = if seed == u16::MAX { 0 } else { seed + 1 };
        seed
    }
}

/// The configuration of the frame in flight system: how many frames may be in flight, and a seed that keeps
/// frames and resources of different configurations from being mixed.
#[derive(Copy, Clone, Debug, Ord, PartialOrd, Eq, PartialEq, Structural)]
pub struct SeedInFlight {
    seed: u16,
    frames_in_flight: u8,
}

impl SeedInFlight {
    pub closed spec fn spec_seed(&self) -> u16 {
        self.seed
    }

    pub closed spec fn spec_frames_in_flight(&self) -> nat {
        self.frames_in_flight as nat
    }

    /// A configuration with a fresh seed from `counter`, of at most [`FRAMES_LIMIT`] frames.
    pub fn new(counter: &mut SeedCounter, frames_in_flight: u32) -> (r: Self)
        requires
            frames_in_flight <= FRAMES_LIMIT,
        ensures
            r.spec_seed() == old(counter).peek(),
            r.spec_frames_in_flight() == frames_in_flight,
            final(counter).peek() == (if old(counter).peek() == u16::MAX { 0 } else { (old(counter).peek() + 1) as u16 }),
    {
        let seed = counter.next_seed();
        Self::assemble(seed, frames_in_flight)
    }

    /// A configuration with the given seed; the seed must never repeat, which [`Self::new`] ensures, and there are at
    /// most [`FRAMES_LIMIT`] frames.
    pub fn assemble(seed: u16, frames_in_flight: u32) -> (r: Self)
        requires
            frames_in_flight <= FRAMES_LIMIT,
        ensures
            r.spec_seed() == seed,
            r.spec_frames_in_flight() == frames_in_flight,
    {
        SeedInFlight { seed, frames_in_flight: frames_in_flight as u8 }
    }

    /// All frames of this configuration, in index order.
    pub fn iter(&self) -> (r: Vec<FrameInFlight>)
        ensures
            r@.len() == self.spec_frames_in_flight(),
            forall|i: int| 0 <= i < r@.len() ==> #[trigger] r@[i].spec_seed() == *self && r@[i].spec_index() == i,
    {
        let mut v: Vec<FrameInFlight> = Vec::new();
        let mut frame: u32 = 0;
        let n = self.frames_in_flight();
        while frame < n
            invariant
                n == self.spec_frames_in_flight(),
                frame <= n,
                v@.len() == frame,
                forall|i: int| 0 <= i < v@.len() ==> #[trigger] v@[i].spec_seed() == *self && v@[i].spec_index() == i,
            decreases n - frame,
        {
            v.push(FrameInFlight::new(*self, frame));
            frame = frame + 1;
        }
        v
    }

    #[inline(always)]
    pub fn frames_in_flight(&self) -> (r: u32)
        ensures
            r == self.spec_frames_in_flight(),
    {
        self.frames_in_flight as u32
    }

    #[inline(always)]
    pub fn seed(&self) -> (r: u16)
        ensures
            r == self.spec_seed(),
    {
        self.seed
    }
}

/// Seeds taken one after another from one counter differ until the counter wraps around.
pub proof fn lemma_seeds_differ(a: SeedInFlight, b: SeedInFlight)
    requires
        a.spec_seed() != b.spec_seed(),
    ensures
        a != b,
{
}

/// The index of a frame that is in flight, for one configuration.
#[derive(Copy, Clone, Debug)]
pub struct FrameInFlight {
    seed: SeedInFlight,
    index: u8,
}

impl FrameInFlight {
    /// A frame's index is below the number of frames of its configuration.
    #[verifier::type_invariant]
    spec fn index_in_range(&self) -> bool {
        self.index < self.seed.frames_in_flight
    }

    pub closed spec fn spec_seed(&self) -> SeedInFlight {
        self.seed
    }

    pub closed spec fn spec_index(&self) -> nat {
        self.index as nat
    }

    /// The frame of index `index` of a configuration.
    pub closed spec fn spec_new(seed: SeedInFlight, index: nat) -> FrameInFlight {
        FrameInFlight { seed, index: index as u8 }
    }

    /// The frame of index `index` of a configuration. The index must be below the number of frames of
    /// the configuration.
    #[inline]
    pub fn new(seed: SeedInFlight, index: u32) -> (r: Self)
        requires
            index < seed.spec_frames_in_flight(),
        ensures
            r.spec_seed() == seed,
            r.spec_index() == index,
            r == FrameInFlight::spec_new(seed, index as nat),
    {
        FrameInFlight { seed, index: index as u8 }
    }

    #[inline(always)]
    pub fn index(&self) -> (r: usize)
        ensures
            r == self.spec_index(),
    {
        self.index as usize
    }

    #[inline(always)]
    pub fn seed(&self) -> (r: SeedInFlight)
        ensures
            r == self.spec_seed(),
    {
        self.seed
    }
}

/// Moves the elements of an array into a vector, in order.
///
/// Calls `Vec::from` on the array, which std documents as allocating a `Vec` and moving the array's items into it.
#[verifier::external_body]
fn array_into_vec<T, const N: usize>(array: [T; N]) -> (r: Vec<T>)
    ensures
        r@ == array@,
{
    Vec::from(array)
}

/// A resource that is allocated once for each frame that may be in flight at the same time.
pub struct ResourceInFlight<T> {
    vec: Vec<T>,
    seed: SeedInFlight,
}

impl<T> ResourceInFlight<T> {
    /// The resources, by frame index.
    pub closed spec fn view(&self) -> Seq<T> {
        self.vec@
    }

    pub closed spec fn spec_seed(&self) -> SeedInFlight {
        self.seed
    }

    /// Calls `f` once for each frame of `seed`, in index order, to create the resource of that frame.
    pub fn new<F: Fn(FrameInFlight) -> T>(seed: SeedInFlight, f: F) -> (r: Self)
        requires
            forall|i: u32| i < seed.spec_frames_in_flight() ==> f.requires((FrameInFlight::spec_new(seed, i as nat),)),
        ensures
            r.spec_seed() == seed,
            r@.len() == seed.spec_frames_in_flight(),
            forall|i: int|
                0 <= i < r@.len() ==> f.ensures((FrameInFlight::spec_new(seed, i as nat),), #[trigger] r@[i]),
    {
        let mut vec: Vec<T> = Vec::new();
        let mut i: u32 = 0;
        let n = seed.frames_in_flight();
        while i < n
            invariant
                n == seed.spec_frames_in_flight(),
                n <= 255,
                i <= n,
                vec@.len() == i,
                forall|j: u32| j < seed.spec_frames_in_flight() ==> f.requires((FrameInFlight::spec_new(seed, j as nat),)),
                forall|j: int| 0 <= j < i ==> f.ensures((FrameInFlight::spec_new(seed, j as nat),), #[trigger] vec@[j]),
            decreases n - i,
        {
            let fif = FrameInFlight::new(seed, i);
            vec.push(f(fif));
            i = i + 1;
        }
        ResourceInFlight { vec, seed }
    }

    /// The resources of the frames, given in index order, one for each frame of
    /// `seed`.
    pub fn new_array<const N: usize>(seed: SeedInFlight, resources: [T; N]) -> (r: Self)
        requires
            seed.spec_frames_in_flight() == N,
        ensures
            r.spec_seed() == seed,
            r@ == resources@,
    {
        ResourceInFlight { vec: array_into_vec(resources), seed }
    }

    #[inline(always)]
    pub fn seed(&self) -> (r: SeedInFlight)
        ensures
            r == self.spec_seed(),
    {
        self.seed
    }

    /// The resource of a frame, which must be of the same configuration.
    pub fn index(&self, index: FrameInFlight) -> (r: &T)
        requires
            self.wf(),
            index.spec_seed() == self.spec_seed(),
        ensures
            *r == self@[index.spec_index() as int],
    {
        proof {
            use_type_invariant(&index);
        }
        &self.vec[index.index()]
    }

    /// Mutable access to the resource of a frame, which must be of the same configuration.
    pub fn index_mut(&mut self, index: FrameInFlight) -> (r: &mut T)
        requires
            old(self).wf(),
            index.spec_seed() == old(self).spec_seed(),
        ensures
            *r == old(self)@[index.spec_index() as int],
            final(self).wf(),
            final(self).spec_seed() == old(self).spec_seed(),
            final(self)@ == old(self)@.update(index.spec_index() as int, *final(r)),
    {
        proof {
            use_type_invariant(&index);
        }
        &mut self.vec[index.index()]
    }

    /// There is one resource for each frame of the configuration.
    pub open spec fn wf(&self) -> bool {
        self@.len() == self.spec_seed().spec_frames_in_flight()
    }
}

impl<T: Clone> Clone for ResourceInFlight<T> {
    /// Clones the resource of each frame.
    fn clone(&self) -> (r: Self)
        ensures
            r.spec_seed() == self.spec_seed(),
            r@.len() == self@.len(),
            forall|i: int| 0 <= i < r@.len() ==> cloned(self@[i], #[trigger] r@[i]),
    {
        let mut vec: Vec<T> = Vec::new();
        let mut i: usize = 0;
        while i < self.vec.len()
            invariant
                i <= self.vec@.len(),
                vec@.len() == i,
                forall|j: int| 0 <= j < i ==> cloned(self.vec@[j], #[trigger] vec@[j]),
            decreases self.vec@.len() - i,
        {
            vec.push(self.vec[i].clone());
            i = i + 1;
        }
        ResourceInFlight { vec, seed: self.seed }
    }
}

/// Hands out the frames in flight one after another, and keeps the fence of the latest frame of each index until
/// the frame after it starts.
pub struct FrameManager<F> {
    frame_id_mod: u32,
    prev_frame: ResourceInFlight<Option<F>>,
}

impl<F> FrameManager<F> {
    /// The index of the frame started last.
    pub closed spec fn frame_id(&self) -> u32 {
        self.frame_id_mod
    }

    /// The fence kept for each frame index.
    pub closed spec fn fences(&self) -> Seq<Option<F>> {
        self.prev_frame@
    }

    pub closed spec fn spec_seed(&self) -> SeedInFlight {
        self.prev_frame.spec_seed()
    }

    pub closed spec fn wf(&self) -> bool {
        &&& self.prev_frame.wf()
        &&& self.frame_id_mod < self.spec_seed().spec_frames_in_flight()
    }

    /// A manager of `frames_in_flight` frames, with a fresh seed from `counter`. The first frame started gets index
    /// `0`.
    pub fn new(counter: &mut SeedCounter, frames_in_flight: u32) -> (r: Self)
        requires
            1 <= frames_in_flight <= FRAMES_LIMIT,
        ensures
            r.wf(),
            r.spec_seed().spec_seed() == old(counter).peek(),
            r.spec_seed().spec_frames_in_flight() == frames_in_flight,
            final(counter).peek() == (if old(counter).peek() == u16::MAX { 0 } else { (old(counter).peek() + 1) as u16 }),
            r.frame_id() == frames_in_flight - 1,
            r.fences().len() == frames_in_flight,
            forall|i: int| 0 <= i < r.fences().len() ==> #[trigger] r.fences()[i] == None::<F>,
    {
        let seed = SeedInFlight::new(counter, frames_in_flight);
        let prev_frame = ResourceInFlight::new(seed, |fif: FrameInFlight| -> (r: Option<F>)
            ensures
                r == None::<F>,
            { None });
        FrameManager { frame_id_mod: seed.frames_in_flight() - 1, prev_frame }
    }

    /// Starts a new frame, the one after the frame started last, wrapping around after the last index. Gives the
    /// frame, and takes out the fence of the frame started last, which must be waited on before this frame is
    /// recorded.
    pub fn begin_frame(&mut self) -> (r: (FrameInFlight, Option<F>))
        requires
            old(self).wf(),
        ensures
            final(self).wf(),
            final(self).spec_seed() == old(self).spec_seed(),
            final(self).frame_id() == (old(self).frame_id() + 1) % (old(self).spec_seed().spec_frames_in_flight() as int),
            r.0.spec_seed() == old(self).spec_seed(),
            r.0.spec_index() == final(self).frame_id(),
            r.1 == old(self).fences()[old(self).frame_id() as int],
            final(self).fences() == old(self).fences().update(old(self).frame_id() as int, None),
    {
        let seed = self.prev_frame.seed();
        let frame_id_prev = self.frame_id_mod;
        let frame_id = (frame_id_prev + 1) % seed.frames_in_flight();
        self.frame_id_mod = frame_id;
        let fif = FrameInFlight::new(seed, frame_id);
        let fif_prev = FrameInFlight::new(seed, frame_id_prev);
        let prev = self.prev_frame.index_mut(fif_prev).take();
        (fif, prev)
    }

    /// Keeps the fence of a frame, until the frame after it starts.
    pub fn end_frame(&mut self, frame: FrameInFlight, fence: Option<F>)
        requires
            old(self).wf(),
            frame.spec_seed() == old(self).spec_seed(),
        ensures
            final(self).wf(),
            final(self).spec_seed() == old(self).spec_seed(),
            final(self).frame_id() == old(self).frame_id(),
            final(self).fences() == old(self).fences().update(frame.spec_index() as int, fence),
    {
        *self.prev_frame.index_mut(frame) = fence;
    }

    #[inline(always)]
    pub fn seed(&self) -> (r: SeedInFlight)
        ensures
            r == self.spec_seed(),
    {
        self.prev_frame.seed()
    }
}

} // verus!
