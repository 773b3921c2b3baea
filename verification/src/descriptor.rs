use vstd::prelude::*;
use core::marker::PhantomData;
use crate::frame_in_flight::FrameInFlight;

verus! {

pub const ID_INDEX_BITS: u32 = 18;
pub const ID_TYPE_BITS: u32 = 2;
pub const ID_VERSION_BITS: u32 = 12;

pub const ID_INDEX_MASK: u32 = 0x3_FFFF;
pub const ID_TYPE_MASK: u32 = 0x3;
pub const ID_VERSION_MASK: u32 = 0xFFF;

pub const ID_INDEX_SHIFT: u32 = 0;
pub const ID_TYPE_SHIFT: u32 = 18;
pub const ID_VERSION_SHIFT: u32 = 20;

/// The kind of content a descriptor points to.
#[derive(Copy, Clone, Debug, Eq, PartialEq, Structural)]
pub enum DescContentType {
    Buffer,
    Image,
    Sampler,
}

impl DescContentType {
    /// The number a kind is stored as in a [`DescriptorId`].
    pub open spec fn spec_to_u32(self) -> u32 {
        match self {
            DescContentType::Buffer => 0,
            DescContentType::Image => 1,
            DescContentType::Sampler => 2,
        }
    }

    pub fn to_u32(self) -> (r: u32)
        ensures
            r == self.spec_to_u32(),
    {
        match self {
            DescContentType::Buffer => 0,
            DescContentType::Image => 1,
            DescContentType::Sampler => 2,
        }
    }

    pub fn from_u32(value: u32) -> (r: Option<Self>)
        ensures
            value < 3 ==> (r matches Some(t) && t.spec_to_u32() == value),
            value >= 3 ==> r is None,
    {
        match value {
            0 => Some(DescContentType::Buffer),
            1 => Some(DescContentType::Image),
            2 => Some(DescContentType::Sampler),
            _ => None,
        }
    }
}

/// The bits of a [`DescriptorId`] of a kind, index and version: the index in the low 18 bits, then the kind in
/// 2 bits, then the version in the high 12 bits, each cut to its width.
pub open spec fn id_bits(content_type: u32, index: u32, version: u32) -> u32 {
    ((content_type & ID_TYPE_MASK) << ID_TYPE_SHIFT) | ((index & ID_INDEX_MASK) << ID_INDEX_SHIFT) | ((version
        & ID_VERSION_MASK) << ID_VERSION_SHIFT)
}

/// A descriptor id that does not verify that the resource is actually alive: the basis of most other descriptor
/// types.
#[derive(Copy, Clone, Debug, PartialEq, Eq, Structural)]
pub struct DescriptorId(u32);

impl DescriptorId {
    /// The kind bits of an id never hold the unused kind `3`.
    #[verifier::type_invariant]
    spec fn valid_kind(&self) -> bool {
        (self.0 >> ID_TYPE_SHIFT) & ID_TYPE_MASK != 3
    }

    /// The packed bits.
    pub closed spec fn bits(&self) -> u32 {
        self.0
    }

    /// The id of the slot `index` of version `version` in the table of `content_type`; index and version are cut
    /// to their widths.
    pub fn new(content_type: DescContentType, index: u32, version: u32) -> (r: Self)
        ensures
            r.bits() == id_bits(content_type.spec_to_u32(), index, version),
    {
        let content_type = content_type.to_u32();
        let mut value: u32 = 0;
        value = value | ((content_type & ID_TYPE_MASK) << ID_TYPE_SHIFT);
        value = value | ((index & ID_INDEX_MASK) << ID_INDEX_SHIFT);
        value = value | ((version & ID_VERSION_MASK) << ID_VERSION_SHIFT);
        proof {
            assert(content_type < 3);
            assert(value == id_bits(content_type, index, version)) by (bit_vector)
                requires
                    value == ((0u32 | ((content_type & 3) << 18u32)) | ((index & 0x3_FFFF) << 0u32)) | ((version
                        & 0xFFF) << 20u32),
            ;
            assert(content_type < 3 ==> (id_bits(content_type, index, version) >> 18u32) & 3 != 3) by (bit_vector);
        }
        DescriptorId(value)
    }

    /// The kind of content the id points to.
    pub fn content_type(&self) -> (r: DescContentType)
        ensures
            r.spec_to_u32() == (self.bits() >> ID_TYPE_SHIFT) & ID_TYPE_MASK,
    {
        proof {
            use_type_invariant(self);
        }
        let raw = self.0;
        let bits = (raw >> ID_TYPE_SHIFT) & ID_TYPE_MASK;
        proof {
            assert((raw >> 18u32) & 3 <= 3) by (bit_vector);
        }
        match DescContentType::from_u32(bits) {
            Some(e) => e,
            None => vstd::pervasive::unreached(),
        }
    }

    /// The index of the slot in its table.
    pub fn index(&self) -> (r: u32)
        ensures
            r == (self.bits() >> ID_INDEX_SHIFT) & ID_INDEX_MASK,
    {
        (self.0 >> ID_INDEX_SHIFT) & ID_INDEX_MASK
    }

    /// The version of the slot.
    pub fn version(&self) -> (r: u32)
        ensures
            r == (self.bits() >> ID_VERSION_SHIFT) & ID_VERSION_MASK,
    {
        (self.0 >> ID_VERSION_SHIFT) & ID_VERSION_MASK
    }
}

/// Unpacking an id gives back what it was packed from, each part cut to its width: an index below `2^18`, a
/// version below `2^12` and the kind unchanged.
pub proof fn lemma_id_round_trip(content_type: DescContentType, index: u32, version: u32)
    ensures
        (id_bits(content_type.spec_to_u32(), index, version) >> ID_INDEX_SHIFT) & ID_INDEX_MASK == index % 0x4_0000,
        (id_bits(content_type.spec_to_u32(), index, version) >> ID_VERSION_SHIFT) & ID_VERSION_MASK == version
            % 0x1000,
        (id_bits(content_type.spec_to_u32(), index, version) >> ID_TYPE_SHIFT) & ID_TYPE_MASK
            == content_type.spec_to_u32(),
{
    let c = content_type.spec_to_u32();
    assert(c < 3);
    assert((id_bits(c, index, version) >> 0u32) & 0x3_FFFF == index % 0x4_0000) by (bit_vector);
    assert((id_bits(c, index, version) >> 20u32) & 0xFFF == version % 0x1000) by (bit_vector);
    assert(c < 3 ==> (id_bits(c, index, version) >> 18u32) & 3 == c) by (bit_vector);
}

/// A kind of descriptor content, such as a [`Buffer`].
pub trait DescContent: Sized {
    /// The kind of the content.
    fn content_type() -> DescContentType;
}

/// A typed buffer as descriptor content.
pub struct Buffer<T> {
    _phantom: PhantomData<T>,
}

impl<T> DescContent for Buffer<T> {
    fn content_type() -> (r: DescContentType)
        ensures
            r == DescContentType::Buffer,
    {
        DescContentType::Buffer
    }
}

/// The words of a buffer descriptor, read as values of `T`.
pub struct BufferSlice<'a, T> {
    buffer: &'a [u32],
    _phantom: PhantomData<T>,
}

impl<'a, T> BufferSlice<'a, T> {
    /// The words of the buffer.
    pub closed spec fn words(&self) -> Seq<u32> {
        self.buffer@
    }

    pub fn new(buffer: &'a [u32]) -> (r: Self)
        ensures
            r.words() == buffer@,
    {
        BufferSlice { buffer, _phantom: PhantomData }
    }

    /// The byte offset of the element at `index` of an array of elements of `size` bytes laid out from the start of
    /// the buffer, when the whole element lies within the buffer; `None` when it does not, where a load panics.
    pub fn element_offset(&self, index: usize, size: usize) -> (r: Option<usize>)
        requires
            self.words().len() * 4 <= usize::MAX,
        ensures
            r == (if index * size + size <= self.words().len() * 4 {
                Some((index * size) as usize)
            } else {
                None
            }),
    {
        let len = self.buffer.len() * 4;
        match index.checked_mul(size) {
            None => {
                proof {
                    assert(index * size + size > usize::MAX);
                }
                None
            },
            Some(offset) => {
                if offset <= len && size <= len - offset {
                    Some(offset)
                } else {
                    None
                }
            },
        }
    }

    /// Whether a value of `size` bytes at `byte_offset` lies within the buffer; a load panics where it does not.
    pub fn fits_at_offset(&self, byte_offset: usize, size: usize) -> (r: bool)
        requires
            self.words().len() * 4 <= usize::MAX,
        ensures
            r == (byte_offset + size <= self.words().len() * 4),
    {
        let len = self.buffer.len() * 4;
        byte_offset <= len && size <= len - byte_offset
    }
}

/// The kind of reference a [`Desc`] holds to its content, such as [`Transient`], [`Weak`] or [`Strong`].
pub trait DescRef: Sized {}

/// A [`DescRef`] that somehow ensures the content it points to is alive, so that it can be accessed.
pub trait AliveDescRef: DescRef {
    /// The id of the content.
    spec fn alive_id(&self) -> u32;

    fn id<C: DescContent>(desc: &Desc<Self, C>) -> (r: u32)
        ensures
            r == desc.reference().alive_id(),
    ;
}

/// A generic descriptor: `R` is the kind of reference it holds, `C` the kind of content it points to.
pub struct Desc<R: DescRef, C: DescContent> {
    pub r: R,
    _phantom: PhantomData<C>,
}

impl<R: DescRef, C: DescContent> Desc<R, C> {
    /// The reference held.
    pub closed spec fn reference(&self) -> R {
        self.r
    }

    /// Creates a new Desc from some [`DescRef`]; the content kind `C` must match what the reference points to.
    #[inline]
    pub fn new_inner(r: R) -> (d: Self)
        ensures
            d.reference() == r,
    {
        Desc { r, _phantom: PhantomData }
    }

    /// Forgets the kind of content.
    #[inline]
    pub fn into_any(self) -> (a: AnyDesc<R>)
        ensures
            a.r == self.reference(),
    {
        AnyDesc::new_inner(self.r)
    }
}

impl<R: AliveDescRef, C: DescContent> Desc<R, C> {
    pub fn id(&self) -> (r: u32)
        ensures
            r == self.reference().alive_id(),
    {
        R::id(self)
    }
}

/// A descriptor that does not care for the kind of its content, only for the reference existing.
pub struct AnyDesc<R: DescRef> {
    pub r: R,
}

impl<R: DescRef> AnyDesc<R> {
    #[inline]
    pub fn new_inner(r: R) -> (a: Self)
        ensures
            a.r == r,
    {
        AnyDesc { r }
    }
}

impl DescRef for DescriptorId {}

impl<C: DescContent> Desc<DescriptorId, C> {
    /// A descriptor of the id that is not checked to be alive; `C` must match the content the id points to.
    #[inline]
    pub fn new(id: DescriptorId) -> (d: Self)
        ensures
            d.reference() == id,
    {
        Self::new_inner(id)
    }

    #[inline]
    pub fn id(&self) -> (r: DescriptorId)
        ensures
            r == self.reference(),
    {
        self.r
    }
}

/// A reference that is valid for the current frame only.
#[derive(Copy, Clone)]
pub struct Transient {
    id: u32,
}

impl DescRef for Transient {}

impl AliveDescRef for Transient {
    closed spec fn alive_id(&self) -> u32 {
        self.id
    }

    fn id<C: DescContent>(desc: &Desc<Self, C>) -> (r: u32) {
        desc.r.id
    }
}

impl Transient {
    /// The transferable form of the reference, as it is written to a buffer.
    pub fn write_cpu(self) -> (t: TransferTransient)
        ensures
            t.spec_id() == self.alive_id(),
    {
        TransferTransient { id: self.id }
    }

    /// The reference read back from its transferable form.
    pub fn read(from: TransferTransient) -> (t: Self)
        ensures
            t.alive_id() == from.spec_id(),
    {
        Transient { id: from.id }
    }
}

/// The transferable form of a [`Transient`].
#[derive(Copy, Clone)]
pub struct TransferTransient {
    id: u32,
}

impl TransferTransient {
    pub closed spec fn spec_id(&self) -> u32 {
        self.id
    }
}

impl<C: DescContent> Desc<Transient, C> {
    /// A transient descriptor; `id` must stay valid for the remainder of the frame.
    #[inline]
    pub fn new(id: u32) -> (d: Self)
        ensures
            d.reference().alive_id() == id,
    {
        Self::new_inner(Transient { id })
    }
}

/// A reference that does not keep its content alive.
#[derive(Copy, Clone)]
pub struct Weak {
    id: u32,
    version: u32,
}

impl DescRef for Weak {}

impl Weak {
    pub closed spec fn spec_id(&self) -> u32 {
        self.id
    }

    pub closed spec fn spec_version(&self) -> u32 {
        self.version
    }
}

impl<C: DescContent> Desc<Weak, C> {
    #[inline]
    pub fn new(id: u32, version: u32) -> (d: Self)
        ensures
            d.reference().spec_id() == id,
            d.reference().spec_version() == version,
    {
        Self::new_inner(Weak { id, version })
    }

    #[inline]
    pub fn id(&self) -> (r: u32)
        ensures
            r == self.reference().spec_id(),
    {
        self.r.id
    }

    #[inline]
    pub fn version(&self) -> (r: u32)
        ensures
            r == self.reference().spec_version(),
    {
        self.r.version
    }

    /// Upgrades a weak descriptor to one valid for the current frame, assuming, without checking, that its content
    /// is still alive.
    #[inline]
    pub fn upgrade_unchecked(&self) -> (d: Desc<Transient, C>)
        ensures
            d.reference().alive_id() == self.reference().spec_id(),
    {
        Desc::<Transient, C>::new(self.r.id)
    }
}

/// A reference that keeps its content alive for as long as it exists.
#[derive(Copy, Clone)]
pub struct Strong {
    id: u32,
    /// only used on the CPU to validate that the slot was not reused
    version: u32,
}

impl DescRef for Strong {}

impl AliveDescRef for Strong {
    closed spec fn alive_id(&self) -> u32 {
        self.id
    }

    fn id<C: DescContent>(desc: &Desc<Self, C>) -> (r: u32) {
        desc.r.id
    }
}

impl Strong {
    pub closed spec fn spec_version(&self) -> u32 {
        self.version
    }

    /// The transferable form of the reference; the version stays on the CPU. The metadata visits the reference.
    pub fn write_cpu<M: MetadataCpuInterface>(self, meta: &mut M) -> (t: TransferStrong)
        ensures
            t.spec_id() == self.alive_id(),
            final(meta).visited() == old(meta).visited().push((self.alive_id(), self.spec_version())),
    {
        meta.visit_strong_descriptor(self.id, self.version);
        TransferStrong { id: self.id }
    }

    /// The reference read back from its transferable form, with version zero.
    pub fn read(from: TransferStrong) -> (s: Self)
        ensures
            s.alive_id() == from.spec_id(),
            s.spec_version() == 0,
    {
        Strong { id: from.id, version: 0 }
    }
}

/// The transferable form of a [`Strong`].
#[derive(Copy, Clone)]
pub struct TransferStrong {
    id: u32,
}

impl TransferStrong {
    pub closed spec fn spec_id(&self) -> u32 {
        self.id
    }
}

impl<C: DescContent> Desc<Strong, C> {
    /// A strong descriptor; `id` must be kept alive for as long as it exists.
    #[inline]
    pub fn new(id: u32, version: u32) -> (d: Self)
        ensures
            d.reference().alive_id() == id,
            d.reference().spec_version() == version,
    {
        Self::new_inner(Strong { id, version })
    }

    /// The version of the slot, only known on the CPU.
    pub fn version_cpu(&self) -> (r: u32)
        ensures
            r == self.reference().spec_version(),
    {
        self.r.version
    }

    /// A descriptor valid for the given frame; this strong descriptor keeps the content alive through it.
    #[inline]
    pub fn to_transient(&self, frame: FrameInFlight) -> (d: Desc<Transient, C>)
        ensures
            d.reference().alive_id() == self.reference().alive_id(),
    {
        let _ = frame;
        Desc::<Transient, C>::new(self.id())
    }
}

/// Metadata about an execution, such as the current frame in flight.
#[derive(Copy, Clone)]
pub struct Metadata;

/// The CPU side's view of strong descriptors being written to a buffer.
pub trait MetadataCpuInterface {
    /// The strong descriptors visited so far, as `(id, version)`, oldest first.
    spec fn visited(&self) -> Seq<(u32, u32)>;

    /// Visits a strong descriptor that is being written to a buffer.
    fn visit_strong_descriptor(&mut self, id: u32, version: u32)
        ensures
            final(self).visited() == old(self).visited().push((id, version)),
    ;
}

/// The metadata used on the CPU.
pub struct MetadataCpu {
    metadata: Metadata,
    visits: Ghost<Seq<(u32, u32)>>,
}

impl MetadataCpu {
    pub fn new() -> (r: Self)
        ensures
            r.visited() == Seq::<(u32, u32)>::empty(),
    {
        MetadataCpu { metadata: Metadata, visits: Ghost(Seq::empty()) }
    }

    pub fn metadata(&self) -> (r: Metadata)
        ensures
            r == Metadata,
    {
        self.metadata
    }
}

impl MetadataCpuInterface for MetadataCpu {
    closed spec fn visited(&self) -> Seq<(u32, u32)> {
        self.visits@
    }

    fn visit_strong_descriptor(&mut self, id: u32, version: u32) {
        self.visits = Ghost(self.visits@.push((id, version)));
    }
}

} // verus!
