use std::cmp::Ordering;
use vulkano_bindless::ab::{ABArray, AB};
use vulkano_bindless::descriptor::{Buffer, DescContentType, Desc, DescriptorId, MetadataCpu, Strong, Transient, Weak};
use vulkano_bindless::descriptor_counts::DescriptorCounts;
use vulkano_bindless::frame_in_flight::{FrameInFlight, SeedCounter, SeedInFlight};
use vulkano_bindless::rc_slots::VersionState;
use vulkano_bindless::table_id::{DescriptorTypeRegistration, TableId, TableIdCounter, TableIdRegistration, RESERVED_TABLES, TABLE_COUNT};
use vulkano_bindless::timestamp::Timestamp;

#[test]
fn timestamp_compare_wrapping() {
    let a = Timestamp::new(5);
    assert_eq!(a.compare_wrapping(&Timestamp::new(5)), Some(Ordering::Equal));
    assert_eq!(a.compare_wrapping(&Timestamp::new(6)), Some(Ordering::Less));
    assert_eq!(a.compare_wrapping(&Timestamp::new(4)), Some(Ordering::Greater));
    // across the wrap
    assert_eq!(Timestamp::new(u32::MAX).compare_wrapping(&Timestamp::new(2)), Some(Ordering::Less));
    assert_eq!(Timestamp::new(2).compare_wrapping(&Timestamp::new(u32::MAX)), Some(Ordering::Greater));
    // a quarter of the range is the farthest still ordered
    assert_eq!(Timestamp::new(0).compare_wrapping(&Timestamp::new(0x3FFF_FFFF)), Some(Ordering::Less));
    assert_eq!(Timestamp::new(0).compare_wrapping(&Timestamp::new(0x4000_0000)), None);
    assert_eq!(Timestamp::new(0x4000_0000).compare_wrapping(&Timestamp::new(0)), None);
    assert_eq!(Timestamp::new(0).compare_wrapping(&Timestamp::new(0xC000_0000)), None);
    assert_eq!(Timestamp::new(0x3FFF_FFFF).compare_wrapping(&Timestamp::new(0)), Some(Ordering::Greater));
    assert!(Timestamp::new(1).is_le_wrapping(&Timestamp::new(1)));
    assert!(Timestamp::new(1).is_le_wrapping(&Timestamp::new(2)));
    assert!(!Timestamp::new(3).is_le_wrapping(&Timestamp::new(2)));
    assert!(Timestamp::new(3).is_ge_wrapping(&Timestamp::new(2)));
    assert_eq!(Timestamp::new(9).get(), 9);
}

#[test]
fn ab_other_and_numbers() {
    assert_eq!(!AB::A, AB::B);
    assert_eq!(!AB::B, AB::A);
    assert_eq!(AB::A.to_u32(), 0);
    assert_eq!(AB::B.to_u32(), 1);
    assert_eq!(AB::from_u32(1), Some(AB::B));
    assert_eq!(AB::from_u32(2), None);
    let mut arr = ABArray::new(|| 3u32);
    *arr.index_mut(AB::B) += 1;
    arr.set(AB::A, 7);
    assert_eq!(*arr.index(AB::A), 7);
    assert_eq!(*arr.index(AB::B), 4);
}

#[test]
fn descriptor_id_packs_and_unpacks() {
    let id = DescriptorId::new(DescContentType::Sampler, 0x1_2345, 0xABC);
    assert_eq!(id.content_type(), DescContentType::Sampler);
    assert_eq!(id.index(), 0x1_2345);
    assert_eq!(id.version(), 0xABC);
    // parts are cut to their widths
    let id = DescriptorId::new(DescContentType::Image, 0x4_0001, 0x1001);
    assert_eq!(id.content_type(), DescContentType::Image);
    assert_eq!(id.index(), 1);
    assert_eq!(id.version(), 1);
    assert_eq!(DescContentType::from_u32(3), None);
    assert_eq!(DescContentType::from_u32(0), Some(DescContentType::Buffer));
}

#[test]
fn descriptor_references() {
    let weak = Desc::<Weak, Buffer<u32>>::new(4, 2);
    assert_eq!(weak.id(), 4);
    assert_eq!(weak.version(), 2);
    assert_eq!(weak.upgrade_unchecked().id(), 4);

    let strong = Desc::<Strong, Buffer<u32>>::new(9, 3);
    assert_eq!(strong.id(), 9);
    assert_eq!(strong.version_cpu(), 3);
    let mut counter = SeedCounter::new();
    let frame = FrameInFlight::new(SeedInFlight::new(&mut counter, 1), 0);
    assert_eq!(strong.to_transient(frame).id(), 9);

    let mut meta = MetadataCpu::new();
    let transfer = strong.r.write_cpu(&mut meta);
    let back = Strong::read(transfer);
    let back = Desc::<Strong, Buffer<u32>>::new_inner(back);
    assert_eq!(back.id(), 9);
    assert_eq!(back.version_cpu(), 0);

    let transient = Desc::<Transient, Buffer<u32>>::new(12);
    let t = Transient::read(transient.r.write_cpu());
    assert_eq!(Desc::<Transient, Buffer<u32>>::new_inner(t).id(), 12);
    let any = transient.into_any();
    assert_eq!(Desc::<Transient, Buffer<u32>>::new_inner(any.r).id(), 12);
}

#[test]
fn descriptor_counts_are_capped() {
    let defaults = DescriptorCounts::reasonable_default_counts();
    assert_eq!(defaults, DescriptorCounts { buffers: 10_000, image: 10_000, samplers: 400 });
    let limits = DescriptorCounts { buffers: 500, image: 1_000_000, samplers: 4000 };
    let counts = DescriptorCounts::reasonable_defaults(limits);
    assert_eq!(counts, DescriptorCounts { buffers: 500, image: 10_000, samplers: 400 });
    assert!(counts.is_within_limit(limits));
    assert!(!defaults.is_within_limit(limits));
    assert_eq!(limits.min(defaults), defaults.min(limits));
}

#[test]
fn table_ids_are_registered_once() {
    assert_eq!(TableId::new(TABLE_COUNT), None);
    assert_eq!(TableId::new(1).unwrap().to_u32(), 1);
    assert_eq!(TableId::new(2).unwrap().to_usize(), 2);

    // the buffer, storage image and sampled image tables are reserved
    assert_eq!(RESERVED_TABLES, 3);
    let mut counter = TableIdCounter::new();
    for id in 0..RESERVED_TABLES {
        let mut reserved = DescriptorTypeRegistration::new_reserved(id);
        assert_eq!(reserved.get(&mut counter).to_u32(), id);
        assert_eq!(reserved.get(&mut counter).to_u32(), id);
    }
    // the one id after the reserved ones is handed out once, and kept
    let mut registration = TableIdRegistration::new();
    assert_eq!(registration.get(&mut counter).to_u32(), 3);
    assert_eq!(registration.get(&mut counter).to_u32(), 3);
    let _unregistered = TableIdRegistration::new();
}

#[test]
fn descriptor_type_registration_takes_next_id() {
    let mut counter = TableIdCounter::new();
    let mut fresh = DescriptorTypeRegistration::new();
    assert_eq!(fresh.get(&mut counter).to_u32(), RESERVED_TABLES);
    assert_eq!(fresh.get(&mut counter).to_u32(), RESERVED_TABLES);
}

#[test]
fn version_states() {
    assert_eq!(VersionState::from(0), VersionState::Dead);
    assert_eq!(VersionState::from(5), VersionState::Alive);
    assert_eq!(VersionState::from(6), VersionState::Reaper);
    assert_eq!(VersionState::Reaper.to_u32(), 2);
}

#[test]
fn unchecked_descriptor_keeps_its_id() {
    let id = DescriptorId::new(DescContentType::Buffer, 3, 1);
    let desc = Desc::<DescriptorId, Buffer<u32>>::new(id);
    assert_eq!(desc.id(), id);
}

#[test]
fn buffer_slice_bounds() {
    let words = [0u32; 4];
    let slice = vulkano_bindless::descriptor::BufferSlice::<u32>::new(&words);
    assert_eq!(slice.element_offset(3, 4), Some(12));
    assert_eq!(slice.element_offset(4, 4), None);
    assert_eq!(slice.element_offset(1, 8), Some(8));
    assert_eq!(slice.element_offset(2, 8), None);
    assert_eq!(slice.element_offset(usize::MAX, 2), None);
    assert!(slice.fits_at_offset(12, 4));
    assert!(!slice.fits_at_offset(13, 4));
    assert!(!slice.fits_at_offset(usize::MAX, 4));
}
