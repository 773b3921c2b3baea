use vulkano_bindless::flush::{image_invalidations, image_update_writes, range_writes, DescriptorWrite, FlushQueue, ImageUpdateBuffer, ImageUsage};
use vulkano_bindless::pipeline_layout::{pipeline_layout_index, push_constant_range_size, push_constant_words};
use vulkano_bindless::range_set::DescriptorIndexRangeSet;

fn w(binding: u32, first_array_element: u32, count: u32) -> DescriptorWrite {
    DescriptorWrite { binding, first_array_element, count }
}

fn u(storage: bool, sampled: bool) -> ImageUsage {
    ImageUsage { storage, sampled }
}

#[test]
fn image_writes_split_runs_per_binding() {
    let usages = vec![u(true, true), u(true, false), u(false, true), u(false, false), u(true, true)];
    let writes = image_update_writes(0, 1, 10, &usages);
    assert_eq!(writes, vec![w(1, 10, 1), w(0, 10, 2), w(1, 12, 1), w(0, 14, 1), w(1, 14, 1)]);
}

#[test]
fn image_writes_of_nothing() {
    assert_eq!(image_update_writes(0, 1, 0, &vec![]), vec![]);
    assert_eq!(image_update_writes(0, 1, 5, &vec![u(false, false); 3]), vec![]);
}

#[test]
fn image_writes_one_run_each() {
    let writes = image_update_writes(2, 3, 0, &vec![u(true, true); 4]);
    assert_eq!(writes, vec![w(2, 0, 4), w(3, 0, 4)]);
}

#[test]
fn update_buffer_flush_skips_the_image() {
    let mut buf = ImageUpdateBuffer::new(7);
    let mut writes = Vec::new();
    buf.start(3);
    buf.advance_push();
    buf.advance_push();
    buf.advance_flush(&mut writes);
    buf.advance_flush(&mut writes);
    buf.advance_push();
    buf.advance_flush(&mut writes);
    assert_eq!(writes, vec![w(7, 3, 2), w(7, 7, 1)]);
}

#[test]
fn range_writes_one_per_range() {
    let mut set = DescriptorIndexRangeSet::new();
    for i in [1, 2, 3, 7] {
        set.insert(i);
    }
    assert_eq!(range_writes(3, &set), vec![w(3, 1, 3), w(3, 7, 1)]);
    assert_eq!(range_writes(3, &DescriptorIndexRangeSet::new()), vec![]);
}

#[test]
fn flush_queue_takes_everything_once() {
    let mut queue = FlushQueue::new();
    for i in [4, 5, 9] {
        queue.push(i);
    }
    let taken = queue.take();
    assert_eq!(taken.iter(), vec![4, 5, 9]);
    assert_eq!(range_writes(2, &taken), vec![w(2, 4, 2), w(2, 9, 1)]);
    assert_eq!(queue.take().iter(), Vec::<u32>::new());
}

#[test]
fn push_constant_layouts() {
    assert_eq!(push_constant_words(0), 0);
    assert_eq!(push_constant_words(4), 1);
    assert_eq!(push_constant_words(5), 2);
    assert_eq!(push_constant_words(16), 4);
    assert_eq!(pipeline_layout_index(4), Some(4));
    assert_eq!(pipeline_layout_index(5), None);
    assert_eq!(push_constant_range_size(0), None);
    assert_eq!(push_constant_range_size(3), Some(12));
}

#[test]
fn flush_queue_flush_writes_ranges_and_empties() {
    let mut queue = FlushQueue::new();
    for i in [2, 3, 8] {
        queue.push(i);
    }
    assert_eq!(queue.flush(6), vec![w(6, 2, 2), w(6, 8, 1)]);
    assert_eq!(queue.flush(6), vec![]);
}

#[test]
fn flush_images_writes_each_queued_range() {
    let mut queue = FlushQueue::new();
    for index in [7, 2, 3, 4] {
        queue.push(index);
    }
    let usages = vec![
        u(true, true),
        u(true, true),
        u(true, true),
        u(true, false),
        u(false, true),
        u(true, true),
        u(true, true),
        u(true, true),
    ];
    let writes = queue.flush_images(0, 1, &usages);
    assert_eq!(writes, vec![w(1, 2, 1), w(0, 2, 2), w(1, 4, 1), w(0, 7, 1), w(1, 7, 1)]);
    assert!(queue.flush_images(0, 1, &usages).is_empty());
}

#[test]
fn flush_images_skips_images_without_usage() {
    let mut queue = FlushQueue::new();
    queue.push(0);
    queue.push(1);
    let writes = queue.flush_images(3, 4, &vec![u(false, false), u(false, true)]);
    assert_eq!(writes, vec![w(4, 1, 1)]);
}

#[test]
fn dropped_image_invalidates_its_bindings() {
    assert_eq!(image_invalidations(0, 1, 5, u(true, true)), vec![w(1, 5, 1), w(0, 5, 1)]);
    assert_eq!(image_invalidations(0, 1, 5, u(true, false)), vec![w(0, 5, 1)]);
    assert_eq!(image_invalidations(0, 1, 6, u(false, true)), vec![w(1, 6, 1)]);
    assert!(image_invalidations(0, 1, 6, u(false, false)).is_empty());
}
