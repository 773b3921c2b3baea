use vulkano_bindless::range_set::{range_to_descriptor_index, DescriptorIndexRangeSet};

#[test]
fn range_set_merges_touching_indices() {
    let mut set = DescriptorIndexRangeSet::new();
    for i in [5, 3, 4, 9, 10, 0] {
        set.insert(i);
    }
    assert_eq!(set.iter_ranges(), vec![(0, 1), (3, 6), (9, 11)]);
    assert_eq!(set.iter(), vec![0, 3, 4, 5, 9, 10]);
    let inner = set.into_inner();
    assert!(inner.contains(&4));
    assert!(!inner.contains(&6));
}

#[test]
fn range_set_insert_twice_keeps_one() {
    let mut set = DescriptorIndexRangeSet::new();
    set.insert(2);
    set.insert(2);
    assert_eq!(set.iter(), vec![2]);
}

#[test]
fn range_indices_in_order() {
    assert_eq!(range_to_descriptor_index(3, 6), vec![3, 4, 5]);
    assert_eq!(range_to_descriptor_index(6, 3), Vec::<u32>::new());
}
