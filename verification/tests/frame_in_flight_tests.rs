use std::rc::Rc;
use vulkano_bindless::frame_in_flight::{FrameInFlight, ResourceInFlight, SeedCounter, SeedInFlight, FRAMES_LIMIT};

#[test]
fn resource_happy() {
    let mut seeds = SeedCounter::new();
    for n in 0..FRAMES_LIMIT {
        let seed = SeedInFlight::new(&mut seeds, n);
        let resource = ResourceInFlight::new(seed, |i| i.index() as u32);

        for i in 0..n {
            let fif = FrameInFlight::new(seed, i);
            assert_eq!(*resource.index(fif), i);
        }
    }
}

fn resource_from_array_n<const N: usize>(seeds: &mut SeedCounter, array: [i32; N]) {
    let seed = SeedInFlight::new(seeds, array.len() as u32);
    let resource = ResourceInFlight::new_array(seed, array);

    for (i, value) in array.into_iter().enumerate() {
        let fif = FrameInFlight::new(seed, i as u32);
        assert_eq!(*resource.index(fif), value);
    }
}

#[test]
fn resource_from_array() {
    let mut seeds = SeedCounter::new();
    resource_from_array_n(&mut seeds, []);
    resource_from_array_n(&mut seeds, [42]);
    resource_from_array_n(&mut seeds, [42, 69]);
    resource_from_array_n(&mut seeds, [42, 69, -12345]);
}

#[test]
fn resource_drop() {
    let mut seeds = SeedCounter::new();
    for i in 0..FRAMES_LIMIT {
        let seed = SeedInFlight::new(&mut seeds, i);
        let rc = Rc::new(());
        assert_eq!(Rc::strong_count(&rc), 1);

        let resource = ResourceInFlight::new(seed, |_| rc.clone());
        assert_eq!(Rc::strong_count(&rc), i as usize + 1);

        drop(resource);
        assert_eq!(Rc::strong_count(&rc), 1);
    }
}

#[test]
fn resource_clone_drop() {
    let mut seeds = SeedCounter::new();
    for i in 0..FRAMES_LIMIT {
        let seed = SeedInFlight::new(&mut seeds, i);
        let rc = Rc::new(());
        assert_eq!(Rc::strong_count(&rc), 1);

        let resource = ResourceInFlight::new(seed, |_| rc.clone());
        assert_eq!(Rc::strong_count(&rc), i as usize + 1);

        let resource2 = resource.clone();
        assert_eq!(Rc::strong_count(&rc), i as usize * 2 + 1);

        drop(resource);
        assert_eq!(Rc::strong_count(&rc), i as usize + 1);

        drop(resource2);
        assert_eq!(Rc::strong_count(&rc), 1);
    }
}
