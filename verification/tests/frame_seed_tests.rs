use vulkano_bindless::frame_in_flight::{FrameManager, SeedCounter, SeedInFlight, FRAMES_LIMIT};

#[test]
fn seed_happy() {
    for i in 0..=FRAMES_LIMIT {
        let seed = 0xDEAD + i as u16;
        let s = SeedInFlight::assemble(seed, i);
        assert_eq!(s.frames_in_flight(), i);
        assert_eq!(s.seed(), seed);
        assert_eq!(s, s.clone());
    }

    const SEEDS_TO_CHECK: usize = 5;
    let mut counter = SeedCounter::new();
    let seeds = [(); SEEDS_TO_CHECK].map(|_| SeedInFlight::new(&mut counter, FRAMES_LIMIT));
    (0..SEEDS_TO_CHECK)
        .flat_map(|a| (0..SEEDS_TO_CHECK).map(move |b| (a, b)))
        .filter(|(a, b)| a != b)
        .for_each(|(a, b)| {
            assert_ne!(seeds[a], seeds[b]);
        })
}

#[test]
fn seed_iter_lists_every_frame() {
    let mut counter = SeedCounter::new();
    let seed = SeedInFlight::new(&mut counter, 3);
    let frames = seed.iter();
    assert_eq!(frames.len(), 3);
    for (i, f) in frames.iter().enumerate() {
        assert_eq!(f.index(), i);
        assert_eq!(f.seed(), seed);
    }
}

#[test]
fn frame_manager_cycles_and_hands_back_the_previous_fence() {
    let mut counter = SeedCounter::new();
    let mut fm = FrameManager::<u32>::new(&mut counter, 3);
    let mut indices = Vec::new();
    let mut prevs = Vec::new();
    for fence in 10..15u32 {
        let (fif, prev) = fm.begin_frame();
        assert_eq!(fif.seed(), fm.seed());
        indices.push(fif.index());
        prevs.push(prev);
        // the frame at index 1 fails to render and leaves no fence
        let fence = if fif.index() == 1 { None } else { Some(fence) };
        fm.end_frame(fif, fence);
    }
    assert_eq!(indices, vec![0, 1, 2, 0, 1]);
    assert_eq!(prevs, vec![None, Some(10), None, Some(12), Some(13)]);
}
