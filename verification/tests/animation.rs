use miniko_renderer::animation::{
    copy_layout, texture_kind, AnimSubLayer, AnimationState, FrameStorage, TextureKind,
};

fn frames(n: usize) -> FrameStorage {
    FrameStorage::Frames((0..n).map(|i| vec![i as u8; 4]).collect())
}

fn sub(storage: FrameStorage) -> AnimSubLayer<()> {
    AnimSubLayer { storage, size: (4, 4), uploaded_frame_idx: Some(0), alpha_only: false, gpu: () }
}

#[test]
fn compressed_frames_are_slices() {
    let s = FrameStorage::Compressed { data: (0..12).collect(), frame_bytes: 4, frame_count: 3 };
    assert_eq!(s.frame_count(), 3);
    assert!(s.is_compressed());
    assert_eq!(s.frame_data(1), &[4, 5, 6, 7]);
    assert!(s.has_frame(2));
    assert!(!s.has_frame(3));
    assert!(s.is_well_formed());
    let short = FrameStorage::Compressed { data: vec![0; 7], frame_bytes: 4, frame_count: 2 };
    assert!(!short.is_well_formed());
}

#[test]
fn ram_frames_are_buffers() {
    let s = frames(2);
    assert_eq!(s.frame_count(), 2);
    assert!(!s.is_compressed());
    assert_eq!(s.frame_data(1), &[1, 1, 1, 1]);
    assert!(!s.has_frame(2));
}

#[test]
fn texture_kinds_and_copy_layouts() {
    let c = FrameStorage::Compressed { data: vec![], frame_bytes: 0, frame_count: 0 };
    assert_eq!(texture_kind(&c, true), TextureKind::Bc4);
    assert_eq!(texture_kind(&c, false), TextureKind::Bc7);
    assert_eq!(texture_kind(&frames(1), true), TextureKind::Alpha);
    assert_eq!(texture_kind(&frames(1), false), TextureKind::Rgba);
    assert_eq!(copy_layout(TextureKind::Rgba, 100, 50), Some((400, 50)));
    assert_eq!(copy_layout(TextureKind::Alpha, 100, 50), Some((100, 50)));
    assert_eq!(copy_layout(TextureKind::Bc4, 100, 52), Some((200, 13)));
    assert_eq!(copy_layout(TextureKind::Bc7, 100, 52), Some((400, 13)));
    assert_eq!(copy_layout(TextureKind::Rgba, u32::MAX, 1), None);
}

#[test]
fn length_is_the_longest_sublayer() {
    let a = AnimationState::new(vec![sub(frames(3)), sub(frames(5))], 10, 0);
    assert_eq!(a.max_frame_count, 5);
    assert_eq!(a.current_frame, 0);
    let empty: AnimationState<()> = AnimationState::new(vec![], 10, 0);
    assert_eq!(empty.max_frame_count, 1);
}

#[test]
fn tick_waits_for_a_whole_frame() {
    let mut a = AnimationState::new(vec![sub(frames(5))], 10, 100);
    assert!(!a.tick(109));
    assert_eq!(a.current_frame, 0);
    assert_eq!(a.last_advance_ns, 100);
    assert!(a.tick(110));
    assert_eq!(a.current_frame, 1);
    assert_eq!(a.last_advance_ns, 110);
}

#[test]
fn tick_skips_whole_frames_and_wraps() {
    let mut a = AnimationState::new(vec![sub(frames(5))], 10, 0);
    assert!(a.tick(37));
    assert_eq!(a.current_frame, 3);
    assert!(a.tick(37 + 40));
    assert_eq!(a.current_frame, 2);
}

#[test]
fn single_frame_and_backwards_clock_do_not_advance() {
    let mut one = AnimationState::new(vec![sub(frames(1))], 10, 0);
    assert!(!one.tick(1000));
    let mut a = AnimationState::new(vec![sub(frames(5))], 10, 500);
    assert!(!a.tick(100));
    assert_eq!(a.current_frame, 0);
}

#[test]
fn sync_uploads_clamps_to_each_sublayer() {
    let mut a = AnimationState::new(vec![sub(frames(2)), sub(frames(5))], 10, 0);
    assert!(a.tick(30));
    assert_eq!(a.current_frame, 3);
    let jobs = a.sync_uploads();
    assert_eq!(jobs, vec![(0, 1), (1, 3)]);
    assert_eq!(a.sub_layers[0].uploaded_frame_idx, Some(1));
    assert!(a.sync_uploads().is_empty());
}

#[test]
fn current_frame_stays_below_the_length() {
    let mut a = AnimationState::new(vec![sub(frames(3))], 7, 0);
    let mut now = 0u64;
    for step in [7u64, 20, 1, 700, 13, 70_000] {
        now += step;
        a.tick(now);
        assert!(a.current_frame < a.max_frame_count);
    }
}

#[test]
fn a_stall_of_whole_loops_shows_the_same_frame() {
    let mut a = AnimationState::new(vec![sub(frames(5))], 10, 0);
    assert!(a.tick(20));
    assert_eq!(a.current_frame, 2);
    assert!(!a.tick(20 + 50));
    assert_eq!(a.current_frame, 2);
    assert_eq!(a.last_advance_ns, 70);
}

#[test]
fn compressed_frames_cover_the_buffer_in_order() {
    let data: Vec<u8> = (0..12).collect();
    let s = FrameStorage::Compressed { data: data.clone(), frame_bytes: 4, frame_count: 3 };
    let joined: Vec<u8> = (0..3).flat_map(|i| s.frame_data(i).to_vec()).collect();
    assert_eq!(joined, data);
}
