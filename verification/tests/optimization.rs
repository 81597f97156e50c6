use std::collections::HashMap;
use toy_vo::estimator::Camera;
use toy_vo::frame::Frame;
use toy_vo::keyframe_sliding_window::KeyframeSlidingWindow;
use toy_vo::optimization::{
    apply_optimized_landmarks, apply_optimized_poses, bundle_adjustment_landmarks,
    count_observations, feature_ids, is_bundle_adjustment_defined, plan_residual_blocks,
    ResidualBlock,
};

fn frame(pose: u32, cam0: &[usize], cam1: &[usize]) -> Frame<u32, u8> {
    let cam0_obs: HashMap<usize, u8> = cam0.iter().map(|&id| (id, 0u8)).collect();
    let cam1_obs: HashMap<usize, u8> = cam1.iter().map(|&id| (id, 1u8)).collect();
    Frame::new(pose, cam0_obs, cam1_obs, Vec::new())
}

fn window(frames: Vec<Frame<u32, u8>>) -> KeyframeSlidingWindow<u32, u8> {
    let mut w = KeyframeSlidingWindow::new(10);
    for f in frames {
        w.add_keyframe(f);
    }
    w
}

fn landmarks(ids: &[usize]) -> HashMap<usize, i32> {
    ids.iter().map(|&id| (id, id as i32 * 10)).collect()
}

fn block(frame: usize, camera: Camera, landmark: usize) -> ResidualBlock {
    ResidualBlock { frame, camera, landmark }
}

#[test]
fn feature_ids_lists_each_key_once() {
    let m: HashMap<usize, u8> = [(3, 0), (1, 0), (7, 0)].into_iter().collect();
    let mut ids = feature_ids(&m);
    ids.sort();
    assert_eq!(ids, vec![1, 3, 7]);
    assert!(feature_ids(&HashMap::<usize, u8>::new()).is_empty());
}

#[test]
fn counting_left_observations() {
    let w = window(vec![frame(0, &[1, 2], &[1]), frame(1, &[1, 3], &[3, 4]), frame(2, &[1], &[])]);
    let counts = count_observations(&w);
    assert_eq!(counts.len(), 3);
    assert_eq!(counts[&1], 3);
    assert_eq!(counts[&2], 1);
    assert_eq!(counts[&3], 1);
    // Right-image observations are not counted.
    assert!(!counts.contains_key(&4));
}

#[test]
fn bundle_adjustment_needs_every_right_feature_seen_on_the_left() {
    let good = window(vec![frame(0, &[1, 2], &[1]), frame(1, &[1, 3], &[2, 3])]);
    assert!(is_bundle_adjustment_defined(&good));
    let bad = window(vec![frame(0, &[1, 2], &[1]), frame(1, &[1, 3], &[3, 4])]);
    assert!(!is_bundle_adjustment_defined(&bad));
    let empty: KeyframeSlidingWindow<u32, u8> = KeyframeSlidingWindow::new(3);
    assert!(is_bundle_adjustment_defined(&empty));
}

#[test]
fn residual_blocks_of_landmarks_seen_twice() {
    // 1 is seen on the left by all three keyframes, 2 by two, 3 by one; 5 is no landmark.
    let w = window(vec![
        frame(0, &[1, 2, 5], &[1, 3]),
        frame(1, &[1, 3, 5], &[2]),
        frame(2, &[1, 2], &[1, 2]),
    ]);
    let lm = landmarks(&[1, 2, 3]);
    let blocks = plan_residual_blocks(&w, &lm);
    let mut expected = vec![
        block(0, Camera::Left, 1),
        block(0, Camera::Left, 2),
        block(0, Camera::Right, 1),
        block(1, Camera::Left, 1),
        block(1, Camera::Right, 2),
        block(2, Camera::Left, 1),
        block(2, Camera::Left, 2),
        block(2, Camera::Right, 1),
        block(2, Camera::Right, 2),
    ];
    assert_eq!(blocks.len(), expected.len());
    // Blocks come keyframe by keyframe, the left image first.
    for pair in blocks.windows(2) {
        let rank = |c: Camera| if c == Camera::Left { 0 } else { 1 };
        assert!((pair[0].frame, rank(pair[0].camera)) <= (pair[1].frame, rank(pair[1].camera)));
    }
    let key = |b: &ResidualBlock| (b.frame, b.camera == Camera::Right, b.landmark);
    let mut got = blocks.clone();
    got.sort_by_key(key);
    expected.sort_by_key(key);
    assert_eq!(got, expected);
}

#[test]
fn participating_landmarks_with_their_left_block_counts() {
    let w = window(vec![
        frame(0, &[1, 2, 5], &[1, 3]),
        frame(1, &[1, 3, 5], &[2]),
        frame(2, &[1, 2], &[1, 2]),
    ]);
    let lm = landmarks(&[1, 2, 3]);
    let mut p = bundle_adjustment_landmarks(&w, &lm);
    p.sort();
    assert_eq!(p, vec![(1, 3), (2, 2)]);
}

#[test]
fn optimized_poses_keep_the_first_keyframe() {
    let mut w = window(vec![frame(10, &[], &[]), frame(11, &[], &[]), frame(12, &[], &[])]);
    apply_optimized_poses(&mut w, &vec![Some(0), None, Some(22), Some(99)]);
    let poses: Vec<u32> = w.keyframes.iter().map(|f| f.t_cam0_w).collect();
    assert_eq!(poses, vec![10, 11, 22]);
    apply_optimized_poses(&mut w, &vec![]);
    let poses: Vec<u32> = w.keyframes.iter().map(|f| f.t_cam0_w).collect();
    assert_eq!(poses, vec![10, 11, 22]);
}

#[test]
fn optimized_landmarks_update_known_ids_only() {
    let mut lm = landmarks(&[1, 2]);
    apply_optimized_landmarks(&mut lm, &vec![(2, 7), (4, 8), (2, 9)]);
    assert_eq!(lm.len(), 2);
    assert_eq!(lm[&1], 10);
    assert_eq!(lm[&2], 9);
}

#[test]
fn bundle_adjustment_bound_is_on_each_landmark_count() {
    // More keyframes than a u16 counts, each seeing its own feature: fine.
    let mut w = KeyframeSlidingWindow::new(70000);
    for k in 0..65536usize {
        w.add_keyframe(frame(0, &[k], &[]));
    }
    assert!(is_bundle_adjustment_defined(&w));
    assert_eq!(count_observations(&w)[&65535], 1);
    // One feature seen by more keyframes than a u16 counts: refused.
    let mut w = KeyframeSlidingWindow::new(70000);
    for _ in 0..65536usize {
        w.add_keyframe(frame(0, &[1], &[]));
    }
    assert!(!is_bundle_adjustment_defined(&w));
}
