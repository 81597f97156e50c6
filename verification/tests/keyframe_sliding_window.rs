use nalgebra as na;
use std::collections::HashMap;
use toy_vo::frame::Frame;
use toy_vo::keyframe_sliding_window::KeyframeSlidingWindow;

type Obs = (f32, f32);

fn make_frame(new_point_ids: Vec<usize>) -> Frame<na::Isometry3<f32>, Obs> {
    let mut cam0_obs = HashMap::new();
    let mut cam1_obs = HashMap::new();
    for &id in &new_point_ids {
        cam0_obs.insert(id, (id as f32 * 0.1, id as f32 * 0.2));
        cam1_obs.insert(id, (id as f32 * 0.1 - 0.01, id as f32 * 0.2));
    }
    Frame::new(na::Isometry3::identity(), cam0_obs, cam1_obs, new_point_ids)
}

fn frame_observing(
    pose: u32,
    cam0: &[usize],
    cam1: &[usize],
    new_point_ids: Vec<usize>,
) -> Frame<u32, u8> {
    let mut cam0_obs = HashMap::new();
    let mut cam1_obs = HashMap::new();
    for &id in cam0 {
        cam0_obs.insert(id, 0u8);
    }
    for &id in cam1 {
        cam1_obs.insert(id, 1u8);
    }
    Frame::new(pose, cam0_obs, cam1_obs, new_point_ids)
}

#[test]
fn test_new_sliding_window() {
    let sw: KeyframeSlidingWindow<na::Isometry3<f32>, Obs> = KeyframeSlidingWindow::new(5);
    assert_eq!(sw.max_size, 5);
    assert!(sw.keyframes.is_empty());
    assert!(!sw.is_full());
}

#[test]
fn test_add_keyframe_below_capacity() {
    let mut sw = KeyframeSlidingWindow::new(3);
    let result = sw.add_keyframe(make_frame(vec![1, 2, 3]));
    assert!(result.is_none());
    assert_eq!(sw.keyframes.len(), 1);
    assert!(!sw.is_full());
}

#[test]
fn test_add_keyframe_at_capacity_marginalizes() {
    let mut sw = KeyframeSlidingWindow::new(2);
    // First keyframe with landmarks 1,2,3
    sw.add_keyframe(make_frame(vec![1, 2, 3]));
    // Second keyframe also observes landmark 1,2,3
    sw.add_keyframe(make_frame(vec![4, 5]));
    assert!(sw.is_full());
    // Third keyframe should marginalize the first
    // Only landmarks also seen in the new oldest frame are kept
    let result = sw.add_keyframe(make_frame(vec![6]));
    assert!(result.is_some());
    let (_pose, removed_ids) = result.unwrap();
    // Landmarks 1,2,3 were owned by the first frame; check which were removed
    assert!(!removed_ids.is_empty());
}

#[test]
fn test_last_keyframe_t_cam0_w_empty() {
    let sw: KeyframeSlidingWindow<na::Isometry3<f32>, Obs> = KeyframeSlidingWindow::new(3);
    let pose = sw.last_keyframe_t_cam0_w(na::Isometry3::identity());
    assert_eq!(pose, na::Isometry3::identity());
}

#[test]
fn test_last_keyframe_t_cam0_w_with_frames() {
    let mut sw = KeyframeSlidingWindow::new(3);
    let mut frame = make_frame(vec![1]);
    let expected_pose = na::Isometry3::new(
        na::Vector3::new(1.0, 2.0, 3.0),
        na::Vector3::new(0.1, 0.2, 0.3),
    );
    frame.t_cam0_w = expected_pose;
    sw.add_keyframe(frame);
    let pose = sw.last_keyframe_t_cam0_w(na::Isometry3::identity());
    assert!((pose.translation.vector - expected_pose.translation.vector).norm() < 1e-6);
}

#[test]
fn marginalization_hands_over_landmarks_seen_in_both_images() {
    let mut sw = KeyframeSlidingWindow::new(2);
    assert!(sw.add_keyframe(frame_observing(10, &[1, 2, 3], &[1, 2, 3], vec![1, 2, 3])).is_none());
    // The second keyframe sees 1 in both images, 2 in the left one only.
    assert!(sw.add_keyframe(frame_observing(20, &[1, 2, 4], &[1, 4], vec![4])).is_none());
    assert!(sw.is_full());
    let (pose, removed) = sw.add_keyframe(frame_observing(30, &[2, 4], &[4], vec![])).unwrap();
    assert_eq!(pose, 10);
    assert_eq!(removed, vec![2, 3]);
    assert_eq!(sw.keyframes.len(), 2);
    // Landmark 1 now belongs to the new oldest keyframe, after its own.
    assert_eq!(sw.keyframes[0].new_point_ids, vec![4, 1]);
    assert_eq!(sw.keyframes[0].t_cam0_w, 20);
    // The dropped landmarks are erased from every keyframe.
    for kf in sw.keyframes.iter() {
        assert!(!kf.cam0_observations.contains_key(&2));
        assert!(!kf.cam1_observations.contains_key(&2));
        assert!(!kf.cam0_observations.contains_key(&3));
    }
    assert!(sw.keyframes[0].cam0_observations.contains_key(&1));
    assert!(sw.keyframes[1].cam0_observations.contains_key(&4));
    assert_eq!(sw.last_keyframe_t_cam0_w(0), 30);
}

#[test]
fn window_of_capacity_zero_never_marginalizes() {
    let mut sw = KeyframeSlidingWindow::new(0);
    for k in 0..3u32 {
        assert!(sw.add_keyframe(frame_observing(k, &[1], &[1], vec![1])).is_none());
    }
    assert_eq!(sw.keyframes.len(), 3);
    assert!(!sw.is_full());
}

#[test]
fn window_keeps_at_most_its_capacity_and_owned_landmarks_are_conserved() {
    let mut sw = KeyframeSlidingWindow::new(3);
    let mut dropped: Vec<usize> = Vec::new();
    let mut created: Vec<usize> = Vec::new();
    for k in 0..6usize {
        let ids = vec![2 * k, 2 * k + 1];
        created.extend(ids.iter().copied());
        // Each keyframe also sees the previous keyframe's first landmark in both images.
        let seen: Vec<usize> = if k > 0 { vec![2 * k - 2, 2 * k, 2 * k + 1] } else { ids.clone() };
        if let Some((_, removed)) = sw.add_keyframe(frame_observing(k as u32, &seen, &seen, ids)) {
            dropped.extend(removed);
        }
        assert!(sw.keyframes.len() <= 3);
    }
    let mut owned: Vec<usize> = sw.keyframes.iter().flat_map(|f| f.new_point_ids.clone()).collect();
    owned.extend(dropped.iter().copied());
    owned.sort();
    created.sort();
    assert_eq!(owned, created);
}
