use image::{GrayImage, Luma};
use std::collections::{HashMap, HashSet};
use toy_vo::estimator::{Camera, EstimatorCore, ObservationCheck, StereoCheck};
use toy_vo::estimator2::{try_add_point, MAX_FRAMES_BETWEEN_KEYFRAMES};

type Core = EstimatorCore<u32, (i32, i32), i64>;

fn new_core(window: usize) -> Core {
    EstimatorCore::new(3, 16, window, 10, 0)
}

fn ids(v: &[usize]) -> Vec<usize> {
    v.to_vec()
}

fn right_of(v: &[usize]) -> HashSet<usize> {
    v.iter().copied().collect()
}

fn valid(id: usize, landmark: i64) -> StereoCheck<(i32, i32), i64> {
    StereoCheck::Valid { obs0: (id as i32, 0), obs1: (id as i32, 1), landmark }
}

/// Runs a first frame that makes landmarks of `good` and rejects `bad`.
fn initialize(c: &mut Core, good: &[usize], bad: &[usize]) -> Vec<usize> {
    let mut pending = c.begin_frame();
    let mut all = good.to_vec();
    all.extend_from_slice(bad);
    let candidates = c.select_new_points(&all, &right_of(&all));
    assert_eq!(candidates, all);
    for &id in good {
        c.record_new_point(&mut pending, id, valid(id, 100 + id as i64));
    }
    for &id in bad {
        c.record_new_point(&mut pending, id, StereoCheck::EpipolarViolation);
    }
    let bad_points = c.commit_initial_keyframe(pending, 0);
    c.end_frame(&bad_points);
    bad_points
}

#[test]
fn new_estimator_is_empty() {
    let c = new_core(7);
    assert_eq!(c.frame_id_counter, 0);
    assert_eq!(c.frames_since_last_keyframe, 0);
    assert_eq!(c.max_frames_between_keyframes, 10);
    assert!(c.is_initializing());
    assert!(c.landmarks.is_empty());
    assert!(c.keyframe_trajectory.is_empty());
    assert!(c.removed_good_landmarks.is_empty());
    assert_eq!(c.keyframe_window.max_size, 7);
    assert!(c.keyframe_window.keyframes.is_empty());
    assert_eq!(c.current_t_w_cam0, 0);
    assert!(!c.new_keyframe_added);
    let followed = c.tracker.get_track_points();
    assert!(followed[0].is_empty() && followed[1].is_empty());
}

#[test]
fn keyframe_is_due_after_too_many_frames_or_enough_motion() {
    let mut c = new_core(7);
    c.frames_since_last_keyframe = 10;
    assert!(!c.needs_keyframe(false, false));
    assert!(c.needs_keyframe(true, false));
    assert!(c.needs_keyframe(false, true));
    c.frames_since_last_keyframe = 11;
    assert!(c.needs_keyframe(false, false));
}

#[test]
fn selecting_new_points() {
    let mut c = new_core(7);
    initialize(&mut c, &[1], &[]);
    // 1 is a landmark, 2 and 4 are matched, 3 is not.
    let found = c.select_new_points(&ids(&[1, 2, 3, 4]), &right_of(&[1, 2, 4]));
    assert_eq!(found, vec![2, 4]);
    let unmatched = c.select_unmatched_points(&ids(&[1, 2, 3, 4]), &right_of(&[1, 2, 4]));
    assert_eq!(unmatched, vec![3]);
    let unmatched = c.select_unmatched_points(&ids(&[1, 5, 3]), &right_of(&[]));
    assert_eq!(unmatched, vec![5, 3]);
}

#[test]
fn known_and_unknown_points() {
    let mut c = new_core(7);
    initialize(&mut c, &[1, 5], &[]);
    assert_eq!(c.select_known_landmarks(&ids(&[5, 2, 1, 9])), vec![5, 1]);
    let mut pending = c.begin_frame();
    c.reject_unknown_points(&mut pending, &ids(&[5, 2, 1, 9]));
    assert_eq!(pending.bad_points, vec![2, 9]);
}

#[test]
fn recording_stereo_checks() {
    let mut c = new_core(7);
    let mut pending = c.begin_frame();
    c.record_new_point(&mut pending, 4, valid(4, 44));
    c.record_new_point(&mut pending, 5, StereoCheck::NonPositiveDepth);
    c.record_new_point(&mut pending, 6, StereoCheck::EpipolarViolation);
    c.record_new_point(&mut pending, 7, StereoCheck::BehindCamera);
    assert_eq!(pending.new_point_ids, vec![4]);
    assert_eq!(pending.bad_points, vec![5, 6, 7]);
    assert_eq!(pending.cam0_observations.get(&4), Some(&(4, 0)));
    assert_eq!(pending.cam1_observations.get(&4), Some(&(4, 1)));
    assert_eq!(c.landmarks.len(), 1);
    assert_eq!(c.landmarks.get(&4), Some(&44));
}

#[test]
fn recording_observations() {
    let mut c = new_core(7);
    let mut pending = c.begin_frame();
    c.record_observation(&mut pending, Camera::Left, 3, ObservationCheck::Valid((3, 0)));
    c.record_observation(&mut pending, Camera::Right, 3, ObservationCheck::Valid((3, 1)));
    c.record_observation(&mut pending, Camera::Right, 8, ObservationCheck::NonPositiveDepth);
    assert_eq!(pending.cam0_observations.get(&3), Some(&(3, 0)));
    assert_eq!(pending.cam1_observations.get(&3), Some(&(3, 1)));
    assert!(!pending.cam1_observations.contains_key(&8));
    assert_eq!(pending.bad_points, vec![8]);
    let used = c.record_pose_observation(&mut pending, 3, ObservationCheck::Valid((7u8, 9u8)));
    assert_eq!(used, Some((7, 9)));
    let used: Option<(u8, u8)> =
        c.record_pose_observation(&mut pending, 9, ObservationCheck::NonPositiveDepth);
    assert_eq!(used, None);
    assert_eq!(pending.bad_points, vec![8, 9]);
}

#[test]
fn first_frame_makes_the_first_keyframe() {
    let mut c = new_core(7);
    let bad = initialize(&mut c, &[1, 2], &[3]);
    assert_eq!(bad, vec![3]);
    assert!(!c.is_initializing());
    assert!(c.new_keyframe_added);
    assert_eq!(c.keyframe_window.keyframes.len(), 1);
    assert_eq!(c.keyframe_window.keyframes[0].new_point_ids, vec![1, 2]);
    assert_eq!(c.keyframe_window.keyframes[0].t_cam0_w, 0);
    assert_eq!(c.landmarks.len(), 2);
    assert_eq!(c.landmarks.get(&2), Some(&102));
    assert_eq!(c.frame_id_counter, 1);
    assert_eq!(c.frames_since_last_keyframe, 1);
}

#[test]
fn keyframe_that_marginalizes_drops_unseen_landmarks() {
    // A window of one keyframe marginalizes on every new keyframe.
    let mut c = new_core(1);
    initialize(&mut c, &[1, 2], &[]);
    let mut pending = c.begin_frame();
    // Landmark 1 is seen in both images, 2 in the left one only.
    c.record_observation(&mut pending, Camera::Left, 1, ObservationCheck::Valid((1, 0)));
    c.record_observation(&mut pending, Camera::Right, 1, ObservationCheck::Valid((1, 1)));
    c.record_observation(&mut pending, Camera::Left, 2, ObservationCheck::Valid((2, 0)));
    c.record_new_point(&mut pending, 5, valid(5, 55));
    c.record_new_point(&mut pending, 6, StereoCheck::BehindCamera);
    let bad = c.commit_keyframe(pending, 7);
    assert_eq!(bad, vec![6, 2]);
    assert_eq!(c.keyframe_trajectory, vec![0]);
    assert_eq!(c.removed_good_landmarks, vec![102]);
    assert!(!c.landmarks.contains_key(&2));
    assert_eq!(c.landmarks.get(&1), Some(&101));
    assert_eq!(c.landmarks.get(&5), Some(&55));
    assert_eq!(c.keyframe_window.keyframes.len(), 1);
    assert_eq!(c.keyframe_window.keyframes[0].t_cam0_w, 7);
    assert_eq!(c.keyframe_window.keyframes[0].new_point_ids, vec![5, 1]);
    assert!(!c.keyframe_window.keyframes[0].cam0_observations.contains_key(&2));
    assert_eq!(c.frames_since_last_keyframe, 0);
    assert!(c.new_keyframe_added);
    c.end_frame(&bad);
    assert_eq!(c.frames_since_last_keyframe, 1);
    assert_eq!(c.frame_id_counter, 2);
}

#[test]
fn keyframe_below_capacity_keeps_every_landmark() {
    let mut c = new_core(3);
    initialize(&mut c, &[1], &[]);
    let mut pending = c.begin_frame();
    c.record_new_point(&mut pending, 2, valid(2, 22));
    let bad = c.commit_keyframe(pending, 9);
    assert!(bad.is_empty());
    assert!(c.keyframe_trajectory.is_empty());
    assert_eq!(c.landmarks.len(), 2);
    assert_eq!(c.keyframe_window.keyframes.len(), 2);
    assert_eq!(c.keyframe_window.last_keyframe_t_cam0_w(0), 9);
}

#[test]
fn dropping_landmarks() {
    let mut c = new_core(3);
    initialize(&mut c, &[1, 2, 3], &[]);
    let mut bad = vec![9];
    c.drop_landmarks(&mut bad, &ids(&[3, 1, 4]));
    assert_eq!(bad, vec![9, 3, 1, 4]);
    assert_eq!(c.landmarks.len(), 1);
    assert!(c.landmarks.contains_key(&2));
}

#[test]
fn writing_back_a_bundle_adjustment() {
    let mut c = new_core(3);
    initialize(&mut c, &[1, 2], &[]);
    let mut pending = c.begin_frame();
    c.record_new_point(&mut pending, 3, valid(3, 33));
    c.commit_keyframe(pending, 5);
    c.apply_bundle_adjustment(&vec![Some(40), Some(50)], &vec![(2, -2), (8, -8), (3, -3)]);
    // The first keyframe stays fixed.
    assert_eq!(c.keyframe_window.keyframes[0].t_cam0_w, 0);
    assert_eq!(c.keyframe_window.keyframes[1].t_cam0_w, 50);
    assert_eq!(c.landmarks.len(), 3);
    assert_eq!(c.landmarks.get(&1), Some(&101));
    assert_eq!(c.landmarks.get(&2), Some(&-2));
    assert_eq!(c.landmarks.get(&3), Some(&-3));
    assert!(!c.landmarks.contains_key(&8));
}

fn bright_squares(width: u32, height: u32) -> GrayImage {
    GrayImage::from_fn(width, height, |x, y| {
        if x % 40 >= 16 && x % 40 < 28 && y % 40 >= 16 && y % 40 < 28 {
            Luma([230u8])
        } else {
            Luma([20u8])
        }
    })
}

#[test]
fn ending_a_frame_stops_tracking_bad_features() {
    let mut c = new_core(3);
    let img = bright_squares(320, 240);
    c.tracker.process_frame(&img, &img);
    let before = c.tracker.get_track_points();
    assert!(before[0].len() >= 2, "no feature was detected");
    let mut followed: Vec<usize> = before[0].keys().copied().collect();
    followed.sort();
    let gone = followed[0];
    c.end_frame(&vec![gone]);
    let after = c.tracker.get_track_points();
    assert!(!after[0].contains_key(&gone));
    assert!(!after[1].contains_key(&gone));
    assert_eq!(after[0].len(), before[0].len() - 1);
    assert!(after[0].contains_key(&followed[1]));
    assert_eq!(c.frame_id_counter, 1);
}

#[test]
fn second_estimator_settings() {
    assert_eq!(MAX_FRAMES_BETWEEN_KEYFRAMES, 10);
    try_add_point();
}

#[test]
fn tracked_feature_ids_are_the_tracker_keys() {
    let mut c = new_core(3);
    let (left, right) = c.tracked_feature_ids();
    assert!(left.is_empty() && right.is_empty());
    let img = bright_squares(320, 240);
    c.tracker.process_frame(&img, &img);
    let points = c.tracker.get_track_points();
    let (mut left, mut right) = c.tracked_feature_ids();
    left.sort();
    right.sort();
    let mut keys0: Vec<usize> = points[0].keys().copied().collect();
    let mut keys1: Vec<usize> = points[1].keys().copied().collect();
    keys0.sort();
    keys1.sort();
    assert!(!left.is_empty());
    assert_eq!(left, keys0);
    assert_eq!(right, keys1);
}

#[test]
fn frame_without_keyframe_keeps_following_landmarks_only() {
    let mut c = new_core(3);
    let img = bright_squares(320, 240);
    c.tracker.process_frame(&img, &img);
    let (left, _) = c.tracked_feature_ids();
    assert!(left.len() >= 2, "no feature was detected");
    let kept = left[0];
    initialize(&mut c, &[kept], &[]);
    let mut pending = c.begin_frame();
    let (left, _) = c.tracked_feature_ids();
    c.reject_unknown_points(&mut pending, &left);
    let bad = pending.bad_points.clone();
    assert_eq!(bad.len(), left.len() - 1);
    c.end_frame(&bad);
    let (after, _) = c.tracked_feature_ids();
    assert_eq!(after, vec![kept]);
    assert!(after.iter().all(|id| c.landmarks.contains_key(id)));
}

#[test]
fn keyframe_frame_keeps_following_landmarks_only() {
    let mut c = new_core(1);
    let img = bright_squares(320, 240);
    c.tracker.process_frame(&img, &img);
    let (left, right) = c.tracked_feature_ids();
    assert!(left.len() >= 3, "too few features were detected");
    let first = left[0];
    initialize(&mut c, &[first], &[]);
    let mut pending = c.begin_frame();
    let (left, right2) = c.tracked_feature_ids();
    assert_eq!(right.len(), right2.len());
    let known = c.select_known_landmarks(&left);
    assert_eq!(known, vec![first]);
    c.record_observations(
        &mut pending,
        Camera::Left,
        known.iter().map(|&id| (id, ObservationCheck::Valid((0, 0)))).collect(),
    );
    let candidates = c.select_new_points(&left, &right_of(&right2));
    let mut unmatched = c.select_unmatched_points(&left, &right_of(&right2));
    pending.bad_points.append(&mut unmatched);
    assert!(candidates.len() >= 2);
    let checks = candidates
        .iter()
        .enumerate()
        .map(|(k, &id)| (id, if k == 0 { valid(id, 7) } else { StereoCheck::BehindCamera }))
        .collect();
    c.record_new_points(&mut pending, checks);
    // The window holds one keyframe: the first one is marginalized, and the
    // first landmark is not seen in the right image of the new keyframe.
    let mut bad = c.commit_keyframe(pending, 3);
    assert!(!c.landmarks.contains_key(&first));
    c.apply_bundle_adjustment(&vec![None], &vec![]);
    c.drop_landmarks(&mut bad, &vec![]);
    c.end_frame(&bad);
    let (after, _) = c.tracked_feature_ids();
    assert_eq!(after, vec![candidates[0]]);
    assert!(after.iter().all(|id| c.landmarks.contains_key(id)));
}
