use image::{GrayImage, Luma};
use std::collections::HashSet;
use toy_vo::estimator::{EstimatorCore, ObservationCheck, StereoCheck};
use toy_vo::frame_step::{FrameError, FrameKind, FrameOutcomes, FramePlan, PoseEstimate};

type Core = EstimatorCore<u32, (i32, i32), i64>;
type Outcomes = FrameOutcomes<u32, (i32, i32), i64>;

fn bright_squares(width: u32, height: u32) -> GrayImage {
    GrayImage::from_fn(width, height, |x, y| {
        if x % 40 >= 16 && x % 40 < 28 && y % 40 >= 16 && y % 40 < 28 {
            Luma([230u8])
        } else {
            Luma([20u8])
        }
    })
}

fn fresh_core(window: usize) -> Core {
    EstimatorCore::new(3, 16, window, 10, 0)
}

fn next_images(c: &mut Core) {
    let img = bright_squares(320, 240);
    c.tracker.process_frame(&img, &img);
}

fn estimate(pose: u32, moved: bool) -> PoseEstimate<u32> {
    PoseEstimate { t_cam0_w: pose, t_w_cam0: pose + 1000, translation_exceeded: moved, rotation_exceeded: false }
}

/// Every outcome the plan names, all valid.
fn full_outcomes(plan: &FramePlan, pose: Option<PoseEstimate<u32>>) -> Outcomes {
    FrameOutcomes {
        pose,
        left: plan.known_left.iter().map(|&id| (id, ObservationCheck::Valid((id as i32, 0)))).collect(),
        right: plan.known_right.iter().map(|&id| (id, ObservationCheck::Valid((id as i32, 1)))).collect(),
        stereo: plan
            .candidates
            .iter()
            .map(|&id| {
                (id, StereoCheck::Valid { obs0: (id as i32, 0), obs1: (id as i32, 1), landmark: id as i64 })
            })
            .collect(),
    }
}

fn sorted(mut v: Vec<usize>) -> Vec<usize> {
    v.sort();
    v
}

fn followed_left(c: &Core) -> Vec<usize> {
    sorted(c.tracked_feature_ids().0)
}

/// Runs a first frame in which every stereo match becomes a landmark.
fn first_frame(c: &mut Core) {
    next_images(c);
    let plan = c.plan_frame();
    let report = c.process_frame(full_outcomes(&plan, None), 0).unwrap();
    assert!(matches!(report.kind, FrameKind::Initialized));
}

#[test]
fn plan_names_what_the_frame_needs() {
    let mut c = fresh_core(3);
    next_images(&mut c);
    let plan = c.plan_frame();
    assert!(plan.initializing);
    assert_eq!(sorted(plan.left_ids.clone()), followed_left(&c));
    assert!(plan.known_left.is_empty() && plan.known_right.is_empty());
    let right: HashSet<usize> = plan.right_ids.iter().copied().collect();
    let expected: Vec<usize> = plan.left_ids.iter().copied().filter(|id| right.contains(id)).collect();
    assert_eq!(plan.candidates, expected);
    assert!(!plan.candidates.is_empty());
}

#[test]
fn first_frame_makes_one_keyframe_owning_the_new_landmarks() {
    let mut c = fresh_core(3);
    next_images(&mut c);
    let plan = c.plan_frame();
    assert!(plan.candidates.len() >= 3, "too few features were detected");
    let mut outcomes = full_outcomes(&plan, None);
    let rejected = plan.candidates[0];
    outcomes.stereo.insert(rejected, StereoCheck::BehindCamera);
    let report = c.process_frame(outcomes, 0).unwrap();
    assert!(matches!(report.kind, FrameKind::Initialized));
    assert!(c.new_keyframe_added);
    assert_eq!(c.keyframe_window.keyframes.len(), 1);
    let kf = &c.keyframe_window.keyframes[0];
    assert_eq!(kf.t_cam0_w, 0);
    let owned = sorted(kf.new_point_ids.clone());
    assert_eq!(owned, sorted(plan.candidates[1..].to_vec()));
    assert_eq!(sorted(c.landmarks.keys().copied().collect()), owned);
    assert_eq!(sorted(kf.cam0_observations.keys().copied().collect()), owned);
    assert_eq!(sorted(kf.cam1_observations.keys().copied().collect()), owned);
    assert_eq!(c.landmarks[&plan.candidates[1]], plan.candidates[1] as i64);
    // The rejected match is no longer followed.
    assert!(!followed_left(&c).contains(&rejected));
    assert_eq!(c.frame_id_counter, 1);
    assert_eq!(c.frames_since_last_keyframe, 1);
    assert!(c.keyframe_trajectory.is_empty());
}

#[test]
fn a_missing_outcome_changes_nothing() {
    let mut c = fresh_core(3);
    next_images(&mut c);
    let plan = c.plan_frame();
    let mut outcomes = full_outcomes(&plan, None);
    outcomes.stereo.remove(&plan.candidates[0]);
    let followed = followed_left(&c);
    assert_eq!(c.process_frame(outcomes, 0).err(), Some(FrameError::MissingOutcome));
    assert!(c.landmarks.is_empty());
    assert!(c.keyframe_window.keyframes.is_empty());
    assert_eq!(c.frame_id_counter, 0);
    assert_eq!(followed_left(&c), followed);
    // Once the map exists, a frame without a pose is refused too.
    let mut c = fresh_core(3);
    first_frame(&mut c);
    next_images(&mut c);
    let plan = c.plan_frame();
    assert_eq!(c.process_frame(full_outcomes(&plan, None), 0).err(), Some(FrameError::MissingOutcome));
    assert_eq!(c.frame_id_counter, 1);
}

#[test]
fn frame_without_keyframe_keeps_the_map_and_drops_what_is_not_a_landmark() {
    let mut c = fresh_core(3);
    first_frame(&mut c);
    let landmarks_before = c.landmarks.clone();
    next_images(&mut c);
    let plan = c.plan_frame();
    assert!(!plan.initializing);
    assert!(plan.known_left.len() >= 2);
    let mut outcomes = full_outcomes(&plan, Some(estimate(7, false)));
    let failed = plan.known_left[0];
    outcomes.left.insert(failed, ObservationCheck::NonPositiveDepth);
    let report = c.process_frame(outcomes, 0).unwrap();
    assert!(matches!(report.kind, FrameKind::NoKeyframe));
    assert!(!c.new_keyframe_added);
    assert_eq!(c.landmarks, landmarks_before);
    assert_eq!(c.keyframe_window.keyframes.len(), 1);
    assert_eq!(c.current_t_w_cam0, 1007);
    // Followed afterwards: exactly the landmarks whose unprojection worked.
    let expected = sorted(plan.known_left[1..].to_vec());
    assert_eq!(followed_left(&c), expected);
    assert!(c.landmarks.contains_key(&failed));
    assert_eq!(c.frames_since_last_keyframe, 2);
}

#[test]
fn keyframe_frame_and_its_bundle_adjustment() {
    let mut c = fresh_core(1);
    first_frame(&mut c);
    let old_ids: Vec<usize> = sorted(c.landmarks.keys().copied().collect());
    next_images(&mut c);
    let plan = c.plan_frame();
    let mut outcomes = full_outcomes(&plan, Some(estimate(9, true)));
    // The first landmark is seen in the left image only, so the window drops it.
    let dropped = plan.known_right[0];
    outcomes.right.insert(dropped, ObservationCheck::NonPositiveDepth);
    let report = c.process_frame(outcomes, 0).unwrap();
    let due = match report.kind {
        FrameKind::KeyframeAdded(due) => due,
        _ => panic!("a keyframe was due"),
    };
    assert!(c.new_keyframe_added);
    assert_eq!(c.keyframe_trajectory, vec![0]);
    assert_eq!(c.keyframe_window.keyframes.len(), 1);
    assert_eq!(c.keyframe_window.keyframes[0].t_cam0_w, 9);
    assert!(!c.landmarks.contains_key(&dropped));
    assert_eq!(c.frames_since_last_keyframe, 0);
    c.apply_bundle_adjustment(&vec![None], &vec![]);
    let rejected: Vec<usize> = old_ids.iter().copied().filter(|&id| id != dropped).take(1).collect();
    let before = c.landmarks.len();
    c.finish_keyframe(due, &rejected);
    assert_eq!(c.landmarks.len(), before - 1);
    assert!(!c.landmarks.contains_key(&rejected[0]));
    let followed = followed_left(&c);
    assert!(!followed.contains(&dropped));
    assert!(!followed.contains(&rejected[0]));
    assert!(followed.iter().all(|id| c.landmarks.contains_key(id)));
    assert_eq!(c.frames_since_last_keyframe, 1);
    assert_eq!(c.frame_id_counter, 2);
}

#[test]
fn a_keyframe_comes_within_max_plus_one_frames() {
    let mut c = fresh_core(3);
    first_frame(&mut c);
    let mut since_keyframe = 0;
    for _ in 0..25 {
        next_images(&mut c);
        let plan = c.plan_frame();
        let report = c.process_frame(full_outcomes(&plan, Some(estimate(1, false))), 0).unwrap();
        since_keyframe += 1;
        if let FrameKind::KeyframeAdded(due) = report.kind {
            assert!(c.new_keyframe_added);
            assert_eq!(since_keyframe, 11);
            since_keyframe = 0;
            c.apply_bundle_adjustment(&vec![], &vec![]);
            c.finish_keyframe(due, &vec![]);
        } else {
            assert!(!c.new_keyframe_added);
        }
        assert!(since_keyframe <= 10);
    }
}

#[test]
fn plan_ids_come_in_increasing_order() {
    let mut c = fresh_core(3);
    next_images(&mut c);
    let plan = c.plan_frame();
    assert!(plan.left_ids.windows(2).all(|p| p[0] < p[1]));
    assert!(plan.right_ids.windows(2).all(|p| p[0] < p[1]));
    assert_eq!(plan.left_ids, followed_left(&c));
}

fn snapshot(c: &Core) -> (Vec<(usize, i64)>, Vec<(u32, Vec<usize>)>, Vec<u32>, u64, u64, bool, u32, Vec<usize>) {
    let mut landmarks: Vec<(usize, i64)> = c.landmarks.iter().map(|(k, v)| (*k, *v)).collect();
    landmarks.sort();
    let window = c.keyframe_window.keyframes.iter().map(|f| (f.t_cam0_w, f.new_point_ids.clone())).collect();
    (
        landmarks,
        window,
        c.keyframe_trajectory.clone(),
        c.frame_id_counter,
        c.frames_since_last_keyframe,
        c.new_keyframe_added,
        c.current_t_w_cam0,
        followed_left(c),
    )
}

#[test]
fn two_estimators_given_the_same_frames_end_in_the_same_state() {
    let mut a = fresh_core(2);
    let mut b = fresh_core(2);
    for frame_number in 0..14u32 {
        for c in [&mut a, &mut b] {
            next_images(c);
            let plan = c.plan_frame();
            let pose = if plan.initializing { None } else { Some(estimate(frame_number, frame_number % 5 == 0)) };
            let report = c.process_frame(full_outcomes(&plan, pose), 0).unwrap();
            if let FrameKind::KeyframeAdded(due) = report.kind {
                c.apply_bundle_adjustment(&vec![None, Some(frame_number)], &vec![]);
                let first = *c.landmarks.keys().min().unwrap();
                c.finish_keyframe(due, &vec![first]);
            }
        }
        assert_eq!(snapshot(&a), snapshot(&b));
    }
}
