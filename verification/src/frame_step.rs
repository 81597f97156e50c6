//! One stereo frame as a whole. The caller tracks the images and computes
//! the geometric outcomes (unprojections, stereo checks, the camera pose);
//! `EstimatorCore::process_frame` then takes every decision of the frame, and
//! `EstimatorCore::finish_keyframe` closes a frame that added a keyframe once
//! its bundle adjustment has been written back.
use crate::estimator::{
    Camera, EstimatorCore, ObservationCheck, PendingFrame, PendingView, StereoCheck,
    failed_observations, known_landmarks, matched_new_points, new_points_effect,
    observations_effect, pending_keyframe, spec_needs_keyframe, tracked_ids_cam0,
    tracked_ids_cam1, tracker_settings, unknown_points, unmatched_new_points,
};
use crate::keyframe_sliding_window::{marginalizes, spec_add_keyframe};
use std::collections::{HashMap, HashSet};
use vstd::prelude::*;

verus! {

broadcast use vstd::std_specs::hash::group_hash_axioms, vstd::std_specs::vec::group_vec_axioms;

/// The camera pose found for a frame, and whether the motion since the last
/// keyframe exceeds the translation and the rotation thresholds.
pub struct PoseEstimate<P> {
    /// World to left camera.
    pub t_cam0_w: P,
    /// Left camera to world.
    pub t_w_cam0: P,
    pub translation_exceeded: bool,
    pub rotation_exceeded: bool,
}

/// The geometric outcomes of a frame, keyed by feature id: the pose (none
/// while the map is initialized), the unprojections of the landmarks
/// followed in each image, and the checks on the stereo matches that can
/// become landmarks.
pub struct FrameOutcomes<P, O, L> {
    pub pose: Option<PoseEstimate<P>>,
    pub left: HashMap<usize, ObservationCheck<O>>,
    pub right: HashMap<usize, ObservationCheck<O>>,
    pub stereo: HashMap<usize, StereoCheck<O, L>>,
}

/// What a frame needs computed: the features followed in each image, the
/// landmarks among them, and the stereo matches that can become landmarks.
pub struct FramePlan {
    pub initializing: bool,
    pub left_ids: Vec<usize>,
    pub right_ids: Vec<usize>,
    pub known_left: Vec<usize>,
    pub known_right: Vec<usize>,
    pub candidates: Vec<usize>,
}

/// The features to stop following once the bundle adjustment of a new
/// keyframe is done.
pub struct BundleAdjustmentDue {
    bad_points: Vec<usize>,
}

impl View for BundleAdjustmentDue {
    type V = Seq<usize>;

    closed spec fn view(&self) -> Seq<usize> {
        self.bad_points@
    }
}

/// How a frame ended.
pub enum FrameKind {
    /// The map was empty: the frame made the first keyframe.
    Initialized,
    /// No keyframe was due.
    NoKeyframe,
    /// A keyframe was added; its bundle adjustment is due.
    KeyframeAdded(BundleAdjustmentDue),
}

/// The features followed in each image when the frame was processed, and
/// how the frame ended.
pub struct FrameReport {
    pub left_ids: Vec<usize>,
    pub right_ids: Vec<usize>,
    pub kind: FrameKind,
}

/// Why a frame could not be processed.
#[derive(Debug, PartialEq, Eq)]
pub enum FrameError {
    /// An outcome that the frame needs was not given.
    MissingOutcome,
}

/// The outcomes of `m` for `ids`, in order.
pub open spec fn outcome_checks<V>(ids: Seq<usize>, m: Map<usize, V>) -> Seq<(usize, V)> {
    ids.map_values(|id: usize| (id, m[id]))
}

/// A pending frame with nothing in it.
pub open spec fn empty_pending<O>() -> PendingView<O> {
    PendingView {
        bad_points: Seq::empty(),
        cam0: Map::empty(),
        cam1: Map::empty(),
        new_point_ids: Seq::empty(),
    }
}

/// Does the frame add a keyframe? It does when the map is empty, when the
/// camera moved or turned far enough, or when too many frames went by.
pub open spec fn frame_adds_keyframe<P, L>(
    landmarks: Map<usize, L>,
    pose: Option<PoseEstimate<P>>,
    frames_since_last_keyframe: u64,
    max_frames_between_keyframes: u64,
) -> bool {
    landmarks == Map::<usize, L>::empty() || match pose {
        Some(p) => spec_needs_keyframe(
            p.translation_exceeded,
            p.rotation_exceeded,
            frames_since_last_keyframe,
            max_frames_between_keyframes,
        ),
        None => false,
    }
}

/// Are all the outcomes that the frame needs given? The stereo checks of
/// the matches that can become landmarks while the map is empty; otherwise
/// the pose and the left unprojections of the followed landmarks, and, when
/// a keyframe is due, their right unprojections and the stereo checks too.
pub open spec fn frame_outcomes_complete<P, O, L>(
    landmarks: Map<usize, L>,
    left: Set<usize>,
    right: Set<usize>,
    frames_since_last_keyframe: u64,
    max_frames_between_keyframes: u64,
    outcomes: FrameOutcomes<P, O, L>,
) -> bool {
    let stereo_given = forall|id: usize|
        left.contains(id) && !landmarks.contains_key(id) && right.contains(id)
            ==> #[trigger] outcomes.stereo@.contains_key(id);
    if landmarks == Map::<usize, L>::empty() {
        stereo_given
    } else {
        &&& outcomes.pose is Some
        &&& forall|id: usize|
            left.contains(id) && landmarks.contains_key(id) ==> #[trigger] outcomes.left@.contains_key(
                id,
            )
        &&& frame_adds_keyframe(
            landmarks,
            outcomes.pose,
            frames_since_last_keyframe,
            max_frames_between_keyframes,
        ) ==> {
            &&& forall|id: usize|
                right.contains(id) && landmarks.contains_key(id)
                    ==> #[trigger] outcomes.right@.contains_key(id)
            &&& stereo_given
        }
    }
}

/// The landmark map and the pending keyframe of a first frame.
pub open spec fn initial_frame_effect<O, L>(
    landmarks: Map<usize, L>,
    left_ids: Seq<usize>,
    right_ids: Seq<usize>,
    stereo: Map<usize, StereoCheck<O, L>>,
) -> (Map<usize, L>, PendingView<O>) {
    new_points_effect(
        landmarks,
        empty_pending(),
        outcome_checks(matched_new_points(left_ids, landmarks, right_ids.to_set()), stereo),
    )
}

/// The features to stop following after a frame that adds no keyframe: the
/// landmarks whose left unprojection failed, then the followed features that
/// are not landmarks.
pub open spec fn tracking_bad_points<O, L>(
    landmarks: Map<usize, L>,
    left_ids: Seq<usize>,
    left: Map<usize, ObservationCheck<O>>,
) -> Seq<usize> {
    failed_observations(outcome_checks(known_landmarks(left_ids, landmarks), left)) + unknown_points(
        left_ids,
        landmarks,
    )
}

/// The landmark map and the pending keyframe of a frame that adds a
/// keyframe: the observations of the landmarks in both images, the
/// unmatched features marked bad, then the stereo matches checked.
pub open spec fn keyframe_frame_effect<O, L>(
    landmarks: Map<usize, L>,
    left_ids: Seq<usize>,
    right_ids: Seq<usize>,
    left: Map<usize, ObservationCheck<O>>,
    right: Map<usize, ObservationCheck<O>>,
    stereo: Map<usize, StereoCheck<O, L>>,
) -> (Map<usize, L>, PendingView<O>) {
    let observed = observations_effect(
        observations_effect(
            empty_pending(),
            Camera::Left,
            outcome_checks(known_landmarks(left_ids, landmarks), left),
        ),
        Camera::Right,
        outcome_checks(known_landmarks(right_ids, landmarks), right),
    );
    let selected = PendingView {
        bad_points: observed.bad_points + unmatched_new_points(
            left_ids,
            landmarks,
            right_ids.to_set(),
        ),
        ..observed
    };
    new_points_effect(
        landmarks,
        selected,
        outcome_checks(matched_new_points(left_ids, landmarks, right_ids.to_set()), stereo),
    )
}

/// The ids whose stereo checks passed, in order.
pub open spec fn admitted_points<O, L>(checks: Seq<(usize, StereoCheck<O, L>)>) -> Seq<usize>
    decreases checks.len(),
{
    if checks.len() == 0 {
        Seq::empty()
    } else {
        let rest = admitted_points(checks.drop_last());
        if checks.last().1 is Valid {
            rest.push(checks.last().0)
        } else {
            rest
        }
    }
}

/// Filtering keeps a sequence free of duplicates.
proof fn lemma_filter_no_duplicates(s: Seq<usize>, pred: spec_fn(usize) -> bool)
    requires
        s.no_duplicates(),
    ensures
        s.filter(pred).no_duplicates(),
    decreases s.len(),
{
    reveal(Seq::filter);
    if s.len() > 0 {
        let rest = s.drop_last();
        assert forall|i: int, j: int| 0 <= i < j < rest.len() implies rest[i] != rest[j] by {
            assert(rest[i] == s[i] && rest[j] == s[j]);
        }
        lemma_filter_no_duplicates(rest, pred);
        let f = rest.filter(pred);
        if pred(s.last()) {
            if f.contains(s.last()) {
                rest.lemma_filter_contains_rev(pred, s.last());
                let k = choose|k: int| 0 <= k < rest.len() && rest[k] == s.last();
                assert(s[k] == s[s.len() - 1]);
            }
            assert forall|i: int, j: int| 0 <= i < j < f.push(s.last()).len() implies f.push(
                s.last(),
            )[i] != f.push(s.last())[j] by {
                if j == f.len() {
                    assert(f.contains(f[i]));
                }
            }
        }
    }
}

/// Membership in a filtered sequence.
pub(crate) proof fn lemma_filter_contains_iff(s: Seq<usize>, pred: spec_fn(usize) -> bool, x: usize)
    ensures
        s.filter(pred).contains(x) <==> (s.contains(x) && pred(x)),
{
    broadcast use vstd::seq_lib::group_filter_ensures;

    if s.filter(pred).contains(x) {
        s.lemma_filter_contains_rev(pred, x);
        let k = choose|k: int| 0 <= k < s.filter(pred).len() && s.filter(pred)[k] == x;
    }
    if s.contains(x) && pred(x) {
        let k = choose|k: int| 0 <= k < s.len() && s[k] == x;
    }
}

/// Recording stereo outcomes adds exactly the admitted points to the
/// landmark ids.
proof fn lemma_new_points_landmark_ids<O, L>(
    landmarks: Map<usize, L>,
    pending: PendingView<O>,
    checks: Seq<(usize, StereoCheck<O, L>)>,
)
    ensures
        new_points_effect(landmarks, pending, checks).0.dom() == landmarks.dom() + admitted_points(
            checks,
        ).to_set(),
    decreases checks.len(),
{
    if checks.len() > 0 {
        let rest = checks.drop_last();
        lemma_new_points_landmark_ids(landmarks, pending, rest);
        let a = admitted_points(rest);
        if checks.last().1 is Valid {
            a.lemma_push_to_set_commute(checks.last().0);
        }
        assert(new_points_effect(landmarks, pending, checks).0.dom() =~= landmarks.dom()
            + admitted_points(checks).to_set());
    } else {
        assert(landmarks.dom() + Seq::<usize>::empty().to_set() =~= landmarks.dom());
    }
}

/// Starting from an empty map and an empty pending frame, every new
/// landmark is owned by the pending keyframe and observed in both images,
/// and nothing else is.
proof fn lemma_new_points_from_empty<O, L>(checks: Seq<(usize, StereoCheck<O, L>)>)
    ensures
        ({
            let (lm, p) = new_points_effect(Map::<usize, L>::empty(), empty_pending::<O>(), checks);
            &&& p.new_point_ids.to_set() == lm.dom()
            &&& p.cam0.dom() == lm.dom()
            &&& p.cam1.dom() == lm.dom()
        }),
    decreases checks.len(),
{
    if checks.len() > 0 {
        let rest = checks.drop_last();
        lemma_new_points_from_empty::<O, L>(rest);
        let (lm0, p0) = new_points_effect(Map::<usize, L>::empty(), empty_pending::<O>(), rest);
        let (lm, p) = new_points_effect(Map::<usize, L>::empty(), empty_pending::<O>(), checks);
        if checks.last().1 is Valid {
            p0.new_point_ids.lemma_push_to_set_commute(checks.last().0);
            assert(p.new_point_ids.to_set() =~= lm.dom());
            assert(p.cam0.dom() =~= lm.dom());
            assert(p.cam1.dom() =~= lm.dom());
        }
    } else {
        assert(Seq::<usize>::empty().to_set() =~= Map::<usize, L>::empty().dom());
        assert(Map::<usize, O>::empty().dom() =~= Map::<usize, L>::empty().dom());
    }
}

/// The failed observations among the outcomes of `ids` are the ids whose
/// outcome failed.
proof fn lemma_failed_outcomes<O>(ids: Seq<usize>, m: Map<usize, ObservationCheck<O>>, x: usize)
    ensures
        failed_observations(outcome_checks(ids, m)).contains(x) <==> (ids.contains(x)
            && m[x] is NonPositiveDepth),
    decreases ids.len(),
{
    if ids.len() > 0 {
        let rest = ids.drop_last();
        assert(outcome_checks(ids, m).drop_last() =~= outcome_checks(rest, m));
        lemma_failed_outcomes(rest, m, x);
        let f = failed_observations(outcome_checks(rest, m));
        if ids.contains(x) && m[x] is NonPositiveDepth {
            let k = choose|k: int| 0 <= k < ids.len() && ids[k] == x;
            if k < ids.len() - 1 {
                assert(rest[k] == x);
            }
        }
        if failed_observations(outcome_checks(ids, m)).contains(x) {
            if m[ids.last()] is NonPositiveDepth && x == ids.last() {
                assert(ids[ids.len() - 1] == x);
            } else {
                assert(f.contains(x) || x == ids.last());
                if f.contains(x) {
                    let k = choose|k: int| 0 <= k < rest.len() && rest[k] == x;
                    assert(ids[k] == x);
                } else {
                    assert(m[ids.last()] is NonPositiveDepth);
                    assert(ids[ids.len() - 1] == x);
                }
            }
        } else if m[ids.last()] is NonPositiveDepth {
            let g = f.push(ids.last());
            assert(g[g.len() - 1] == ids.last());
            if ids.contains(x) && m[x] is NonPositiveDepth && x != ids.last() {
                let k = choose|k: int| 0 <= k < ids.len() && ids[k] == x;
                assert(rest[k] == x);
                let j = choose|j: int| 0 <= j < f.len() && f[j] == x;
                assert(g[j] == x);
            }
        }
    }
}

/// After a frame that adds no keyframe, the features to stop following are
/// exactly the followed features that are not landmarks, and the followed
/// landmarks whose left unprojection failed.
pub proof fn lemma_tracking_bad_points<O, L>(
    landmarks: Map<usize, L>,
    left_ids: Seq<usize>,
    left: Map<usize, ObservationCheck<O>>,
)
    ensures
        tracking_bad_points(landmarks, left_ids, left).to_set() == Set::new(
            |id: usize|
                left_ids.contains(id) && (!landmarks.contains_key(id)
                    || left[id] is NonPositiveDepth),
        ),
{
    let known = known_landmarks(left_ids, landmarks);
    let failed = failed_observations(outcome_checks(known, left));
    let unknown = unknown_points(left_ids, landmarks);
    let bad = failed + unknown;
    assert forall|x: usize| #[trigger] bad.to_set().contains(x) == (left_ids.contains(x) && (
    !landmarks.contains_key(x) || left[x] is NonPositiveDepth)) by {
        lemma_failed_outcomes(known, left, x);
        lemma_filter_contains_iff(left_ids, |id: usize| landmarks.contains_key(id), x);
        lemma_filter_contains_iff(left_ids, |id: usize| !landmarks.contains_key(id), x);
        if bad.contains(x) {
            let k = choose|k: int| 0 <= k < bad.len() && bad[k] == x;
            if k < failed.len() {
                assert(failed[k] == x);
            } else {
                assert(unknown[k - failed.len()] == x);
            }
        }
        if failed.contains(x) {
            let k = choose|k: int| 0 <= k < failed.len() && failed[k] == x;
            assert(bad[k] == x);
        }
        if unknown.contains(x) {
            let k = choose|k: int| 0 <= k < unknown.len() && unknown[k] == x;
            assert(bad[failed.len() + k] == x);
        }
    }
    assert(bad.to_set() =~= Set::new(
        |id: usize|
            left_ids.contains(id) && (!landmarks.contains_key(id) || left[id] is NonPositiveDepth),
    ));
}

/// A keyframe comes within every `max + 1` consecutive frames: a frame that
/// adds none advances the frame counter by one, and a frame whose counter
/// exceeds `max` adds one. The counter is at least one at the start of every
/// frame but the very first, which finds the map empty, and every frame that
/// finds landmarks has a pose.
pub proof fn lemma_keyframe_within_max_plus_one<P, L>(
    landmarks: Seq<Map<usize, L>>,
    poses: Seq<Option<PoseEstimate<P>>>,
    counters: Seq<u64>,
    max: u64,
)
    requires
        landmarks.len() == max + 1,
        poses.len() == max + 1,
        counters.len() == max + 1,
        counters[0] >= 1 || landmarks[0] == Map::<usize, L>::empty(),
        forall|i: int|
            0 <= i <= max && #[trigger] landmarks[i] != Map::<usize, L>::empty()
                ==> poses[i] is Some,
        forall|i: int|
            0 <= i < max && !frame_adds_keyframe(
                #[trigger] landmarks[i],
                poses[i],
                counters[i],
                max,
            ) ==> counters[i + 1] == counters[i] + 1,
    ensures
        exists|i: int| 0 <= i <= max && frame_adds_keyframe(landmarks[i], poses[i], counters[i], max),
{
    if !(exists|i: int| 0 <= i <= max && frame_adds_keyframe(landmarks[i], poses[i], counters[i], max)) {
        assert(!frame_adds_keyframe(landmarks[0], poses[0], counters[0], max));
        lemma_counters_advance(landmarks, poses, counters, max, max as int);
        assert(landmarks[max as int] != Map::<usize, L>::empty());
        assert(poses[max as int] is Some);
        assert(frame_adds_keyframe(
            landmarks[max as int],
            poses[max as int],
            counters[max as int],
            max,
        ));
    }
}

/// While no keyframe is added, the frame counter advances by one per frame.
proof fn lemma_counters_advance<P, L>(
    landmarks: Seq<Map<usize, L>>,
    poses: Seq<Option<PoseEstimate<P>>>,
    counters: Seq<u64>,
    max: u64,
    k: int,
)
    requires
        0 <= k <= max,
        landmarks.len() == max + 1,
        poses.len() == max + 1,
        counters.len() == max + 1,
        forall|i: int|
            0 <= i < max && !frame_adds_keyframe(
                #[trigger] landmarks[i],
                poses[i],
                counters[i],
                max,
            ) ==> counters[i + 1] == counters[i] + 1,
        forall|i: int|
            0 <= i < k ==> !frame_adds_keyframe(#[trigger] landmarks[i], poses[i], counters[i], max),
    ensures
        counters[k] == counters[0] + k,
    decreases k,
{
    if k > 0 {
        lemma_counters_advance(landmarks, poses, counters, max, k - 1);
        assert(!frame_adds_keyframe(landmarks[k - 1], poses[k - 1], counters[k - 1], max));
    }
}

/// The outcomes of `m` are given for every id of `s` that satisfies `pred`
/// exactly when they are given for every element of `s.filter(pred)`.
proof fn lemma_given_on_filter<V>(s: Seq<usize>, pred: spec_fn(usize) -> bool, m: Map<usize, V>)
    ensures
        (forall|j: int| 0 <= j < s.filter(pred).len() ==> m.contains_key(#[trigger] s.filter(pred)[j]))
            <==> (forall|id: usize| s.to_set().contains(id) && pred(id) ==> #[trigger] m.contains_key(id)),
{
    let f = s.filter(pred);
    if forall|j: int| 0 <= j < f.len() ==> m.contains_key(#[trigger] f[j]) {
        assert forall|id: usize| s.to_set().contains(id) && pred(id) implies #[trigger] m.contains_key(id) by {
            lemma_filter_contains_iff(s, pred, id);
            let j = choose|j: int| 0 <= j < f.len() && f[j] == id;
        }
    }
    if forall|id: usize| s.to_set().contains(id) && pred(id) ==> #[trigger] m.contains_key(id) {
        assert forall|j: int| 0 <= j < f.len() implies m.contains_key(#[trigger] f[j]) by {
            assert(f.contains(f[j]));
            lemma_filter_contains_iff(s, pred, f[j]);
        }
    }
}

/// What the first frame does: its stereo matches become landmarks or are
/// marked bad; the one keyframe it adds sits at `identity` and owns exactly
/// the new landmarks, which it observes in both images; the tracker stops
/// following the bad features and both counters advance.
pub open spec fn initial_frame_done<P, O, L>(
    old: EstimatorCore<P, O, L>,
    new: EstimatorCore<P, O, L>,
    stereo: Map<usize, StereoCheck<O, L>>,
    identity: P,
    left_ids: Seq<usize>,
    right_ids: Seq<usize>,
) -> bool {
    let (lm, p) = initial_frame_effect(old.landmarks@, left_ids, right_ids, stereo);
    &&& new.landmarks@ == lm
    &&& new.keyframe_window@ == spec_add_keyframe(
        old.keyframe_window@,
        pending_keyframe(p, identity),
    ).0
    &&& p.new_point_ids.to_set() == lm.dom()
    &&& p.cam0.dom() == lm.dom()
    &&& p.cam1.dom() == lm.dom()
    &&& tracked_ids_cam0(new.tracker) == tracked_ids_cam0(old.tracker).difference(
        p.bad_points.to_set(),
    )
    &&& tracked_ids_cam1(new.tracker) == tracked_ids_cam1(old.tracker).difference(
        p.bad_points.to_set(),
    )
    &&& tracker_settings(new.tracker) == tracker_settings(old.tracker)
    &&& new.frame_id_counter == old.frame_id_counter + 1
    &&& new.frames_since_last_keyframe == old.frames_since_last_keyframe + 1
    &&& new.max_frames_between_keyframes == old.max_frames_between_keyframes
    &&& new.keyframe_trajectory@ == old.keyframe_trajectory@
    &&& new.current_t_w_cam0 == old.current_t_w_cam0
    &&& new.removed_good_landmarks@ == old.removed_good_landmarks@
    &&& new.new_keyframe_added
}

/// What a frame that adds no keyframe does: only the current pose and the
/// tracker change; the tracker stops following the features that are not
/// landmarks and the landmarks whose left unprojection failed.
pub open spec fn frame_without_keyframe_done<P, O, L>(
    old: EstimatorCore<P, O, L>,
    new: EstimatorCore<P, O, L>,
    pose: PoseEstimate<P>,
    left: Map<usize, ObservationCheck<O>>,
    left_ids: Seq<usize>,
) -> bool {
    let bad = tracking_bad_points(old.landmarks@, left_ids, left);
    &&& new.landmarks@ == old.landmarks@
    &&& new.keyframe_window@ == old.keyframe_window@
    &&& new.keyframe_trajectory@ == old.keyframe_trajectory@
    &&& new.removed_good_landmarks@ == old.removed_good_landmarks@
    &&& new.current_t_w_cam0 == pose.t_w_cam0
    &&& bad.to_set() == Set::new(
        |id: usize|
            left_ids.contains(id) && (!old.landmarks@.contains_key(id)
                || left[id] is NonPositiveDepth),
    )
    &&& tracked_ids_cam0(new.tracker) == tracked_ids_cam0(old.tracker).difference(bad.to_set())
    &&& tracked_ids_cam1(new.tracker) == tracked_ids_cam1(old.tracker).difference(bad.to_set())
    &&& tracker_settings(new.tracker) == tracker_settings(old.tracker)
    &&& new.frame_id_counter == old.frame_id_counter + 1
    &&& new.frames_since_last_keyframe == old.frames_since_last_keyframe + 1
    &&& new.max_frames_between_keyframes == old.max_frames_between_keyframes
    &&& !new.new_keyframe_added
}

/// What a frame that adds a keyframe does before its bundle adjustment: the
/// new keyframe enters the window at the estimated pose; the landmarks are
/// the old ones and the admitted new ones, less those the window dropped;
/// the features to stop following (`due`) include the dropped ones. The
/// tracker and the frame id are left for `finish_keyframe`.
pub open spec fn keyframe_frame_done<P, O, L>(
    old: EstimatorCore<P, O, L>,
    new: EstimatorCore<P, O, L>,
    pose: PoseEstimate<P>,
    left: Map<usize, ObservationCheck<O>>,
    right: Map<usize, ObservationCheck<O>>,
    stereo: Map<usize, StereoCheck<O, L>>,
    left_ids: Seq<usize>,
    right_ids: Seq<usize>,
    due: Seq<usize>,
) -> bool {
    let lm0 = old.landmarks@;
    let (lm1, p) = keyframe_frame_effect(lm0, left_ids, right_ids, left, right, stereo);
    let admitted = admitted_points(
        outcome_checks(matched_new_points(left_ids, lm0, right_ids.to_set()), stereo),
    );
    let (w, marg) = spec_add_keyframe(old.keyframe_window@, pending_keyframe(p, pose.t_cam0_w));
    let dropped = match marg {
        Some((_, ids)) => ids,
        None => Seq::empty(),
    };
    &&& new.keyframe_window@ == w
    &&& new.landmarks@ == lm1.remove_keys(dropped.to_set())
    &&& new.landmarks@.dom() == (lm0.dom() + admitted.to_set()).difference(dropped.to_set())
    &&& due == p.bad_points + dropped
    &&& match marg {
        Some((marg_pose, ids)) => {
            &&& new.removed_good_landmarks@ == crate::estimator::removed_landmarks(ids, lm1)
            &&& new.keyframe_trajectory@ == old.keyframe_trajectory@.push(marg_pose)
        },
        None => {
            &&& new.removed_good_landmarks@ == old.removed_good_landmarks@
            &&& new.keyframe_trajectory@ == old.keyframe_trajectory@
        },
    }
    &&& new.current_t_w_cam0 == pose.t_w_cam0
    &&& new.tracker == old.tracker
    &&& new.frame_id_counter == old.frame_id_counter
    &&& new.frames_since_last_keyframe == 0
    &&& new.max_frames_between_keyframes == old.max_frames_between_keyframes
    &&& new.new_keyframe_added
}

/// What closing a keyframe frame does: the rejected landmarks leave the
/// map; the tracker stops following them and the features marked bad
/// (`due`); both counters advance; nothing else changes.
pub open spec fn keyframe_finished<P, O, L>(
    old: EstimatorCore<P, O, L>,
    new: EstimatorCore<P, O, L>,
    due: Seq<usize>,
    rejected: Seq<usize>,
) -> bool {
    &&& new.landmarks@ == old.landmarks@.remove_keys(rejected.to_set())
    &&& new.landmarks@.dom() == old.landmarks@.dom().difference(rejected.to_set())
    &&& tracked_ids_cam0(new.tracker) == tracked_ids_cam0(old.tracker).difference(
        (due + rejected).to_set(),
    )
    &&& tracked_ids_cam1(new.tracker) == tracked_ids_cam1(old.tracker).difference(
        (due + rejected).to_set(),
    )
    &&& tracker_settings(new.tracker) == tracker_settings(old.tracker)
    &&& new.frame_id_counter == old.frame_id_counter + 1
    &&& new.frames_since_last_keyframe == old.frames_since_last_keyframe + 1
    &&& new.max_frames_between_keyframes == old.max_frames_between_keyframes
    &&& new.keyframe_window@ == old.keyframe_window@
    &&& new.keyframe_trajectory@ == old.keyframe_trajectory@
    &&& new.current_t_w_cam0 == old.current_t_w_cam0
    &&& new.removed_good_landmarks@ == old.removed_good_landmarks@
    &&& new.new_keyframe_added == old.new_keyframe_added
}

/// Two estimators are in the same state: the same landmarks, window,
/// trajectory, removed landmarks, current pose, counters and keyframe flag,
/// and trackers that follow the same ids with the same settings.
pub open spec fn cores_agree<P, O, L>(a: EstimatorCore<P, O, L>, b: EstimatorCore<P, O, L>) -> bool {
    &&& a.landmarks@ == b.landmarks@
    &&& a.keyframe_window@ == b.keyframe_window@
    &&& a.keyframe_trajectory@ == b.keyframe_trajectory@
    &&& a.removed_good_landmarks@ == b.removed_good_landmarks@
    &&& a.current_t_w_cam0 == b.current_t_w_cam0
    &&& a.frame_id_counter == b.frame_id_counter
    &&& a.frames_since_last_keyframe == b.frames_since_last_keyframe
    &&& a.max_frames_between_keyframes == b.max_frames_between_keyframes
    &&& a.new_keyframe_added == b.new_keyframe_added
    &&& tracked_ids_cam0(a.tracker) == tracked_ids_cam0(b.tracker)
    &&& tracked_ids_cam1(a.tracker) == tracked_ids_cam1(b.tracker)
    &&& tracker_settings(a.tracker) == tracker_settings(b.tracker)
}

/// Two sets of outcomes hold the same pose and the same outcome for every id.
pub open spec fn same_outcomes<P, O, L>(a: FrameOutcomes<P, O, L>, b: FrameOutcomes<P, O, L>) -> bool {
    &&& a.pose == b.pose
    &&& a.left@ == b.left@
    &&& a.right@ == b.right@
    &&& a.stereo@ == b.stereo@
}

/// What `process_frame` did, given how the frame ended.
pub open spec fn frame_processed<P, O, L>(
    old: EstimatorCore<P, O, L>,
    new: EstimatorCore<P, O, L>,
    outcomes: FrameOutcomes<P, O, L>,
    identity: P,
    report: FrameReport,
) -> bool {
    let lm0 = old.landmarks@;
    let left_ids = report.left_ids@;
    let right_ids = report.right_ids@;
    &&& left_ids.to_set() == tracked_ids_cam0(old.tracker)
    &&& strictly_increasing(left_ids)
    &&& right_ids.to_set() == tracked_ids_cam1(old.tracker)
    &&& strictly_increasing(right_ids)
    &&& new.new_keyframe_added == frame_adds_keyframe(
        lm0,
        outcomes.pose,
        old.frames_since_last_keyframe,
        old.max_frames_between_keyframes,
    )
    &&& match report.kind {
        FrameKind::Initialized => {
            &&& lm0 == Map::<usize, L>::empty()
            &&& initial_frame_done(old, new, outcomes.stereo@, identity, left_ids, right_ids)
        },
        FrameKind::NoKeyframe => {
            &&& lm0 != Map::<usize, L>::empty()
            &&& outcomes.pose is Some
            &&& frame_without_keyframe_done(
                old,
                new,
                outcomes.pose.unwrap(),
                outcomes.left@,
                left_ids,
            )
        },
        FrameKind::KeyframeAdded(due) => {
            &&& lm0 != Map::<usize, L>::empty()
            &&& outcomes.pose is Some
            &&& keyframe_frame_done(
                old,
                new,
                outcomes.pose.unwrap(),
                outcomes.left@,
                outcomes.right@,
                outcomes.stereo@,
                left_ids,
                right_ids,
                due@,
            )
        },
    }
}

/// Is `s` strictly increasing?
pub open spec fn strictly_increasing(s: Seq<usize>) -> bool {
    forall|i: int, j: int| 0 <= i < j < s.len() ==> s[i] < s[j]
}

/// Two strictly increasing sequences of the same ids are equal.
pub proof fn lemma_increasing_unique(a: Seq<usize>, b: Seq<usize>)
    requires
        strictly_increasing(a),
        strictly_increasing(b),
        a.to_set() == b.to_set(),
    ensures
        a == b,
    decreases a.len(),
{
    if a.len() == 0 {
        if b.len() > 0 {
            assert(b.to_set().contains(b[0]));
            assert(a.to_set().contains(b[0]));
        }
        assert(a =~= b);
    } else {
        assert(a.to_set().contains(a[0]));
        assert(b.to_set().contains(a[0]));
        let k = choose|k: int| 0 <= k < b.len() && b[k] == a[0];
        assert(b.to_set().contains(b[0]));
        assert(a.to_set().contains(b[0]));
        let m = choose|m: int| 0 <= m < a.len() && a[m] == b[0];
        assert(a[0] == b[0]) by {
            if k > 0 {
                assert(b[0] < b[k]);
            }
            if m > 0 {
                assert(a[0] < a[m]);
            }
        }
        let ta = a.drop_first();
        let tb = b.drop_first();
        assert forall|x: usize| ta.to_set().contains(x) == tb.to_set().contains(x) by {
            if ta.to_set().contains(x) {
                let i = choose|i: int| 0 <= i < ta.len() && ta[i] == x;
                assert(a[i + 1] == x);
                assert(a.to_set().contains(x));
                assert(b.to_set().contains(x));
                let j = choose|j: int| 0 <= j < b.len() && b[j] == x;
                assert(x > a[0]);
                assert(j != 0);
                assert(tb[j - 1] == x);
            }
            if tb.to_set().contains(x) {
                let i = choose|i: int| 0 <= i < tb.len() && tb[i] == x;
                assert(b[i + 1] == x);
                assert(b.to_set().contains(x));
                assert(a.to_set().contains(x));
                let j = choose|j: int| 0 <= j < a.len() && a[j] == x;
                assert(x > b[0]);
                assert(j != 0);
                assert(ta[j - 1] == x);
            }
        }
        assert(ta.to_set() =~= tb.to_set());
        lemma_increasing_unique(ta, tb);
        assert(a =~= b) by {
            assert forall|i: int| 0 <= i < a.len() implies a[i] == b[i] by {
                if i > 0 {
                    assert(a[i] == ta[i - 1]);
                    assert(b[i] == tb[i - 1]);
                }
            }
        }
    }
}

/// The ids of `ids` in increasing order (the ids come once each).
fn sorted_ids(ids: &Vec<usize>) -> (sorted: Vec<usize>)
    requires
        ids@.no_duplicates(),
    ensures
        sorted@.to_set() == ids@.to_set(),
        strictly_increasing(sorted@),
        sorted@.no_duplicates(),
{
    let mut sorted: Vec<usize> = Vec::new();
    let n = ids.len();
    for i in 0..n
        invariant
            n == ids@.len(),
            ids@.no_duplicates(),
            strictly_increasing(sorted@),
            sorted@.to_set() == ids@.take(i as int).to_set(),
    {
        let x = ids[i];
        let mut p: usize = 0;
        while p < sorted.len() && sorted[p] < x
            invariant
                p <= sorted@.len(),
                forall|j: int| 0 <= j < p ==> sorted@[j] < x,
            decreases sorted@.len() - p,
        {
            p = p + 1;
        }
        let ghost before = sorted@;
        proof {
            assert(!ids@.take(i as int).contains(x)) by {
                if ids@.take(i as int).contains(x) {
                    let j = choose|j: int| 0 <= j < i && ids@.take(i as int)[j] == x;
                    assert(ids@[j] == ids@[i as int]);
                }
            }
            assert(!before.to_set().contains(x));
            before.insert_ensures(p as int, x);
        }
        sorted.insert(p, x);
        proof {
            let after = sorted@;
            if p < before.len() {
                assert(before[p as int] != x) by {
                    assert(before.to_set().contains(before[p as int]));
                }
                assert(before[p as int] > x);
            }
            assert forall|a: int, b: int| 0 <= a < b < after.len() implies after[a] < after[b] by {
                if b < p {
                } else if b == p {
                } else if a < p {
                    assert(after[b] == before[b - 1]);
                    if b - 1 > p {
                        assert(before[p as int] < before[b - 1]);
                    }
                } else if a == p {
                    assert(after[b] == before[b - 1]);
                    if b - 1 > p {
                        assert(before[p as int] < before[b - 1]);
                    }
                } else {
                    assert(after[a] == before[a - 1]);
                    assert(after[b] == before[b - 1]);
                }
            }
            assert(ids@.take(i + 1) == ids@.take(i as int).push(x));
            ids@.take(i as int).lemma_push_to_set_commute(x);
            assert forall|y: usize| after.to_set().contains(y) == before.to_set().insert(x).contains(y) by {
                if after.to_set().contains(y) {
                    let k = choose|k: int| 0 <= k < after.len() && after[k] == y;
                    if k < p {
                        assert(before[k] == y);
                    } else if k > p {
                        assert(before[k - 1] == y);
                    }
                }
                if before.to_set().contains(y) {
                    let k = choose|k: int| 0 <= k < before.len() && before[k] == y;
                    if k < p {
                        assert(after[k] == y);
                    } else {
                        assert(after[k + 1] == y);
                    }
                }
                if y == x {
                    assert(after[p as int] == y);
                }
            }
            assert(after.to_set() =~= ids@.take(i + 1).to_set());
        }
    }
    assert(ids@.take(n as int) =~= ids@);
    assert(sorted@.no_duplicates()) by {
        assert forall|a: int, b: int| 0 <= a < b < sorted@.len() implies sorted@[a] != sorted@[b] by {
        }
    }
    sorted
}

/// A frame is determined by the state and the outcomes: two estimators in
/// the same state that are given the same outcomes either both refuse the
/// frame or both process it, and then end in the same state, having handed
/// the tracker the same ids and left the same features due.
pub proof fn lemma_frame_is_determined<P, O, L>(
    a: EstimatorCore<P, O, L>,
    a2: EstimatorCore<P, O, L>,
    b: EstimatorCore<P, O, L>,
    b2: EstimatorCore<P, O, L>,
    outcomes_a: FrameOutcomes<P, O, L>,
    outcomes_b: FrameOutcomes<P, O, L>,
    identity: P,
    report_a: FrameReport,
    report_b: FrameReport,
)
    requires
        cores_agree(a, b),
        same_outcomes(outcomes_a, outcomes_b),
        frame_processed(a, a2, outcomes_a, identity, report_a),
        frame_processed(b, b2, outcomes_b, identity, report_b),
    ensures
        frame_outcomes_complete(
            a.landmarks@,
            tracked_ids_cam0(a.tracker),
            tracked_ids_cam1(a.tracker),
            a.frames_since_last_keyframe,
            a.max_frames_between_keyframes,
            outcomes_a,
        ) == frame_outcomes_complete(
            b.landmarks@,
            tracked_ids_cam0(b.tracker),
            tracked_ids_cam1(b.tracker),
            b.frames_since_last_keyframe,
            b.max_frames_between_keyframes,
            outcomes_b,
        ),
        cores_agree(a2, b2),
        report_a.left_ids@ == report_b.left_ids@,
        report_a.right_ids@ == report_b.right_ids@,
        match (report_a.kind, report_b.kind) {
            (FrameKind::Initialized, FrameKind::Initialized) => true,
            (FrameKind::NoKeyframe, FrameKind::NoKeyframe) => true,
            (FrameKind::KeyframeAdded(due_a), FrameKind::KeyframeAdded(due_b)) => due_a@ == due_b@,
            _ => false,
        },
{
    lemma_increasing_unique(report_a.left_ids@, report_b.left_ids@);
    lemma_increasing_unique(report_a.right_ids@, report_b.right_ids@);
}

/// Writing back the same bundle adjustment keeps two estimators in the
/// same state.
pub proof fn lemma_bundle_adjustment_is_determined<P, O, L>(
    a: EstimatorCore<P, O, L>,
    a2: EstimatorCore<P, O, L>,
    b: EstimatorCore<P, O, L>,
    b2: EstimatorCore<P, O, L>,
    poses: Seq<Option<P>>,
    updates: Seq<(usize, L)>,
)
    requires
        cores_agree(a, b),
        crate::estimator::bundle_adjustment_applied(a, a2, poses, updates),
        crate::estimator::bundle_adjustment_applied(b, b2, poses, updates),
    ensures
        cores_agree(a2, b2),
{
    assert(a2.keyframe_window@.frames =~= b2.keyframe_window@.frames);
}

/// Closing a keyframe frame with the same features due and the same
/// rejected landmarks keeps two estimators in the same state.
pub proof fn lemma_finish_is_determined<P, O, L>(
    a: EstimatorCore<P, O, L>,
    a2: EstimatorCore<P, O, L>,
    b: EstimatorCore<P, O, L>,
    b2: EstimatorCore<P, O, L>,
    due: Seq<usize>,
    rejected: Seq<usize>,
)
    requires
        cores_agree(a, b),
        keyframe_finished(a, a2, due, rejected),
        keyframe_finished(b, b2, due, rejected),
    ensures
        cores_agree(a2, b2),
{
}

/// A frame adds a keyframe exactly when the map is empty, or the motion since
/// the last keyframe exceeds the translation or the rotation threshold, or
/// more than the maximum number of frames went by without a keyframe.
pub proof fn lemma_keyframe_decision<P, L>(
    landmarks: Map<usize, L>,
    pose: PoseEstimate<P>,
    frames_since_last_keyframe: u64,
    max_frames_between_keyframes: u64,
)
    ensures
        frame_adds_keyframe(
            landmarks,
            Some(pose),
            frames_since_last_keyframe,
            max_frames_between_keyframes,
        ) == (landmarks == Map::<usize, L>::empty() || pose.translation_exceeded
            || pose.rotation_exceeded || frames_since_last_keyframe > max_frames_between_keyframes),
        frame_adds_keyframe(
            Map::<usize, L>::empty(),
            None::<PoseEstimate<P>>,
            frames_since_last_keyframe,
            max_frames_between_keyframes,
        ),
{
}

/// Recording observations in one image stores every valid observation under
/// its id in that image's map, and leaves the other image's map alone (the
/// ids of the checks come once each).
proof fn lemma_observations_stored<O>(
    pending: PendingView<O>,
    camera: Camera,
    checks: Seq<(usize, ObservationCheck<O>)>,
)
    requires
        forall|i: int, j: int| 0 <= i < j < checks.len() ==> checks[i].0 != checks[j].0,
    ensures
        ({
            let r = observations_effect(pending, camera, checks);
            &&& camera == Camera::Left ==> r.cam1 == pending.cam1
            &&& camera == Camera::Right ==> r.cam0 == pending.cam0
            &&& forall|k: int|
                0 <= k < checks.len() && (#[trigger] checks[k]).1 is Valid ==> {
                    &&& camera == Camera::Left ==> r.cam0.contains_key(checks[k].0)
                        && r.cam0[checks[k].0] == checks[k].1->0
                    &&& camera == Camera::Right ==> r.cam1.contains_key(checks[k].0)
                        && r.cam1[checks[k].0] == checks[k].1->0
                }
        }),
    decreases checks.len(),
{
    if checks.len() > 0 {
        let rest = checks.drop_last();
        lemma_observations_stored(pending, camera, rest);
        let r = observations_effect(pending, camera, checks);
        assert forall|k: int|
            0 <= k < checks.len() && (#[trigger] checks[k]).1 is Valid implies {
            &&& camera == Camera::Left ==> r.cam0.contains_key(checks[k].0)
                && r.cam0[checks[k].0] == checks[k].1->0
            &&& camera == Camera::Right ==> r.cam1.contains_key(checks[k].0)
                && r.cam1[checks[k].0] == checks[k].1->0
        } by {
            if k < checks.len() - 1 {
                assert(rest[k] == checks[k]);
                assert(checks[k].0 != checks[checks.len() - 1].0);
            }
        }
    }
}

/// Recording stereo outcomes touches the observations of the checked ids
/// only.
proof fn lemma_new_points_keep_observations<O, L>(
    landmarks: Map<usize, L>,
    pending: PendingView<O>,
    checks: Seq<(usize, StereoCheck<O, L>)>,
    id: usize,
)
    requires
        forall|k: int| 0 <= k < checks.len() ==> (#[trigger] checks[k]).0 != id,
    ensures
        ({
            let p = new_points_effect(landmarks, pending, checks).1;
            &&& p.cam0.contains_key(id) == pending.cam0.contains_key(id)
            &&& p.cam0[id] == pending.cam0[id]
            &&& p.cam1.contains_key(id) == pending.cam1.contains_key(id)
            &&& p.cam1[id] == pending.cam1[id]
        }),
    decreases checks.len(),
{
    if checks.len() > 0 {
        let rest = checks.drop_last();
        assert forall|k: int| 0 <= k < rest.len() implies (#[trigger] rest[k]).0 != id by {
            assert(rest[k] == checks[k]);
        }
        lemma_new_points_keep_observations(landmarks, pending, rest, id);
        assert(checks[checks.len() - 1].0 != id);
    }
}

/// The outcomes of distinct ids are checks of distinct ids.
proof fn lemma_outcome_ids_distinct<V>(ids: Seq<usize>, m: Map<usize, V>)
    requires
        ids.no_duplicates(),
    ensures
        forall|i: int, j: int|
            0 <= i < j < outcome_checks(ids, m).len() ==> outcome_checks(ids, m)[i].0
                != outcome_checks(ids, m)[j].0,
{
}

/// After a frame that adds a keyframe, the new keyframe (the newest one of
/// the window) holds, for every followed landmark that is still a landmark,
/// its valid left observation in its left map and its valid right
/// observation in its right map.
pub proof fn lemma_keyframe_observations<P, O, L>(
    old: EstimatorCore<P, O, L>,
    new: EstimatorCore<P, O, L>,
    pose: PoseEstimate<P>,
    left: Map<usize, ObservationCheck<O>>,
    right: Map<usize, ObservationCheck<O>>,
    stereo: Map<usize, StereoCheck<O, L>>,
    left_ids: Seq<usize>,
    right_ids: Seq<usize>,
    due: Seq<usize>,
)
    requires
        keyframe_frame_done(old, new, pose, left, right, stereo, left_ids, right_ids, due),
        left_ids.no_duplicates(),
        right_ids.no_duplicates(),
    ensures
        new.keyframe_window@.frames.len() > 0,
        forall|id: usize|
            left_ids.contains(id) && old.landmarks@.contains_key(id) && left.contains_key(id)
                && (#[trigger] left[id]) is Valid && new.landmarks@.contains_key(id)
                ==> new.keyframe_window@.frames.last().cam0.contains_key(id)
                && new.keyframe_window@.frames.last().cam0[id] == left[id]->0,
        forall|id: usize|
            right_ids.contains(id) && old.landmarks@.contains_key(id) && right.contains_key(id)
                && (#[trigger] right[id]) is Valid && new.landmarks@.contains_key(id)
                ==> new.keyframe_window@.frames.last().cam1.contains_key(id)
                && new.keyframe_window@.frames.last().cam1[id] == right[id]->0,
{
    let lm0 = old.landmarks@;
    let known_left = known_landmarks(left_ids, lm0);
    let known_right = known_landmarks(right_ids, lm0);
    let left_checks = outcome_checks(known_left, left);
    let right_checks = outcome_checks(known_right, right);
    let candidates = matched_new_points(left_ids, lm0, right_ids.to_set());
    let stereo_checks = outcome_checks(candidates, stereo);
    let after_left = observations_effect(empty_pending(), Camera::Left, left_checks);
    let observed = observations_effect(after_left, Camera::Right, right_checks);
    let selected = PendingView {
        bad_points: observed.bad_points + unmatched_new_points(left_ids, lm0, right_ids.to_set()),
        ..observed
    };
    let (lm1, p) = new_points_effect(lm0, selected, stereo_checks);
    let kf = pending_keyframe(p, pose.t_cam0_w);
    let (w, marg) = spec_add_keyframe(old.keyframe_window@, kf);
    let dropped = match marg {
        Some((_, ids)) => ids,
        None => Seq::empty(),
    };
    lemma_filter_no_duplicates(left_ids, |x: usize| lm0.contains_key(x));
    lemma_filter_no_duplicates(right_ids, |x: usize| lm0.contains_key(x));
    lemma_outcome_ids_distinct(known_left, left);
    lemma_outcome_ids_distinct(known_right, right);
    lemma_observations_stored(empty_pending(), Camera::Left, left_checks);
    lemma_observations_stored(after_left, Camera::Right, right_checks);
    // The newest keyframe is the pending one, less the dropped landmarks.
    let last = new.keyframe_window@.frames.last();
    assert(last.cam0 == kf.cam0.remove_keys(dropped.to_set()) && last.cam1 == kf.cam1.remove_keys(
        dropped.to_set(),
    ));
    assert forall|id: usize|
        left_ids.contains(id) && lm0.contains_key(id) && left.contains_key(id)
            && (#[trigger] left[id]) is Valid && new.landmarks@.contains_key(id) implies last.cam0.contains_key(id)
            && last.cam0[id] == left[id]->0 by {
        lemma_filter_contains_iff(left_ids, |x: usize| lm0.contains_key(x), id);
        let k = choose|k: int| 0 <= k < known_left.len() && known_left[k] == id;
        assert(left_checks[k] == (id, left[id]));
        assert forall|j: int| 0 <= j < stereo_checks.len() implies (
        #[trigger] stereo_checks[j]).0 != id by {
            assert(stereo_checks[j].0 == candidates[j]);
            lemma_filter_contains_iff(
                left_ids,
                |x: usize| !lm0.contains_key(x) && right_ids.to_set().contains(x),
                candidates[j],
            );
            assert(candidates.contains(candidates[j]));
        }
        lemma_new_points_keep_observations(lm0, selected, stereo_checks, id);
        assert(!dropped.to_set().contains(id));
    }
    assert forall|id: usize|
        right_ids.contains(id) && lm0.contains_key(id) && right.contains_key(id)
            && (#[trigger] right[id]) is Valid && new.landmarks@.contains_key(id) implies last.cam1.contains_key(id)
            && last.cam1[id] == right[id]->0 by {
        lemma_filter_contains_iff(right_ids, |x: usize| lm0.contains_key(x), id);
        let k = choose|k: int| 0 <= k < known_right.len() && known_right[k] == id;
        assert(right_checks[k] == (id, right[id]));
        assert forall|j: int| 0 <= j < stereo_checks.len() implies (
        #[trigger] stereo_checks[j]).0 != id by {
            assert(stereo_checks[j].0 == candidates[j]);
            lemma_filter_contains_iff(
                left_ids,
                |x: usize| !lm0.contains_key(x) && right_ids.to_set().contains(x),
                candidates[j],
            );
            assert(candidates.contains(candidates[j]));
        }
        lemma_new_points_keep_observations(lm0, selected, stereo_checks, id);
        assert(!dropped.to_set().contains(id));
    }
}

/// The first frame: every match followed in both images whose stereo
/// checks pass becomes a landmark at its triangulated position, observed by
/// the new keyframe with its left and right observations and owned by it;
/// every match whose checks fail is no landmark and is no longer followed.
/// (When the window is full the new keyframe is the one after the
/// marginalized one; this law is stated for a window that is not full.)
pub proof fn lemma_first_frame_outcomes<P, O, L>(
    old: EstimatorCore<P, O, L>,
    new: EstimatorCore<P, O, L>,
    stereo: Map<usize, StereoCheck<O, L>>,
    identity: P,
    left_ids: Seq<usize>,
    right_ids: Seq<usize>,
)
    requires
        initial_frame_done(old, new, stereo, identity, left_ids, right_ids),
        old.landmarks@ == Map::<usize, L>::empty(),
        left_ids.no_duplicates(),
        !(old.keyframe_window@.frames.len() == old.keyframe_window@.max_size
            && old.keyframe_window@.frames.len() > 0),
    ensures
        new.keyframe_window@.frames.len() > 0,
        new.keyframe_window@.frames.last().pose == identity,
        forall|id: usize|
            left_ids.contains(id) && right_ids.contains(id) && stereo.contains_key(id)
                && (#[trigger] stereo[id]) is Valid ==> {
                &&& new.landmarks@.contains_key(id)
                &&& new.landmarks@[id] == stereo[id]->landmark
                &&& new.keyframe_window@.frames.last().cam0.contains_key(id)
                &&& new.keyframe_window@.frames.last().cam0[id] == stereo[id]->obs0
                &&& new.keyframe_window@.frames.last().cam1.contains_key(id)
                &&& new.keyframe_window@.frames.last().cam1[id] == stereo[id]->obs1
                &&& new.keyframe_window@.frames.last().new_point_ids.contains(id)
            },
        forall|id: usize|
            left_ids.contains(id) && right_ids.contains(id) && stereo.contains_key(id)
                && !((#[trigger] stereo[id]) is Valid) ==> {
                &&& !new.landmarks@.contains_key(id)
                &&& !tracked_ids_cam0(new.tracker).contains(id)
                &&& !tracked_ids_cam1(new.tracker).contains(id)
            },
{
    let lm0 = old.landmarks@;
    let candidates = matched_new_points(left_ids, lm0, right_ids.to_set());
    let checks = outcome_checks(candidates, stereo);
    let pred = |x: usize| !lm0.contains_key(x) && right_ids.to_set().contains(x);
    lemma_filter_no_duplicates(left_ids, pred);
    crate::estimator::lemma_new_points_recorded(lm0, empty_pending::<O>(), checks);
    let (lm, p) = initial_frame_effect(lm0, left_ids, right_ids, stereo);
    let last = new.keyframe_window@.frames.last();
    assert(last == pending_keyframe(p, identity));
    assert forall|id: usize|
        left_ids.contains(id) && right_ids.contains(id) && stereo.contains_key(id)
            && (#[trigger] stereo[id]) is Valid implies {
        &&& new.landmarks@.contains_key(id)
        &&& new.landmarks@[id] == stereo[id]->landmark
        &&& last.cam0.contains_key(id)
        &&& last.cam0[id] == stereo[id]->obs0
        &&& last.cam1.contains_key(id)
        &&& last.cam1[id] == stereo[id]->obs1
        &&& last.new_point_ids.contains(id)
    } by {
        assert(right_ids.to_set().contains(id));
        lemma_filter_contains_iff(left_ids, pred, id);
        let k = choose|k: int| 0 <= k < candidates.len() && candidates[k] == id;
        assert(checks[k] == (id, stereo[id]));
        assert(crate::estimator::new_point_outcome_holds(lm0, empty_pending::<O>(), checks, k));
    }
    assert forall|id: usize|
        left_ids.contains(id) && right_ids.contains(id) && stereo.contains_key(id)
            && !((#[trigger] stereo[id]) is Valid) implies {
        &&& !new.landmarks@.contains_key(id)
        &&& !tracked_ids_cam0(new.tracker).contains(id)
        &&& !tracked_ids_cam1(new.tracker).contains(id)
    } by {
        assert(right_ids.to_set().contains(id));
        lemma_filter_contains_iff(left_ids, pred, id);
        let k = choose|k: int| 0 <= k < candidates.len() && candidates[k] == id;
        assert(checks[k] == (id, stereo[id]));
        assert(crate::estimator::new_point_outcome_holds(lm0, empty_pending::<O>(), checks, k));
        assert(p.bad_points.to_set().contains(id));
    }
}

/// After a whole frame that adds a keyframe (the frame itself, the write-back
/// of its bundle adjustment and its closing), every feature the tracker still
/// follows in the left image is a landmark: an unmatched new feature, a
/// failed stereo match, a landmark the window drops and a landmark the bundle
/// adjustment rejects are all no longer followed.
pub proof fn lemma_keyframe_frame_follows_landmarks<P, O, L>(
    old: EstimatorCore<P, O, L>,
    committed: EstimatorCore<P, O, L>,
    adjusted: EstimatorCore<P, O, L>,
    new: EstimatorCore<P, O, L>,
    pose: PoseEstimate<P>,
    left: Map<usize, ObservationCheck<O>>,
    right: Map<usize, ObservationCheck<O>>,
    stereo: Map<usize, StereoCheck<O, L>>,
    left_ids: Seq<usize>,
    right_ids: Seq<usize>,
    due: Seq<usize>,
    poses: Seq<Option<P>>,
    updates: Seq<(usize, L)>,
    rejected: Seq<usize>,
)
    requires
        left_ids.to_set() == tracked_ids_cam0(old.tracker),
        keyframe_frame_done(old, committed, pose, left, right, stereo, left_ids, right_ids, due),
        crate::estimator::bundle_adjustment_applied(committed, adjusted, poses, updates),
        keyframe_finished(adjusted, new, due, rejected),
    ensures
        forall|id: usize| #[trigger]
            tracked_ids_cam0(new.tracker).contains(id) ==> new.landmarks@.contains_key(id),
{
    let lm0 = old.landmarks@;
    let right_set = right_ids.to_set();
    let after_left = observations_effect(
        empty_pending(),
        Camera::Left,
        outcome_checks(known_landmarks(left_ids, lm0), left),
    );
    let observed = observations_effect(
        after_left,
        Camera::Right,
        outcome_checks(known_landmarks(right_ids, lm0), right),
    );
    let unmatched = unmatched_new_points(left_ids, lm0, right_set);
    let selected = PendingView { bad_points: observed.bad_points + unmatched, ..observed };
    let candidates = matched_new_points(left_ids, lm0, right_set);
    let checks = outcome_checks(candidates, stereo);
    let (lm1, p) = new_points_effect(lm0, selected, checks);
    crate::estimator::lemma_new_points_effect(lm0, selected, checks);
    let (w, marg) = spec_add_keyframe(
        old.keyframe_window@,
        pending_keyframe(p, pose.t_cam0_w),
    );
    let dropped = match marg {
        Some((_, ids)) => ids,
        None => Seq::empty(),
    };
    let all = due + rejected;
    assert forall|id: usize| #[trigger]
        tracked_ids_cam0(new.tracker).contains(id) implies new.landmarks@.contains_key(id) by {
        assert(left_ids.to_set().contains(id));
        assert(!all.to_set().contains(id));
        assert forall|x: usize| #[trigger] p.bad_points.contains(x) implies all.to_set().contains(x) by {
            let j = choose|j: int| 0 <= j < p.bad_points.len() && p.bad_points[j] == x;
            assert(all[j] == x);
        }
        assert forall|x: usize| #[trigger] dropped.contains(x) implies all.to_set().contains(x) by {
            let j = choose|j: int| 0 <= j < dropped.len() && dropped[j] == x;
            assert(all[p.bad_points.len() + j] == x);
        }
        assert forall|x: usize| #[trigger] rejected.contains(x) implies all.to_set().contains(x) by {
            let j = choose|j: int| 0 <= j < rejected.len() && rejected[j] == x;
            assert(all[due.len() + j] == x);
        }
        lemma_filter_contains_iff(left_ids, |x: usize| !lm0.contains_key(x) && right_set.contains(x), id);
        lemma_filter_contains_iff(left_ids, |x: usize| !lm0.contains_key(x) && !right_set.contains(x), id);
        if !lm0.contains_key(id) {
            if right_set.contains(id) {
                let k = choose|k: int| 0 <= k < candidates.len() && candidates[k] == id;
                assert(checks[k].0 == id);
                if !(checks[k].1 is Valid) {
                    assert(p.bad_points.contains(id));
                }
            } else {
                let j = choose|j: int| 0 <= j < unmatched.len() && unmatched[j] == id;
                assert(selected.bad_points[observed.bad_points.len() + j] == id);
                assert(selected.bad_points.contains(id));
            }
        }
        assert(lm1.contains_key(id));
        assert(!dropped.contains(id));
        assert(!dropped.to_set().contains(id));
        assert(committed.landmarks@.contains_key(id));
        assert(!rejected.contains(id));
        assert(!rejected.to_set().contains(id));
    }
}

/// A set of the ids of `ids`.
fn id_set(ids: &Vec<usize>) -> (s: HashSet<usize>)
    ensures
        s@ == ids@.to_set(),
{
    let mut s: HashSet<usize> = HashSet::new();
    let n = ids.len();
    for i in 0..n
        invariant
            n == ids@.len(),
            s@ == ids@.take(i as int).to_set(),
    {
        let id = ids[i];
        proof {
            assert(ids@.take(i + 1) == ids@.take(i as int).push(id));
            ids@.take(i as int).lemma_push_to_set_commute(id);
        }
        s.insert(id);
    }
    assert(ids@.take(n as int) =~= ids@);
    s
}

/// Does `m` hold an outcome for every id of `ids`?
fn all_given<V>(ids: &Vec<usize>, m: &HashMap<usize, V>) -> (given: bool)
    ensures
        given == (forall|j: int| 0 <= j < ids@.len() ==> m@.contains_key(#[trigger] ids@[j])),
{
    let n = ids.len();
    for i in 0..n
        invariant
            n == ids@.len(),
            forall|j: int| 0 <= j < i ==> m@.contains_key(#[trigger] ids@[j]),
    {
        if !m.contains_key(&ids[i]) {
            return false;
        }
    }
    true
}

/// Takes the outcomes of `ids` out of `m`, in order.
fn take_outcomes<V>(ids: &Vec<usize>, m: &mut HashMap<usize, V>) -> (checks: Vec<(usize, V)>)
    requires
        ids@.no_duplicates(),
        forall|j: int| 0 <= j < ids@.len() ==> old(m)@.contains_key(#[trigger] ids@[j]),
    ensures
        checks@ == outcome_checks(ids@, old(m)@),
{
    let ghost start = m@;
    let mut checks: Vec<(usize, V)> = Vec::new();
    let n = ids.len();
    for i in 0..n
        invariant
            n == ids@.len(),
            ids@.no_duplicates(),
            forall|j: int|
                i <= j < n ==> m@.contains_key(#[trigger] ids@[j]) && m@[ids@[j]] == start[ids@[j]],
            checks@ == outcome_checks(ids@.take(i as int), start),
    {
        let id = ids[i];
        assert(m@.contains_key(ids@[i as int]));
        let v = m.remove(&id).unwrap();
        checks.push((id, v));
        proof {
            assert forall|j: int| i + 1 <= j < n implies m@.contains_key(#[trigger] ids@[j])
                && m@[ids@[j]] == start[ids@[j]] by {
                assert(ids@[j] != ids@[i as int]);
            }
            assert(checks@ =~= outcome_checks(ids@.take(i + 1), start));
        }
    }
    assert(ids@.take(n as int) =~= ids@);
    checks
}

impl<P, O, L> EstimatorCore<P, O, L> {
    /// What the next frame needs computed, from the features the tracker
    /// follows and the landmark map. The ids come in increasing order, so
    /// that the frame does not depend on the order of the tracker's maps.
    pub fn plan_frame(&self) -> (plan: FramePlan)
        ensures
            plan.initializing == (self.landmarks@ == Map::<usize, L>::empty()),
            plan.left_ids@.to_set() == tracked_ids_cam0(self.tracker),
            plan.left_ids@.no_duplicates(),
            strictly_increasing(plan.left_ids@),
            plan.right_ids@.to_set() == tracked_ids_cam1(self.tracker),
            plan.right_ids@.no_duplicates(),
            strictly_increasing(plan.right_ids@),
            plan.known_left@ == known_landmarks(plan.left_ids@, self.landmarks@),
            plan.known_right@ == known_landmarks(plan.right_ids@, self.landmarks@),
            plan.candidates@ == matched_new_points(
                plan.left_ids@,
                self.landmarks@,
                plan.right_ids@.to_set(),
            ),
    {
        let (left_unsorted, right_unsorted) = self.tracked_feature_ids();
        let left_ids = sorted_ids(&left_unsorted);
        let right_ids = sorted_ids(&right_unsorted);
        let right = id_set(&right_ids);
        let known_left = self.select_known_landmarks(&left_ids);
        let known_right = self.select_known_landmarks(&right_ids);
        let candidates = self.select_new_points(&left_ids, &right);
        FramePlan {
            initializing: self.is_initializing(),
            left_ids,
            right_ids,
            known_left,
            known_right,
            candidates,
        }
    }
}

impl<P, O, L> EstimatorCore<P, O, L> {
    /// The first frame: its checked stereo matches become landmarks and the
    /// pending frame becomes the first keyframe, at `identity`.
    fn initial_frame(
        &mut self,
        left_ids: &Vec<usize>,
        right_ids: &Vec<usize>,
        stereo: &mut HashMap<usize, StereoCheck<O, L>>,
        identity: P,
    )
        requires
            old(self).landmarks@ == Map::<usize, L>::empty(),
            old(self).frame_id_counter < u64::MAX,
            old(self).frames_since_last_keyframe < u64::MAX,
            left_ids@.no_duplicates(),
            forall|id: usize|
                left_ids@.to_set().contains(id) && !old(self).landmarks@.contains_key(id)
                    && right_ids@.to_set().contains(id) ==> #[trigger] old(stereo)@.contains_key(
                    id,
                ),
        ensures
            initial_frame_done(*old(self), *final(self), old(stereo)@, identity, left_ids@, right_ids@),
            old(self).wf() ==> final(self).wf(),
    {
        let ghost lm0 = self.landmarks@;
        let right = id_set(right_ids);
        let candidates = self.select_new_points(left_ids, &right);
        proof {
            let pred = |id: usize| !lm0.contains_key(id) && right_ids@.to_set().contains(id);
            assert(candidates@ == left_ids@.filter(pred));
            lemma_filter_no_duplicates(left_ids@, pred);
            lemma_given_on_filter(left_ids@, pred, stereo@);
        }
        let checks = take_outcomes(&candidates, stereo);
        let mut pending = self.begin_frame();
        assert(pending@ == empty_pending::<O>());
        self.record_new_points(&mut pending, checks);
        proof {
            lemma_new_points_from_empty::<O, L>(checks@);
        }
        let bad = self.commit_initial_keyframe(pending, identity);
        self.end_frame(&bad);
    }

    /// A frame that adds no keyframe: the landmarks whose left unprojection
    /// failed and the features that are not landmarks are no longer followed.
    fn frame_without_keyframe(
        &mut self,
        left_ids: &Vec<usize>,
        known_left: &Vec<usize>,
        left: &mut HashMap<usize, ObservationCheck<O>>,
        pose: PoseEstimate<P>,
    )
        requires
            old(self).frame_id_counter < u64::MAX,
            old(self).frames_since_last_keyframe < u64::MAX,
            known_left@ == known_landmarks(left_ids@, old(self).landmarks@),
            left_ids@.no_duplicates(),
            forall|j: int|
                0 <= j < known_left@.len() ==> old(left)@.contains_key(#[trigger] known_left@[j]),
        ensures
            frame_without_keyframe_done(*old(self), *final(self), pose, old(left)@, left_ids@),
            old(self).wf() ==> final(self).wf(),
    {
        proof {
            lemma_filter_no_duplicates(left_ids@, |id: usize| old(self).landmarks@.contains_key(id));
            lemma_tracking_bad_points(old(self).landmarks@, left_ids@, old(left)@);
        }
        self.current_t_w_cam0 = pose.t_w_cam0;
        let mut pending = self.begin_frame();
        let checks = take_outcomes(known_left, left);
        let _used = self.record_pose_observations(&mut pending, checks);
        self.reject_unknown_points(&mut pending, left_ids);
        assert(pending@.bad_points =~= tracking_bad_points(old(self).landmarks@, left_ids@, old(left)@));
        self.end_frame(&pending.bad_points);
    }

    /// A frame that adds a keyframe, up to its bundle adjustment: the
    /// observations of the landmarks, the unmatched features marked bad, the
    /// checked stereo matches, and the keyframe committed at the estimated pose.
    fn frame_with_keyframe(
        &mut self,
        plan: &FramePlan,
        left: &mut HashMap<usize, ObservationCheck<O>>,
        right: &mut HashMap<usize, ObservationCheck<O>>,
        stereo: &mut HashMap<usize, StereoCheck<O, L>>,
        pose: PoseEstimate<P>,
    ) -> (due: BundleAdjustmentDue)
        requires
            plan.left_ids@.no_duplicates(),
            plan.right_ids@.no_duplicates(),
            plan.known_left@ == known_landmarks(plan.left_ids@, old(self).landmarks@),
            plan.known_right@ == known_landmarks(plan.right_ids@, old(self).landmarks@),
            plan.candidates@ == matched_new_points(
                plan.left_ids@,
                old(self).landmarks@,
                plan.right_ids@.to_set(),
            ),
            forall|j: int|
                0 <= j < plan.known_left@.len() ==> old(left)@.contains_key(
                    #[trigger] plan.known_left@[j],
                ),
            forall|j: int|
                0 <= j < plan.known_right@.len() ==> old(right)@.contains_key(
                    #[trigger] plan.known_right@[j],
                ),
            forall|j: int|
                0 <= j < plan.candidates@.len() ==> old(stereo)@.contains_key(
                    #[trigger] plan.candidates@[j],
                ),
        ensures
            keyframe_frame_done(
                *old(self),
                *final(self),
                pose,
                old(left)@,
                old(right)@,
                old(stereo)@,
                plan.left_ids@,
                plan.right_ids@,
                due@,
            ),
            old(self).wf() ==> final(self).wf(),
    {
        let ghost lm0 = self.landmarks@;
        let ghost left0 = left@;
        let ghost right0 = right@;
        let ghost stereo0 = stereo@;
        proof {
            lemma_filter_no_duplicates(plan.left_ids@, |id: usize| lm0.contains_key(id));
            lemma_filter_no_duplicates(plan.right_ids@, |id: usize| lm0.contains_key(id));
            lemma_filter_no_duplicates(
                plan.left_ids@,
                |id: usize| !lm0.contains_key(id) && plan.right_ids@.to_set().contains(id),
            );
        }
        self.current_t_w_cam0 = pose.t_w_cam0;
        let mut pending = self.begin_frame();
        assert(pending@ == empty_pending::<O>());
        let left_checks = take_outcomes(&plan.known_left, left);
        self.record_observations(&mut pending, Camera::Left, left_checks);
        let right_checks = take_outcomes(&plan.known_right, right);
        self.record_observations(&mut pending, Camera::Right, right_checks);
        let right_set = id_set(&plan.right_ids);
        let mut unmatched = self.select_unmatched_points(&plan.left_ids, &right_set);
        pending.bad_points.append(&mut unmatched);
        let stereo_checks = take_outcomes(&plan.candidates, stereo);
        let ghost selected = pending@;
        let ghost checks = stereo_checks@;
        self.record_new_points(&mut pending, stereo_checks);
        proof {
            lemma_new_points_landmark_ids(lm0, selected, checks);
        }
        let ghost lm1 = self.landmarks@;
        let bad = self.commit_keyframe(pending, pose.t_cam0_w);
        proof {
            let dropped = match spec_add_keyframe(
                old(self).keyframe_window@,
                pending_keyframe(
                    keyframe_frame_effect(lm0, plan.left_ids@, plan.right_ids@, left0, right0, stereo0).1,
                    pose.t_cam0_w,
                ),
            ).1 {
                Some((_, ids)) => ids,
                None => Seq::empty(),
            };
            assert(self.landmarks@.dom() =~= (lm0.dom() + admitted_points(checks).to_set()).difference(
                dropped.to_set(),
            ));
            assert(self.landmarks@ =~= lm1.remove_keys(dropped.to_set()));
        }
        BundleAdjustmentDue { bad_points: bad }
    }

    /// Processes a stereo frame from the outcomes computed for it (see
    /// [`EstimatorCore::plan_frame`]). While the map is empty, the checked
    /// stereo matches become the first landmarks and the first keyframe is
    /// added at `identity`. Otherwise the current pose is taken from the
    /// estimate, and a keyframe is added when one is due; that frame ends
    /// with [`EstimatorCore::finish_keyframe`] after its bundle adjustment.
    /// Fails, changing nothing, when an outcome the frame needs is missing.
    pub fn process_frame(&mut self, outcomes: FrameOutcomes<P, O, L>, identity: P) -> (r: Result<
        FrameReport,
        FrameError,
    >)
        requires
            old(self).frame_id_counter < u64::MAX,
            old(self).frames_since_last_keyframe < u64::MAX,
        ensures
            r is Err <==> !frame_outcomes_complete(
                old(self).landmarks@,
                tracked_ids_cam0(old(self).tracker),
                tracked_ids_cam1(old(self).tracker),
                old(self).frames_since_last_keyframe,
                old(self).max_frames_between_keyframes,
                outcomes,
            ),
            r is Err ==> *final(self) == *old(self),
            r matches Ok(report) ==> frame_processed(
                *old(self),
                *final(self),
                outcomes,
                identity,
                report,
            ),
            r is Ok ==> (old(self).wf() ==> final(self).wf()),
            r is Ok && old(self).landmarks@ == Map::<usize, L>::empty()
                ==> final(self).new_keyframe_added,
            forall|pose: PoseEstimate<P>|
                r is Ok && old(self).landmarks@ != Map::<usize, L>::empty()
                    && outcomes.pose == Some(pose) ==> final(self).new_keyframe_added == (
                pose.translation_exceeded || pose.rotation_exceeded
                    || old(self).frames_since_last_keyframe
                    > old(self).max_frames_between_keyframes),
            r matches Ok(report) ==> (report.kind is KeyframeAdded || report.kind is Initialized)
                == final(self).new_keyframe_added,
            r matches Ok(report) ==> (report.kind is Initialized && !(
            old(self).keyframe_window@.frames.len() == old(self).keyframe_window@.max_size
                && old(self).keyframe_window@.frames.len() > 0) ==> {
                &&& final(self).keyframe_window@.frames.len() > 0
                &&& final(self).keyframe_window@.frames.last().pose == identity
                &&& forall|id: usize|
                    report.left_ids@.contains(id) && report.right_ids@.contains(id)
                        && outcomes.stereo@.contains_key(id) && (
                    #[trigger] outcomes.stereo@[id]) is Valid ==> {
                        &&& final(self).landmarks@.contains_key(id)
                        &&& final(self).landmarks@[id] == outcomes.stereo@[id]->landmark
                        &&& final(self).keyframe_window@.frames.last().cam0[id]
                            == outcomes.stereo@[id]->obs0
                        &&& final(self).keyframe_window@.frames.last().cam1[id]
                            == outcomes.stereo@[id]->obs1
                        &&& final(self).keyframe_window@.frames.last().new_point_ids.contains(id)
                    }
                &&& forall|id: usize|
                    report.left_ids@.contains(id) && report.right_ids@.contains(id)
                        && outcomes.stereo@.contains_key(id) && !((
                    #[trigger] outcomes.stereo@[id]) is Valid) ==> {
                        &&& !final(self).landmarks@.contains_key(id)
                        &&& !tracked_ids_cam0(final(self).tracker).contains(id)
                    }
            }),
            r matches Ok(report) ==> (report.kind is KeyframeAdded ==> {
                &&& forall|id: usize|
                    report.left_ids@.contains(id) && old(self).landmarks@.contains_key(id)
                        && outcomes.left@.contains_key(id) && (#[trigger] outcomes.left@[id]) is Valid
                        && final(self).landmarks@.contains_key(id)
                        ==> final(self).keyframe_window@.frames.last().cam0.contains_key(id)
                        && final(self).keyframe_window@.frames.last().cam0[id]
                        == outcomes.left@[id]->0
                &&& forall|id: usize|
                    report.right_ids@.contains(id) && old(self).landmarks@.contains_key(id)
                        && outcomes.right@.contains_key(id) && (#[trigger] outcomes.right@[id]) is Valid
                        && final(self).landmarks@.contains_key(id)
                        ==> final(self).keyframe_window@.frames.last().cam1.contains_key(id)
                        && final(self).keyframe_window@.frames.last().cam1[id]
                        == outcomes.right@[id]->0
                &&& final(self).frames_since_last_keyframe == 0
                &&& final(self).keyframe_window@.frames.len() > 0
                &&& final(self).keyframe_window@.frames.last().pose == outcomes.pose->0.t_cam0_w
            }),
            r matches Ok(report) ==> final(self).keyframe_trajectory@
                == old(self).keyframe_trajectory@ + if report.kind is KeyframeAdded && marginalizes(
                old(self).keyframe_window@,
            ) {
                seq![old(self).keyframe_window@.frames[0].pose]
            } else {
                Seq::<P>::empty()
            },
            r is Ok && old(self).keyframe_window@.max_size >= 1
                && old(self).keyframe_window@.frames.len() <= old(self).keyframe_window@.max_size
                ==> {
                &&& final(self).keyframe_window@.max_size == old(self).keyframe_window@.max_size
                &&& final(self).keyframe_window@.frames.len() == if !final(self).new_keyframe_added {
                    old(self).keyframe_window@.frames.len() as int
                } else if old(self).keyframe_window@.frames.len()
                    == old(self).keyframe_window@.max_size {
                    old(self).keyframe_window@.max_size as int
                } else {
                    old(self).keyframe_window@.frames.len() + 1int
                }
            },
    {
        let ghost lm0 = self.landmarks@;
        let plan = self.plan_frame();
        let FrameOutcomes { pose, mut left, mut right, mut stereo } = outcomes;
        let ghost t1 = plan.right_ids@.to_set();
        proof {
            lemma_given_on_filter(
                plan.left_ids@,
                |id: usize| !lm0.contains_key(id) && t1.contains(id),
                stereo@,
            );
            lemma_given_on_filter(plan.left_ids@, |id: usize| lm0.contains_key(id), left@);
            lemma_given_on_filter(plan.right_ids@, |id: usize| lm0.contains_key(id), right@);
        }
        if plan.initializing {
            if !all_given(&plan.candidates, &stereo) {
                return Err(FrameError::MissingOutcome);
            }
            self.initial_frame(&plan.left_ids, &plan.right_ids, &mut stereo, identity);
            proof {
                if !(old(self).keyframe_window@.frames.len() == old(self).keyframe_window@.max_size
                    && old(self).keyframe_window@.frames.len() > 0) {
                    lemma_first_frame_outcomes(
                        *old(self),
                        *self,
                        outcomes.stereo@,
                        identity,
                        plan.left_ids@,
                        plan.right_ids@,
                    );
                }
                crate::window_laws::lemma_add_keyframe_respects_capacity_any(
                    old(self).keyframe_window@,
                    pending_keyframe(
                        initial_frame_effect(lm0, plan.left_ids@, plan.right_ids@, outcomes.stereo@).1,
                        identity,
                    ),
                );
                assert(self.keyframe_trajectory@ =~= old(self).keyframe_trajectory@ + Seq::<P>::empty());
            }
            Ok(FrameReport {
                left_ids: plan.left_ids,
                right_ids: plan.right_ids,
                kind: FrameKind::Initialized,
            })
        } else {
            match pose {
                None => Err(FrameError::MissingOutcome),
                Some(pose) => {
                    if !all_given(&plan.known_left, &left) {
                        return Err(FrameError::MissingOutcome);
                    }
                    let due = self.needs_keyframe(pose.translation_exceeded, pose.rotation_exceeded);
                    if due {
                        if !all_given(&plan.known_right, &right) || !all_given(
                            &plan.candidates,
                            &stereo,
                        ) {
                            return Err(FrameError::MissingOutcome);
                        }
                        let ghost lp = outcomes.left@;
                        let ghost rp = outcomes.right@;
                        let ghost sp = outcomes.stereo@;
                        let ghost estimate = pose;
                        let d = self.frame_with_keyframe(&plan, &mut left, &mut right, &mut stereo, pose);
                        proof {
                            crate::window_laws::lemma_add_keyframe_respects_capacity_any(
                                old(self).keyframe_window@,
                                pending_keyframe(
                                    keyframe_frame_effect(lm0, plan.left_ids@, plan.right_ids@, lp, rp, sp).1,
                                    estimate.t_cam0_w,
                                ),
                            );
                            lemma_keyframe_observations(
                                *old(self),
                                *self,
                                estimate,
                                lp,
                                rp,
                                sp,
                                plan.left_ids@,
                                plan.right_ids@,
                                d@,
                            );
                            if marginalizes(old(self).keyframe_window@) {
                                assert(self.keyframe_trajectory@ =~= old(self).keyframe_trajectory@
                                    + seq![old(self).keyframe_window@.frames[0].pose]);
                            } else {
                                assert(self.keyframe_trajectory@ =~= old(self).keyframe_trajectory@
                                    + Seq::<P>::empty());
                            }
                        }
                        Ok(FrameReport {
                            left_ids: plan.left_ids,
                            right_ids: plan.right_ids,
                            kind: FrameKind::KeyframeAdded(d),
                        })
                    } else {
                        self.frame_without_keyframe(&plan.left_ids, &plan.known_left, &mut left, pose);
                        assert(self.keyframe_trajectory@ =~= old(self).keyframe_trajectory@ + Seq::<P>::empty());
                        Ok(FrameReport {
                            left_ids: plan.left_ids,
                            right_ids: plan.right_ids,
                            kind: FrameKind::NoKeyframe,
                        })
                    }
                },
            }
        }
    }

    /// Closes a frame that added a keyframe, once its bundle adjustment has
    /// been written back: the landmarks it rejected leave the map, and the
    /// tracker stops following them together with the features the frame
    /// marked bad (`due`), in one call. Both counters advance.
    pub fn finish_keyframe(&mut self, due: BundleAdjustmentDue, rejected: &Vec<usize>)
        requires
            old(self).frame_id_counter < u64::MAX,
            old(self).frames_since_last_keyframe < u64::MAX,
        ensures
            keyframe_finished(*old(self), *final(self), due@, rejected@),
            forall|id: usize| #[trigger]
                rejected@.contains(id) ==> !final(self).landmarks@.contains_key(id)
                    && !tracked_ids_cam0(final(self).tracker).contains(id)
                    && !tracked_ids_cam1(final(self).tracker).contains(id),
            forall|id: usize| #[trigger]
                due@.contains(id) ==> !tracked_ids_cam0(final(self).tracker).contains(id)
                    && !tracked_ids_cam1(final(self).tracker).contains(id),
            forall|id: usize|
                #[trigger] old(self).landmarks@.contains_key(id) && !rejected@.contains(id)
                    ==> final(self).landmarks@.contains_key(id) && final(self).landmarks@[id]
                    == old(self).landmarks@[id],
            old(self).wf() ==> final(self).wf(),
    {
        let mut bad = due.bad_points;
        self.drop_landmarks(&mut bad, rejected);
        self.end_frame(&bad);
        assert(self.landmarks@.dom() =~= old(self).landmarks@.dom().difference(rejected@.to_set()));
        proof {
            let all = due@ + rejected@;
            assert forall|id: usize| #[trigger] rejected@.contains(id) implies all.to_set().contains(
                id,
            ) && rejected@.to_set().contains(id) by {
                let j = choose|j: int| 0 <= j < rejected@.len() && rejected@[j] == id;
                assert(all[due@.len() + j] == id);
            }
            assert forall|id: usize| #[trigger] due@.contains(id) implies all.to_set().contains(id) by {
                let j = choose|j: int| 0 <= j < due@.len() && due@[j] == id;
                assert(all[j] == id);
            }
            assert forall|id: usize|
                #[trigger] old(self).landmarks@.contains_key(id) && !rejected@.contains(id)
                    implies !rejected@.to_set().contains(id) by {
            }
        }
    }
}

} // verus!
