//! The bookkeeping of the stereo estimator: the landmark map, the keyframe
//! window, the counters that decide when a keyframe is due, and the feature
//! tracker whose rejected features are dropped at the end of every frame.
//!
//! Processing a frame alternates outside work (tracking the images,
//! unprojecting and triangulating points, solving the camera pose, bundle
//! adjustment) with the decisions taken here. The caller performs that work
//! and reports its outcome through the methods of [`EstimatorCore`].
use crate::frame::{Frame, FrameView};
use crate::keyframe_sliding_window::{KeyframeSlidingWindow, WindowView, spec_add_keyframe};
use crate::optimization::{
    apply_optimized_landmarks, apply_optimized_poses, lemma_landmark_updates_keep_ids,
    optimized_pose, spec_apply_landmark_updates,
};
use crate::window_laws::{
    lemma_add_keyframe_conserves_landmarks, lemma_owned_depends_on_new_points, owned_point_ids,
};
use patch_tracker::StereoPatchTracker;
use std::collections::{HashMap, HashSet};
use vstd::prelude::*;

verus! {

broadcast use vstd::std_specs::hash::group_hash_axioms, vstd::seq_lib::group_to_multiset_ensures,
    vstd::multiset::group_multiset_axioms, vstd::std_specs::vec::group_vec_axioms;

/// The stereo feature tracker of `patch_tracker`, opaque to the proofs: what
/// it holds is described by the three names below.
#[verifier::external_type_specification]
#[verifier::external_body]
pub struct ExStereoPatchTracker(StereoPatchTracker);

/// The ids of the features that a stereo tracker follows in the left image.
pub uninterp spec fn tracked_ids_cam0(tracker: StereoPatchTracker) -> Set<usize>;

/// The ids of the features that a stereo tracker follows in the right image.
pub uninterp spec fn tracked_ids_cam1(tracker: StereoPatchTracker) -> Set<usize>;

/// The pyramid levels and the detection grid size a stereo tracker was made with.
pub uninterp spec fn tracker_settings(tracker: StereoPatchTracker) -> (u32, u32);

/// `StereoPatchTracker::new` stores its two settings and starts with empty
/// maps of tracked features in both images.
pub assume_specification[ StereoPatchTracker::new ](levels: u32, grid_size: u32) -> (tracker:
    StereoPatchTracker)
    ensures
        tracked_ids_cam0(tracker) == Set::<usize>::empty(),
        tracked_ids_cam1(tracker) == Set::<usize>::empty(),
        tracker_settings(tracker) == (levels, grid_size),
;

/// `StereoPatchTracker::remove_id` removes every given id from the maps of
/// tracked features of both images and keeps its settings. It also keeps the
/// positions of the remaining features; that is left unsaid here, since no
/// name speaks of positions.
pub assume_specification[ StereoPatchTracker::remove_id ](
    tracker: &mut StereoPatchTracker,
    ids: &[usize],
)
    ensures
        tracked_ids_cam0(*final(tracker)) == tracked_ids_cam0(*old(tracker)).difference(
            ids@.to_set(),
        ),
        tracked_ids_cam1(*final(tracker)) == tracked_ids_cam1(*old(tracker)).difference(
            ids@.to_set(),
        ),
        tracker_settings(*final(tracker)) == tracker_settings(*old(tracker)),
;

/// `StereoPatchTracker::get_track_points` returns, for each image, the map
/// from the id of every tracked feature to its position; this hands out the
/// keys of the two maps. Being map keys, the ids of each image come once each.
#[verifier::external_body]
fn tracked_ids(tracker: &StereoPatchTracker) -> (ids: (Vec<usize>, Vec<usize>))
    ensures
        ids.0@.to_set() == tracked_ids_cam0(*tracker),
        ids.0@.no_duplicates(),
        ids.1@.to_set() == tracked_ids_cam1(*tracker),
        ids.1@.no_duplicates(),
{
    let points = tracker.get_track_points();
    (points[0].keys().copied().collect(), points[1].keys().copied().collect())
}

/// Which image an observation belongs to.
#[derive(Clone, Copy, Debug, PartialEq, Eq, Structural)]
pub enum Camera {
    Left,
    Right,
}

/// Outcome of the geometric checks that a stereo match goes through before
/// it becomes a landmark.
pub enum StereoCheck<O, L> {
    /// The ray of one of the two cameras has non-positive depth.
    NonPositiveDepth,
    /// The two rays violate the epipolar constraint.
    EpipolarViolation,
    /// The triangulated point lies behind the left camera.
    BehindCamera,
    /// All checks passed: the normalized observations in both images and the
    /// position of the new landmark.
    Valid { obs0: O, obs1: O, landmark: L },
}

/// Outcome of unprojecting one observation of a known landmark.
pub enum ObservationCheck<O> {
    /// The ray has non-positive depth.
    NonPositiveDepth,
    /// The normalized observation.
    Valid(O),
}

/// What one frame contributes: the features to stop tracking, and the
/// observations and new landmarks of the keyframe it may become.
pub struct PendingFrame<O> {
    pub bad_points: Vec<usize>,
    pub cam0_observations: HashMap<usize, O>,
    pub cam1_observations: HashMap<usize, O>,
    pub new_point_ids: Vec<usize>,
}

/// The abstract content of a [`PendingFrame`].
pub struct PendingView<O> {
    pub bad_points: Seq<usize>,
    pub cam0: Map<usize, O>,
    pub cam1: Map<usize, O>,
    pub new_point_ids: Seq<usize>,
}

impl<O> View for PendingFrame<O> {
    type V = PendingView<O>;

    open spec fn view(&self) -> PendingView<O> {
        PendingView {
            bad_points: self.bad_points@,
            cam0: self.cam0_observations@,
            cam1: self.cam1_observations@,
            new_point_ids: self.new_point_ids@,
        }
    }
}

/// The keyframe that a pending frame becomes.
pub open spec fn pending_keyframe<P, O>(pending: PendingView<O>, pose: P) -> FrameView<P, O> {
    FrameView {
        pose,
        cam0: pending.cam0,
        cam1: pending.cam1,
        new_point_ids: pending.new_point_ids,
    }
}

/// Every landmark is owned by a keyframe of the window or is one of the new
/// points of the frame being processed.
pub open spec fn landmarks_owned<P, O, L>(
    landmarks: Map<usize, L>,
    frames: Seq<FrameView<P, O>>,
    pending: Seq<usize>,
) -> bool {
    forall|id: usize| #[trigger]
        landmarks.contains_key(id) ==> owned_point_ids(frames).contains(id) || pending.contains(
            id,
        )
}

/// The window holds no more keyframes than its capacity.
pub open spec fn within_capacity<P, O>(w: WindowView<P, O>) -> bool {
    w.max_size > 0 ==> w.frames.len() <= w.max_size
}

/// The ids of `ids` that are not landmarks and are matched in the right image.
pub open spec fn matched_new_points<L>(
    ids: Seq<usize>,
    landmarks: Map<usize, L>,
    right: Set<usize>,
) -> Seq<usize> {
    ids.filter(|id: usize| !landmarks.contains_key(id) && right.contains(id))
}

/// The ids of `ids` that are not landmarks and have no match in the right image.
pub open spec fn unmatched_new_points<L>(
    ids: Seq<usize>,
    landmarks: Map<usize, L>,
    right: Set<usize>,
) -> Seq<usize> {
    ids.filter(|id: usize| !landmarks.contains_key(id) && !right.contains(id))
}

/// The ids of `ids` that are landmarks.
pub open spec fn known_landmarks<L>(ids: Seq<usize>, landmarks: Map<usize, L>) -> Seq<usize> {
    ids.filter(|id: usize| landmarks.contains_key(id))
}

/// The ids of `ids` that are not landmarks.
pub open spec fn unknown_points<L>(ids: Seq<usize>, landmarks: Map<usize, L>) -> Seq<usize> {
    ids.filter(|id: usize| !landmarks.contains_key(id))
}

/// The landmark positions that `ids` remove from `landmarks`, in the order of
/// removal (an id removes a landmark only the first time it occurs).
pub open spec fn removed_landmarks<L>(ids: Seq<usize>, landmarks: Map<usize, L>) -> Seq<L>
    decreases ids.len(),
{
    if ids.len() == 0 {
        Seq::empty()
    } else {
        let rest = removed_landmarks(ids.drop_last(), landmarks);
        let id = ids.last();
        if landmarks.contains_key(id) && !ids.drop_last().contains(id) {
            rest.push(landmarks[id])
        } else {
            rest
        }
    }
}

/// Is a new keyframe due? It is when the camera moved or turned far enough
/// since the last keyframe, or when too many frames went by without one.
pub open spec fn spec_needs_keyframe(
    translation_exceeded: bool,
    rotation_exceeded: bool,
    frames_since_last_keyframe: u64,
    max_frames_between_keyframes: u64,
) -> bool {
    translation_exceeded || rotation_exceeded || frames_since_last_keyframe
        > max_frames_between_keyframes
}

/// The landmark map and the pending frame after the outcome `check` of the
/// checks on stereo match `id` is recorded.
pub open spec fn new_point_effect<O, L>(
    landmarks: Map<usize, L>,
    pending: PendingView<O>,
    id: usize,
    check: StereoCheck<O, L>,
) -> (Map<usize, L>, PendingView<O>) {
    match check {
        StereoCheck::Valid { obs0, obs1, landmark } => (
            landmarks.insert(id, landmark),
            PendingView {
                bad_points: pending.bad_points,
                cam0: pending.cam0.insert(id, obs0),
                cam1: pending.cam1.insert(id, obs1),
                new_point_ids: pending.new_point_ids.push(id),
            },
        ),
        _ => (landmarks, PendingView { bad_points: pending.bad_points.push(id), ..pending }),
    }
}

/// The landmark map and the pending frame after the outcomes `checks` are
/// recorded in order.
pub open spec fn new_points_effect<O, L>(
    landmarks: Map<usize, L>,
    pending: PendingView<O>,
    checks: Seq<(usize, StereoCheck<O, L>)>,
) -> (Map<usize, L>, PendingView<O>)
    decreases checks.len(),
{
    if checks.len() == 0 {
        (landmarks, pending)
    } else {
        let (lm, p) = new_points_effect(landmarks, pending, checks.drop_last());
        new_point_effect(lm, p, checks.last().0, checks.last().1)
    }
}

/// Recording stereo outcomes of distinct ids: a valid outcome makes its id
/// a landmark at the triangulated position, stores its two observations in
/// the left and the right map and adds it to the new points; any other
/// outcome marks the id bad and leaves the map as it was for that id.
pub proof fn lemma_new_points_recorded<O, L>(
    landmarks: Map<usize, L>,
    pending: PendingView<O>,
    checks: Seq<(usize, StereoCheck<O, L>)>,
)
    requires
        forall|i: int, j: int| 0 <= i < j < checks.len() ==> checks[i].0 != checks[j].0,
    ensures
        forall|k: int|
            0 <= k < checks.len() ==> #[trigger] new_point_outcome_holds(
                landmarks,
                pending,
                checks,
                k,
            ),
        forall|x: usize|
            (forall|k: int| 0 <= k < checks.len() ==> checks[k].0 != x) ==> (
            #[trigger] new_points_effect(landmarks, pending, checks).0.contains_key(x)
                == landmarks.contains_key(x)),
    decreases checks.len(),
{
    if checks.len() > 0 {
        let rest = checks.drop_last();
        assert forall|i: int, j: int| 0 <= i < j < rest.len() implies rest[i].0 != rest[j].0 by {
            assert(rest[i] == checks[i] && rest[j] == checks[j]);
        }
        lemma_new_points_recorded(landmarks, pending, rest);
        let (lm0, p0) = new_points_effect(landmarks, pending, rest);
        let (lm, p) = new_points_effect(landmarks, pending, checks);
        assert forall|x: usize|
            (forall|k: int| 0 <= k < checks.len() ==> checks[k].0 != x) implies (
            #[trigger] new_points_effect(landmarks, pending, checks).0.contains_key(x)
                == landmarks.contains_key(x)) by {
            assert forall|k: int| 0 <= k < rest.len() implies rest[k].0 != x by {
                assert(rest[k] == checks[k]);
            }
            assert(checks[checks.len() - 1].0 != x);
        }
        assert forall|k: int| 0 <= k < checks.len() implies #[trigger] new_point_outcome_holds(
            landmarks,
            pending,
            checks,
            k,
        ) by {
            if k < checks.len() - 1 {
                assert(rest[k] == checks[k]);
                assert(new_point_outcome_holds(landmarks, pending, rest, k));
                assert(checks[k].0 != checks[checks.len() - 1].0);
                assert(checks.last() == checks[checks.len() - 1]);
                assert(new_points_effect(landmarks, pending, checks) == new_point_effect(
                    lm0,
                    p0,
                    checks.last().0,
                    checks.last().1,
                ));
                if checks[k].1 is Valid {
                    if checks.last().1 is Valid {
                        let j = choose|j: int| 0 <= j < p0.new_point_ids.len() && p0.new_point_ids[j] == checks[k].0;
                        assert(p.new_point_ids[j] == checks[k].0);
                    }
                } else {
                    if !(checks.last().1 is Valid) {
                        let j = choose|j: int| 0 <= j < p0.bad_points.len() && p0.bad_points[j] == checks[k].0;
                        assert(p.bad_points[j] == checks[k].0);
                    }
                }
            } else {
                assert forall|j: int| 0 <= j < rest.len() implies rest[j].0 != checks[k].0 by {
                    assert(rest[j] == checks[j]);
                }
                assert(lm0.contains_key(checks[k].0) == landmarks.contains_key(checks[k].0));
                if checks.last().1 is Valid {
                    assert(p.new_point_ids[p.new_point_ids.len() - 1] == checks[k].0);
                } else {
                    assert(p.bad_points[p.bad_points.len() - 1] == checks[k].0);
                }
            }
        }
    }
}

/// What recording the `k`-th of `checks` leaves after all of them are
/// recorded (their ids being distinct).
pub open spec fn new_point_outcome_holds<O, L>(
    landmarks: Map<usize, L>,
    pending: PendingView<O>,
    checks: Seq<(usize, StereoCheck<O, L>)>,
    k: int,
) -> bool {
    let (lm, p) = new_points_effect(landmarks, pending, checks);
    let id = checks[k].0;
    match checks[k].1 {
        StereoCheck::Valid { obs0, obs1, landmark } => {
            &&& lm.contains_key(id) && lm[id] == landmark
            &&& p.cam0.contains_key(id) && p.cam0[id] == obs0
            &&& p.cam1.contains_key(id) && p.cam1[id] == obs1
            &&& p.new_point_ids.contains(id)
        },
        _ => {
            &&& p.bad_points.contains(id)
            &&& lm.contains_key(id) == landmarks.contains_key(id)
        },
    }
}

/// The pending frame after the outcome `check` of unprojecting the
/// observation of landmark `id` in image `camera` is recorded.
pub open spec fn observation_effect<O>(
    pending: PendingView<O>,
    camera: Camera,
    id: usize,
    check: ObservationCheck<O>,
) -> PendingView<O> {
    match check {
        ObservationCheck::Valid(obs) => match camera {
            Camera::Left => PendingView { cam0: pending.cam0.insert(id, obs), ..pending },
            Camera::Right => PendingView { cam1: pending.cam1.insert(id, obs), ..pending },
        },
        ObservationCheck::NonPositiveDepth => PendingView {
            bad_points: pending.bad_points.push(id),
            ..pending
        },
    }
}

/// The pending frame after the outcomes `checks` in image `camera` are
/// recorded in order.
pub open spec fn observations_effect<O>(
    pending: PendingView<O>,
    camera: Camera,
    checks: Seq<(usize, ObservationCheck<O>)>,
) -> PendingView<O>
    decreases checks.len(),
{
    if checks.len() == 0 {
        pending
    } else {
        observation_effect(
            observations_effect(pending, camera, checks.drop_last()),
            camera,
            checks.last().0,
            checks.last().1,
        )
    }
}

/// The ids of `checks` whose observation is valid, with that observation, in order.
pub open spec fn valid_observations<Q>(checks: Seq<(usize, ObservationCheck<Q>)>) -> Seq<(usize, Q)>
    decreases checks.len(),
{
    if checks.len() == 0 {
        Seq::empty()
    } else {
        let rest = valid_observations(checks.drop_last());
        match checks.last().1 {
            ObservationCheck::Valid(obs) => rest.push((checks.last().0, obs)),
            ObservationCheck::NonPositiveDepth => rest,
        }
    }
}

/// The valid observations are those of the checks whose outcome is valid,
/// in the order of the checks: one pair per valid check, and each valid
/// check `(id, Valid(obs))` gives the pair `(id, obs)`.
pub proof fn lemma_valid_observations<Q>(checks: Seq<(usize, ObservationCheck<Q>)>)
    ensures
        valid_observations(checks) == checks.filter(
            |c: (usize, ObservationCheck<Q>)| c.1 is Valid,
        ).map_values(|c: (usize, ObservationCheck<Q>)| (c.0, c.1->0)),
        forall|k: int|
            0 <= k < checks.len() && (#[trigger] checks[k]).1 is Valid ==> valid_observations(
                checks,
            ).contains((checks[k].0, checks[k].1->0)),
        forall|j: int|
            #![trigger valid_observations(checks)[j]]
            0 <= j < valid_observations(checks).len() ==> exists|k: int|
                0 <= k < checks.len() && #[trigger] checks[k] == (
                valid_observations(checks)[j].0,
                ObservationCheck::Valid(valid_observations(checks)[j].1),
            ),
    decreases checks.len(),
{
    reveal(Seq::filter);
    let pred = |c: (usize, ObservationCheck<Q>)| c.1 is Valid;
    let f = |c: (usize, ObservationCheck<Q>)| (c.0, c.1->0);
    let v = valid_observations(checks);
    if checks.len() > 0 {
        let rest = checks.drop_last();
        lemma_valid_observations(rest);
        let vr = valid_observations(rest);
        if checks.last().1 is Valid {
            assert(checks.filter(pred).map_values(f) =~= rest.filter(pred).map_values(f).push(
                f(checks.last()),
            ));
        } else {
            assert(checks.filter(pred) == rest.filter(pred));
        }
        assert forall|k: int|
            0 <= k < checks.len() && (#[trigger] checks[k]).1 is Valid implies v.contains(
            (checks[k].0, checks[k].1->0),
        ) by {
            if k < checks.len() - 1 {
                assert(rest[k] == checks[k]);
                assert(vr.contains((rest[k].0, rest[k].1->0)));
                let j = choose|j: int| 0 <= j < vr.len() && vr[j] == (rest[k].0, rest[k].1->0);
                assert(v[j] == vr[j]);
            } else {
                assert(v[v.len() - 1] == (checks[k].0, checks[k].1->0));
            }
        }
        assert forall|j: int| #![trigger v[j]] 0 <= j < v.len() implies exists|k: int|
            0 <= k < checks.len() && #[trigger] checks[k] == (
                v[j].0,
                ObservationCheck::Valid(v[j].1),
            ) by {
            if j < vr.len() {
                assert(v[j] == vr[j]);
                let k = choose|k: int|
                    0 <= k < rest.len() && #[trigger] rest[k] == (
                        vr[j].0,
                        ObservationCheck::Valid(vr[j].1),
                    );
                assert(checks[k] == rest[k]);
            } else {
                assert(checks[checks.len() - 1] == (v[j].0, ObservationCheck::Valid(v[j].1)));
            }
        }
    } else {
        assert(checks.filter(pred).map_values(f) =~= Seq::<(usize, Q)>::empty());
    }
}

/// The ids of `checks` whose observation failed, in order.
pub open spec fn failed_observations<Q>(checks: Seq<(usize, ObservationCheck<Q>)>) -> Seq<usize>
    decreases checks.len(),
{
    if checks.len() == 0 {
        Seq::empty()
    } else {
        let rest = failed_observations(checks.drop_last());
        match checks.last().1 {
            ObservationCheck::Valid(_) => rest,
            ObservationCheck::NonPositiveDepth => rest.push(checks.last().0),
        }
    }
}

/// Tracks stereo features, maintains landmarks, and decides when keyframes are added.
pub struct EstimatorCore<P, O, L> {
    pub frame_id_counter: u64,
    pub frames_since_last_keyframe: u64,
    pub max_frames_between_keyframes: u64,
    pub tracker: StereoPatchTracker,
    /// Poses of the keyframes that left the window, oldest first.
    pub keyframe_trajectory: Vec<P>,
    /// Latest computed pose (left camera in world).
    pub current_t_w_cam0: P,
    pub keyframe_window: KeyframeSlidingWindow<P, O>,
    /// Map from feature id to landmark position.
    pub landmarks: HashMap<usize, L>,
    /// Landmarks dropped when the last keyframe was marginalized.
    pub removed_good_landmarks: Vec<L>,
    /// Whether the frame being processed added a keyframe.
    pub new_keyframe_added: bool,
}

impl<P, O, L> EstimatorCore<P, O, L> {
    /// The invariant kept between frames: landmarks are owned by keyframes of
    /// the window, and the window respects its capacity.
    pub open spec fn wf(&self) -> bool {
        &&& landmarks_owned(self.landmarks@, self.keyframe_window@.frames, Seq::empty())
        &&& within_capacity(self.keyframe_window@)
    }

    /// The invariant kept while a frame is processed.
    pub open spec fn wf_with(&self, pending: PendingView<O>) -> bool {
        &&& landmarks_owned(self.landmarks@, self.keyframe_window@.frames, pending.new_point_ids)
        &&& within_capacity(self.keyframe_window@)
    }

    /// Creates an estimator with no landmark, an empty window of
    /// `keyframe_window_size` keyframes and a fresh tracker.
    pub fn new(
        tracker_optical_flow_levels: u32,
        tracker_grid_size: u32,
        keyframe_window_size: usize,
        max_frames_between_keyframes: u64,
        identity: P,
    ) -> (core: Self)
        ensures
            core.frame_id_counter == 0,
            core.frames_since_last_keyframe == 0,
            core.max_frames_between_keyframes == max_frames_between_keyframes,
            tracked_ids_cam0(core.tracker) == Set::<usize>::empty(),
            tracked_ids_cam1(core.tracker) == Set::<usize>::empty(),
            tracker_settings(core.tracker) == (tracker_optical_flow_levels, tracker_grid_size),
            core.keyframe_trajectory@ == Seq::<P>::empty(),
            core.current_t_w_cam0 == identity,
            core.keyframe_window@ == (WindowView::<P, O> {
                max_size: keyframe_window_size,
                frames: Seq::empty(),
            }),
            core.landmarks@ == Map::<usize, L>::empty(),
            core.removed_good_landmarks@ == Seq::<L>::empty(),
            !core.new_keyframe_added,
            core.wf(),
    {
        EstimatorCore {
            frame_id_counter: 0,
            frames_since_last_keyframe: 0,
            max_frames_between_keyframes,
            tracker: StereoPatchTracker::new(tracker_optical_flow_levels, tracker_grid_size),
            keyframe_trajectory: Vec::new(),
            current_t_w_cam0: identity,
            keyframe_window: KeyframeSlidingWindow::new(keyframe_window_size),
            landmarks: HashMap::new(),
            removed_good_landmarks: Vec::new(),
            new_keyframe_added: false,
        }
    }

    /// Starts a frame: no keyframe added yet, nothing pending.
    pub fn begin_frame(&mut self) -> (pending: PendingFrame<O>)
        ensures
            !final(self).new_keyframe_added,
            final(self).frame_id_counter == old(self).frame_id_counter,
            final(self).frames_since_last_keyframe == old(self).frames_since_last_keyframe,
            final(self).max_frames_between_keyframes == old(self).max_frames_between_keyframes,
            final(self).tracker == old(self).tracker,
            final(self).keyframe_trajectory@ == old(self).keyframe_trajectory@,
            final(self).current_t_w_cam0 == old(self).current_t_w_cam0,
            final(self).keyframe_window@ == old(self).keyframe_window@,
            final(self).landmarks@ == old(self).landmarks@,
            final(self).removed_good_landmarks@ == old(self).removed_good_landmarks@,
            pending@ == (PendingView::<O> {
                bad_points: Seq::empty(),
                cam0: Map::empty(),
                cam1: Map::empty(),
                new_point_ids: Seq::empty(),
            }),
            old(self).wf() ==> final(self).wf_with(pending@),
    {
        self.new_keyframe_added = false;
        let pending = PendingFrame {
            bad_points: Vec::new(),
            cam0_observations: HashMap::new(),
            cam1_observations: HashMap::new(),
            new_point_ids: Vec::new(),
        };
        assert(pending@.new_point_ids =~= Seq::<usize>::empty());
        pending
    }

    /// The ids of the features that the tracker follows in the left and in
    /// the right image, each once.
    pub fn tracked_feature_ids(&self) -> (ids: (Vec<usize>, Vec<usize>))
        ensures
            ids.0@.to_set() == tracked_ids_cam0(self.tracker),
            ids.0@.no_duplicates(),
            ids.1@.to_set() == tracked_ids_cam1(self.tracker),
            ids.1@.no_duplicates(),
    {
        tracked_ids(&self.tracker)
    }

    /// Does the map still have to be initialized (no landmark yet)?
    pub fn is_initializing(&self) -> (init: bool)
        ensures
            init == (self.landmarks@ == Map::<usize, L>::empty()),
    {
        let init = self.landmarks.is_empty();
        proof {
            if init {
                assert(self.landmarks@ =~= Map::<usize, L>::empty());
            }
        }
        init
    }

    /// Is a new keyframe due, given whether the motion since the last
    /// keyframe exceeded the translation and rotation thresholds?
    pub fn needs_keyframe(&self, translation_exceeded: bool, rotation_exceeded: bool) -> (due: bool)
        ensures
            due == spec_needs_keyframe(
                translation_exceeded,
                rotation_exceeded,
                self.frames_since_last_keyframe,
                self.max_frames_between_keyframes,
            ),
            due == (translation_exceeded || rotation_exceeded || self.frames_since_last_keyframe
                > self.max_frames_between_keyframes),
    {
        translation_exceeded || rotation_exceeded || self.frames_since_last_keyframe
            > self.max_frames_between_keyframes
    }

    /// The ids of `ids` that can become new landmarks: those that are not
    /// landmarks yet and are matched in the right image (`right`), in order.
    pub fn select_new_points(&self, ids: &Vec<usize>, right: &HashSet<usize>) -> (candidates: Vec<
        usize,
    >)
        ensures
            candidates@ == matched_new_points(ids@, self.landmarks@, right@),
            forall|id: usize| #[trigger]
                candidates@.contains(id) <==> (ids@.contains(id) && !self.landmarks@.contains_key(id)
                    && right@.contains(id)),
    {
        let mut candidates: Vec<usize> = Vec::new();
        let n = ids.len();
        for i in 0..n
            invariant
                n == ids@.len(),
                candidates@ == matched_new_points(ids@.take(i as int), self.landmarks@, right@),
        {
            let id = ids[i];
            proof {
                reveal_with_fuel(Seq::filter, 1);
                assert(ids@.take(i + 1).drop_last() =~= ids@.take(i as int));
            }
            if !self.landmarks.contains_key(&id) && right.contains(&id) {
                candidates.push(id);
            }
        }
        assert(ids@.take(n as int) =~= ids@);
        proof {
            assert forall|id: usize| #[trigger]
                candidates@.contains(id) <==> (ids@.contains(id) && !self.landmarks@.contains_key(id)
                    && right@.contains(id)) by {
                crate::frame_step::lemma_filter_contains_iff(
                    ids@,
                    |x: usize| !self.landmarks@.contains_key(x) && right@.contains(x),
                    id,
                );
            }
        }
        candidates
    }

    /// The ids of `ids` that are not landmarks and have no match in the
    /// right image (`right`), in order.
    pub fn select_unmatched_points(&self, ids: &Vec<usize>, right: &HashSet<usize>) -> (unmatched:
        Vec<usize>)
        ensures
            unmatched@ == unmatched_new_points(ids@, self.landmarks@, right@),
            forall|id: usize| #[trigger]
                unmatched@.contains(id) <==> (ids@.contains(id) && !self.landmarks@.contains_key(id)
                    && !right@.contains(id)),
    {
        let mut unmatched: Vec<usize> = Vec::new();
        let n = ids.len();
        for i in 0..n
            invariant
                n == ids@.len(),
                unmatched@ == unmatched_new_points(ids@.take(i as int), self.landmarks@, right@),
        {
            let id = ids[i];
            proof {
                reveal_with_fuel(Seq::filter, 1);
                assert(ids@.take(i + 1).drop_last() =~= ids@.take(i as int));
            }
            if !self.landmarks.contains_key(&id) && !right.contains(&id) {
                unmatched.push(id);
            }
        }
        assert(ids@.take(n as int) =~= ids@);
        proof {
            assert forall|id: usize| #[trigger]
                unmatched@.contains(id) <==> (ids@.contains(id) && !self.landmarks@.contains_key(id)
                    && !right@.contains(id)) by {
                crate::frame_step::lemma_filter_contains_iff(
                    ids@,
                    |x: usize| !self.landmarks@.contains_key(x) && !right@.contains(x),
                    id,
                );
            }
        }
        unmatched
    }

    /// The ids of `ids` that are landmarks, in order.
    pub fn select_known_landmarks(&self, ids: &Vec<usize>) -> (known: Vec<usize>)
        ensures
            known@ == known_landmarks(ids@, self.landmarks@),
            forall|id: usize| #[trigger]
                known@.contains(id) <==> (ids@.contains(id) && self.landmarks@.contains_key(id)),
    {
        let mut known: Vec<usize> = Vec::new();
        let n = ids.len();
        for i in 0..n
            invariant
                n == ids@.len(),
                known@ == known_landmarks(ids@.take(i as int), self.landmarks@),
        {
            let id = ids[i];
            proof {
                reveal_with_fuel(Seq::filter, 1);
                assert(ids@.take(i + 1).drop_last() =~= ids@.take(i as int));
            }
            if self.landmarks.contains_key(&id) {
                known.push(id);
            }
        }
        assert(ids@.take(n as int) =~= ids@);
        proof {
            assert forall|id: usize| #[trigger]
                known@.contains(id) <==> (ids@.contains(id) && self.landmarks@.contains_key(id)) by {
                crate::frame_step::lemma_filter_contains_iff(
                    ids@,
                    |x: usize| self.landmarks@.contains_key(x),
                    id,
                );
            }
        }
        known
    }

    /// Marks bad every id of `ids` that is not a landmark (a frame that adds
    /// no keyframe keeps tracking known landmarks only).
    pub fn reject_unknown_points(&self, pending: &mut PendingFrame<O>, ids: &Vec<usize>)
        ensures
            final(pending)@ == (PendingView {
                bad_points: old(pending)@.bad_points + unknown_points(ids@, self.landmarks@),
                ..old(pending)@
            }),
    {
        let ghost bad0 = pending@.bad_points;
        let n = ids.len();
        for i in 0..n
            invariant
                n == ids@.len(),
                pending@.bad_points == bad0 + unknown_points(ids@.take(i as int), self.landmarks@),
                pending@.cam0 == old(pending)@.cam0,
                pending@.cam1 == old(pending)@.cam1,
                pending@.new_point_ids == old(pending)@.new_point_ids,
        {
            let id = ids[i];
            proof {
                reveal_with_fuel(Seq::filter, 1);
                assert(ids@.take(i + 1).drop_last() =~= ids@.take(i as int));
            }
            if !self.landmarks.contains_key(&id) {
                pending.bad_points.push(id);
                assert(pending@.bad_points =~= bad0 + unknown_points(
                    ids@.take(i + 1),
                    self.landmarks@,
                ));
            }
        }
        assert(ids@.take(n as int) =~= ids@);
    }

    /// Records the outcome of the checks on stereo match `id`: a valid match
    /// becomes a landmark and a new point of the pending keyframe, with its
    /// observations; any other outcome marks the feature bad.
    pub fn record_new_point(
        &mut self,
        pending: &mut PendingFrame<O>,
        id: usize,
        check: StereoCheck<O, L>,
    )
        ensures
            match check {
                StereoCheck::Valid { obs0, obs1, landmark } => {
                    &&& final(pending)@ == (PendingView {
                        bad_points: old(pending)@.bad_points,
                        cam0: old(pending)@.cam0.insert(id, obs0),
                        cam1: old(pending)@.cam1.insert(id, obs1),
                        new_point_ids: old(pending)@.new_point_ids.push(id),
                    })
                    &&& final(self).landmarks@ == old(self).landmarks@.insert(id, landmark)
                },
                _ => {
                    &&& final(pending)@ == (PendingView {
                        bad_points: old(pending)@.bad_points.push(id),
                        ..old(pending)@
                    })
                    &&& final(self).landmarks@ == old(self).landmarks@
                },
            },
            final(self).frame_id_counter == old(self).frame_id_counter,
            final(self).frames_since_last_keyframe == old(self).frames_since_last_keyframe,
            final(self).max_frames_between_keyframes == old(self).max_frames_between_keyframes,
            final(self).tracker == old(self).tracker,
            final(self).keyframe_trajectory@ == old(self).keyframe_trajectory@,
            final(self).current_t_w_cam0 == old(self).current_t_w_cam0,
            final(self).keyframe_window@ == old(self).keyframe_window@,
            final(self).removed_good_landmarks@ == old(self).removed_good_landmarks@,
            final(self).new_keyframe_added == old(self).new_keyframe_added,
            old(self).wf_with(old(pending)@) ==> final(self).wf_with(final(pending)@),
    {
        match check {
            StereoCheck::Valid { obs0, obs1, landmark } => {
                pending.cam0_observations.insert(id, obs0);
                pending.cam1_observations.insert(id, obs1);
                self.landmarks.insert(id, landmark);
                pending.new_point_ids.push(id);
                proof {
                    let frames = self.keyframe_window@.frames;
                    assert forall|x: usize| #[trigger]
                        self.landmarks@.contains_key(x) && old(self).wf_with(
                            old(pending)@,
                        ) implies owned_point_ids(frames).contains(x)
                        || pending@.new_point_ids.contains(x) by {
                        if x != id {
                            assert(old(self).landmarks@.contains_key(x));
                            if old(pending)@.new_point_ids.contains(x) {
                                let k = choose|k: int|
                                    0 <= k < old(pending)@.new_point_ids.len()
                                        && old(pending)@.new_point_ids[k] == x;
                                assert(pending@.new_point_ids[k] == x);
                            }
                        } else {
                            assert(pending@.new_point_ids.last() == id);
                        }
                    }
                }
            },
            _ => {
                pending.bad_points.push(id);
            },
        }
    }

    /// Records the outcome of unprojecting the observation of landmark `id`
    /// in one image: a valid observation is stored for the pending keyframe,
    /// a failed one marks the feature bad.
    pub fn record_observation(
        &self,
        pending: &mut PendingFrame<O>,
        camera: Camera,
        id: usize,
        check: ObservationCheck<O>,
    )
        ensures
            match check {
                ObservationCheck::Valid(obs) => final(pending)@ == match camera {
                    Camera::Left => PendingView {
                        cam0: old(pending)@.cam0.insert(id, obs),
                        ..old(pending)@
                    },
                    Camera::Right => PendingView {
                        cam1: old(pending)@.cam1.insert(id, obs),
                        ..old(pending)@
                    },
                },
                ObservationCheck::NonPositiveDepth => final(pending)@ == (PendingView {
                    bad_points: old(pending)@.bad_points.push(id),
                    ..old(pending)@
                }),
            },
    {
        match check {
            ObservationCheck::Valid(obs) => match camera {
                Camera::Left => {
                    pending.cam0_observations.insert(id, obs);
                },
                Camera::Right => {
                    pending.cam1_observations.insert(id, obs);
                },
            },
            ObservationCheck::NonPositiveDepth => {
                pending.bad_points.push(id);
            },
        }
    }

    /// Records the outcome of unprojecting the left observation of landmark
    /// `id` for the pose estimate: a valid observation is handed back, a
    /// failed one marks the feature bad.
    pub fn record_pose_observation<Q>(
        &self,
        pending: &mut PendingFrame<O>,
        id: usize,
        check: ObservationCheck<Q>,
    ) -> (used: Option<Q>)
        ensures
            match check {
                ObservationCheck::Valid(obs) => used == Some(obs) && final(pending)@
                    == old(pending)@,
                ObservationCheck::NonPositiveDepth => used is None && final(pending)@
                    == (PendingView { bad_points: old(pending)@.bad_points.push(id), ..old(pending)@ }),
            },
    {
        match check {
            ObservationCheck::Valid(obs) => Some(obs),
            ObservationCheck::NonPositiveDepth => {
                pending.bad_points.push(id);
                None
            },
        }
    }

    /// Records, in order, the outcomes of the checks on stereo matches.
    pub fn record_new_points(
        &mut self,
        pending: &mut PendingFrame<O>,
        checks: Vec<(usize, StereoCheck<O, L>)>,
    )
        ensures
            (final(self).landmarks@, final(pending)@) == new_points_effect(
                old(self).landmarks@,
                old(pending)@,
                checks@,
            ),
            final(self).frame_id_counter == old(self).frame_id_counter,
            final(self).frames_since_last_keyframe == old(self).frames_since_last_keyframe,
            final(self).max_frames_between_keyframes == old(self).max_frames_between_keyframes,
            final(self).tracker == old(self).tracker,
            final(self).keyframe_trajectory@ == old(self).keyframe_trajectory@,
            final(self).current_t_w_cam0 == old(self).current_t_w_cam0,
            final(self).keyframe_window@ == old(self).keyframe_window@,
            final(self).removed_good_landmarks@ == old(self).removed_good_landmarks@,
            final(self).new_keyframe_added == old(self).new_keyframe_added,
            (forall|a: int, b: int| 0 <= a < b < checks@.len() ==> checks@[a].0 != checks@[b].0)
                ==> forall|k: int|
                0 <= k < checks@.len() ==> #[trigger] new_point_outcome_holds(
                    old(self).landmarks@,
                    old(pending)@,
                    checks@,
                    k,
                ),
            old(self).wf_with(old(pending)@) ==> final(self).wf_with(final(pending)@),
    {
        let ghost all = checks@;
        for item in it: checks.into_iter()
            invariant
                it.seq() == all,
                (self.landmarks@, pending@) == new_points_effect(
                    old(self).landmarks@,
                    old(pending)@,
                    all.take(it.index() as int),
                ),
                self.frame_id_counter == old(self).frame_id_counter,
                self.frames_since_last_keyframe == old(self).frames_since_last_keyframe,
                self.max_frames_between_keyframes == old(self).max_frames_between_keyframes,
                self.tracker == old(self).tracker,
                self.keyframe_trajectory@ == old(self).keyframe_trajectory@,
                self.current_t_w_cam0 == old(self).current_t_w_cam0,
                self.keyframe_window@ == old(self).keyframe_window@,
                self.removed_good_landmarks@ == old(self).removed_good_landmarks@,
                self.new_keyframe_added == old(self).new_keyframe_added,
                old(self).wf_with(old(pending)@) ==> self.wf_with(pending@),
        {
            let ghost k = it.index() as int;
            proof {
                assert(all.take(k + 1).drop_last() =~= all.take(k));
                assert(all.take(k + 1).last() == all[k]);
            }
            let (id, check) = item;
            self.record_new_point(pending, id, check);
        }
        assert(all.take(all.len() as int) =~= all);
        proof {
            if forall|a: int, b: int| 0 <= a < b < all.len() ==> all[a].0 != all[b].0 {
                lemma_new_points_recorded(old(self).landmarks@, old(pending)@, all);
            }
        }
    }

    /// Records, in order, the outcomes of unprojecting observations of
    /// landmarks in image `camera`.
    pub fn record_observations(
        &self,
        pending: &mut PendingFrame<O>,
        camera: Camera,
        checks: Vec<(usize, ObservationCheck<O>)>,
    )
        ensures
            final(pending)@ == observations_effect(old(pending)@, camera, checks@),
            final(pending)@.new_point_ids == old(pending)@.new_point_ids,
    {
        let ghost all = checks@;
        for item in it: checks.into_iter()
            invariant
                it.seq() == all,
                pending@ == observations_effect(old(pending)@, camera, all.take(it.index() as int)),
                pending@.new_point_ids == old(pending)@.new_point_ids,
        {
            let ghost k = it.index() as int;
            proof {
                assert(all.take(k + 1).drop_last() =~= all.take(k));
                assert(all.take(k + 1).last() == all[k]);
            }
            let (id, check) = item;
            self.record_observation(pending, camera, id, check);
        }
        assert(all.take(all.len() as int) =~= all);
    }

    /// Records, in order, the outcomes of unprojecting the left observations
    /// of landmarks for the pose estimate: hands back the valid ones with
    /// their ids, and marks the others bad.
    pub fn record_pose_observations<Q>(
        &self,
        pending: &mut PendingFrame<O>,
        checks: Vec<(usize, ObservationCheck<Q>)>,
    ) -> (used: Vec<(usize, Q)>)
        ensures
            used@ == valid_observations(checks@),
            used@ == checks@.filter(|c: (usize, ObservationCheck<Q>)| c.1 is Valid).map_values(
                |c: (usize, ObservationCheck<Q>)| (c.0, c.1->0),
            ),
            forall|k: int|
                0 <= k < checks@.len() && (#[trigger] checks@[k]).1 is Valid ==> used@.contains(
                    (checks@[k].0, checks@[k].1->0),
                ),
            final(pending)@ == (PendingView {
                bad_points: old(pending)@.bad_points + failed_observations(checks@),
                ..old(pending)@
            }),
    {
        let ghost all = checks@;
        let mut used: Vec<(usize, Q)> = Vec::new();
        for item in it: checks.into_iter()
            invariant
                it.seq() == all,
                used@ == valid_observations(all.take(it.index() as int)),
                pending@ == (PendingView {
                    bad_points: old(pending)@.bad_points + failed_observations(
                        all.take(it.index() as int),
                    ),
                    ..old(pending)@
                }),
        {
            let ghost k = it.index() as int;
            proof {
                assert(all.take(k + 1).drop_last() =~= all.take(k));
                assert(all.take(k + 1).last() == all[k]);
            }
            let (id, check) = item;
            match self.record_pose_observation(pending, id, check) {
                Some(obs) => {
                    used.push((id, obs));
                },
                None => {},
            }
            proof {
                assert(pending@.bad_points =~= old(pending)@.bad_points + failed_observations(
                    all.take(k + 1),
                ));
            }
        }
        assert(all.take(all.len() as int) =~= all);
        proof {
            lemma_valid_observations(all);
        }
        used
    }

    /// Turns the pending frame into a keyframe at `pose` while the map is
    /// initialized: the keyframe enters the window and whatever the window
    /// marginalizes is discarded. Returns the features to stop tracking.
    pub fn commit_initial_keyframe(&mut self, pending: PendingFrame<O>, pose: P) -> (bad: Vec<
        usize,
    >)
        ensures
            final(self).keyframe_window@ == spec_add_keyframe(
                old(self).keyframe_window@,
                pending_keyframe(pending@, pose),
            ).0,
            final(self).new_keyframe_added,
            bad@ == pending@.bad_points,
            final(self).landmarks@ == old(self).landmarks@,
            final(self).frame_id_counter == old(self).frame_id_counter,
            final(self).frames_since_last_keyframe == old(self).frames_since_last_keyframe,
            final(self).max_frames_between_keyframes == old(self).max_frames_between_keyframes,
            final(self).tracker == old(self).tracker,
            final(self).keyframe_trajectory@ == old(self).keyframe_trajectory@,
            final(self).current_t_w_cam0 == old(self).current_t_w_cam0,
            final(self).removed_good_landmarks@ == old(self).removed_good_landmarks@,
            old(self).wf_with(pending@) && (forall|id: usize| #[trigger]
                old(self).landmarks@.contains_key(id) ==> pending@.new_point_ids.contains(id))
                ==> final(self).wf(),
    {
        let ghost w = self.keyframe_window@;
        let ghost fv = pending_keyframe(pending@, pose);
        let PendingFrame { bad_points, cam0_observations, cam1_observations, new_point_ids } =
            pending;
        let frame = Frame::new(pose, cam0_observations, cam1_observations, new_point_ids);
        assert(frame@ == fv);
        let _ = self.keyframe_window.add_keyframe(frame);
        self.new_keyframe_added = true;
        proof {
            if old(self).wf_with(fv_pending(fv)) && (forall|id: usize| #[trigger]
                old(self).landmarks@.contains_key(id) ==> fv.new_point_ids.contains(id)) {
                lemma_window_keeps_new_points(w, fv, self.landmarks@);
            }
        }
        bad_points
    }

    /// Turns the pending frame into a keyframe at `pose`. When the window
    /// marginalizes a keyframe, its dropped landmarks leave the map (their
    /// positions are kept in `removed_good_landmarks`), their features are
    /// marked bad, and its pose joins the trajectory. Returns the features to
    /// stop tracking.
    pub fn commit_keyframe(&mut self, pending: PendingFrame<O>, pose: P) -> (bad: Vec<usize>)
        ensures
            ({
                let (w, marg) = spec_add_keyframe(
                    old(self).keyframe_window@,
                    pending_keyframe(pending@, pose),
                );
                &&& final(self).keyframe_window@ == w
                &&& match marg {
                    Some((marg_pose, dropped)) => {
                        &&& final(self).landmarks@ == old(self).landmarks@.remove_keys(
                            dropped.to_set(),
                        )
                        &&& final(self).removed_good_landmarks@ == removed_landmarks(
                            dropped,
                            old(self).landmarks@,
                        )
                        &&& final(self).keyframe_trajectory@ == old(
                            self,
                        ).keyframe_trajectory@.push(marg_pose)
                        &&& bad@ == pending@.bad_points + dropped
                    },
                    None => {
                        &&& final(self).landmarks@ == old(self).landmarks@
                        &&& final(self).removed_good_landmarks@ == old(
                            self,
                        ).removed_good_landmarks@
                        &&& final(self).keyframe_trajectory@ == old(self).keyframe_trajectory@
                        &&& bad@ == pending@.bad_points
                    },
                }
            }),
            final(self).new_keyframe_added,
            final(self).frames_since_last_keyframe == 0,
            final(self).frame_id_counter == old(self).frame_id_counter,
            final(self).max_frames_between_keyframes == old(self).max_frames_between_keyframes,
            final(self).tracker == old(self).tracker,
            final(self).current_t_w_cam0 == old(self).current_t_w_cam0,
            old(self).wf_with(pending@) ==> final(self).wf(),
    {
        let ghost w = self.keyframe_window@;
        let ghost fv = pending_keyframe(pending@, pose);
        let ghost lm0 = self.landmarks@;
        let ghost pend = pending@;
        let PendingFrame { mut bad_points, cam0_observations, cam1_observations, new_point_ids } =
            pending;
        let frame = Frame::new(pose, cam0_observations, cam1_observations, new_point_ids);
        assert(frame@ == fv);
        let marg = self.keyframe_window.add_keyframe(frame);
        self.new_keyframe_added = true;
        self.frames_since_last_keyframe = 0;
        match marg {
            Some((marg_pose, marg_ids)) => {
                self.removed_good_landmarks.clear();
                let n = marg_ids.len();
                for i in 0..n
                    invariant
                        n == marg_ids@.len(),
                        self.landmarks@ == lm0.remove_keys(marg_ids@.take(i as int).to_set()),
                        self.removed_good_landmarks@ == removed_landmarks(
                            marg_ids@.take(i as int),
                            lm0,
                        ),
                        bad_points@ == pend.bad_points + marg_ids@.take(i as int),
                        self.keyframe_window@ == spec_add_keyframe(w, fv).0,
                        self.new_keyframe_added,
                        self.frames_since_last_keyframe == 0,
                        self.frame_id_counter == old(self).frame_id_counter,
                        self.max_frames_between_keyframes == old(self).max_frames_between_keyframes,
                        self.tracker == old(self).tracker,
                        self.current_t_w_cam0 == old(self).current_t_w_cam0,
                        self.keyframe_trajectory@ == old(self).keyframe_trajectory@,
                {
                    let id = marg_ids[i];
                    let ghost before = marg_ids@.take(i as int);
                    proof {
                        assert(marg_ids@.take(i + 1) == before.push(id));
                        assert(marg_ids@.take(i + 1).drop_last() == before);
                        before.lemma_push_to_set_commute(id);
                    }
                    match self.landmarks.remove(&id) {
                        Some(landmark) => {
                            self.removed_good_landmarks.push(landmark);
                        },
                        None => {},
                    }
                    bad_points.push(id);
                    proof {
                        assert(self.landmarks@ =~= lm0.remove_keys(marg_ids@.take(i + 1).to_set()));
                        assert(bad_points@ =~= pend.bad_points + marg_ids@.take(i + 1));
                    }
                }
                assert(marg_ids@.take(n as int) =~= marg_ids@);
                self.keyframe_trajectory.push(marg_pose);
                proof {
                    if old(self).wf_with(pend) {
                        lemma_window_keeps_landmarks(w, fv, lm0, self.landmarks@);
                    }
                }
            },
            None => {
                proof {
                    if old(self).wf_with(pend) {
                        lemma_window_keeps_landmarks(w, fv, lm0, self.landmarks@);
                    }
                }
            },
        }
        bad_points
    }

    /// Removes the landmarks `ids` from the map and marks their features bad
    /// (bundle adjustment found them unreliable).
    pub fn drop_landmarks(&mut self, bad_points: &mut Vec<usize>, ids: &Vec<usize>)
        ensures
            final(self).landmarks@ == old(self).landmarks@.remove_keys(ids@.to_set()),
            final(bad_points)@ == old(bad_points)@ + ids@,
            final(self).keyframe_window@ == old(self).keyframe_window@,
            final(self).frame_id_counter == old(self).frame_id_counter,
            final(self).frames_since_last_keyframe == old(self).frames_since_last_keyframe,
            final(self).max_frames_between_keyframes == old(self).max_frames_between_keyframes,
            final(self).tracker == old(self).tracker,
            final(self).keyframe_trajectory@ == old(self).keyframe_trajectory@,
            final(self).current_t_w_cam0 == old(self).current_t_w_cam0,
            final(self).removed_good_landmarks@ == old(self).removed_good_landmarks@,
            final(self).new_keyframe_added == old(self).new_keyframe_added,
            old(self).wf() ==> final(self).wf(),
    {
        let ghost lm0 = self.landmarks@;
        let ghost bad0 = bad_points@;
        let n = ids.len();
        for i in 0..n
            invariant
                n == ids@.len(),
                self.landmarks@ == lm0.remove_keys(ids@.take(i as int).to_set()),
                bad_points@ == bad0 + ids@.take(i as int),
                self.keyframe_window@ == old(self).keyframe_window@,
                self.frame_id_counter == old(self).frame_id_counter,
                self.frames_since_last_keyframe == old(self).frames_since_last_keyframe,
                self.max_frames_between_keyframes == old(self).max_frames_between_keyframes,
                self.tracker == old(self).tracker,
                self.keyframe_trajectory@ == old(self).keyframe_trajectory@,
                self.current_t_w_cam0 == old(self).current_t_w_cam0,
                self.removed_good_landmarks@ == old(self).removed_good_landmarks@,
                self.new_keyframe_added == old(self).new_keyframe_added,
        {
            let id = ids[i];
            proof {
                assert(ids@.take(i + 1) == ids@.take(i as int).push(id));
                ids@.take(i as int).lemma_push_to_set_commute(id);
            }
            self.landmarks.remove(&id);
            bad_points.push(id);
            proof {
                assert(self.landmarks@ =~= lm0.remove_keys(ids@.take(i + 1).to_set()));
                assert(bad_points@ =~= bad0 + ids@.take(i + 1));
            }
        }
        assert(ids@.take(n as int) =~= ids@);
    }

    /// Ends a frame: the tracker stops following the bad features, and both
    /// frame counters advance.
    pub fn end_frame(&mut self, bad_points: &Vec<usize>)
        requires
            old(self).frame_id_counter < u64::MAX,
            old(self).frames_since_last_keyframe < u64::MAX,
        ensures
            tracked_ids_cam0(final(self).tracker) == tracked_ids_cam0(old(self).tracker).difference(
                bad_points@.to_set(),
            ),
            tracked_ids_cam1(final(self).tracker) == tracked_ids_cam1(old(self).tracker).difference(
                bad_points@.to_set(),
            ),
            tracker_settings(final(self).tracker) == tracker_settings(old(self).tracker),
            final(self).frame_id_counter == old(self).frame_id_counter + 1,
            final(self).frames_since_last_keyframe == old(self).frames_since_last_keyframe + 1,
            final(self).max_frames_between_keyframes == old(self).max_frames_between_keyframes,
            final(self).keyframe_trajectory@ == old(self).keyframe_trajectory@,
            final(self).current_t_w_cam0 == old(self).current_t_w_cam0,
            final(self).keyframe_window@ == old(self).keyframe_window@,
            final(self).landmarks@ == old(self).landmarks@,
            final(self).removed_good_landmarks@ == old(self).removed_good_landmarks@,
            final(self).new_keyframe_added == old(self).new_keyframe_added,
            old(self).wf() ==> final(self).wf(),
    {
        self.tracker.remove_id(bad_points.as_slice());
        self.frame_id_counter = self.frame_id_counter + 1;
        self.frames_since_last_keyframe = self.frames_since_last_keyframe + 1;
    }
}

impl<P: Copy, O, L: Copy> EstimatorCore<P, O, L> {
    /// Writes the solution of a bundle adjustment back: the optimized poses
    /// of the keyframes (the first one stays fixed) and the optimized
    /// landmark positions. No landmark appears or disappears.
    pub fn apply_bundle_adjustment(&mut self, poses: &Vec<Option<P>>, updates: &Vec<(usize, L)>)
        ensures
            bundle_adjustment_applied(*old(self), *final(self), poses@, updates@),
            old(self).wf() ==> final(self).wf(),
    {
        apply_optimized_poses(&mut self.keyframe_window, poses);
        apply_optimized_landmarks(&mut self.landmarks, updates);
        proof {
            let a = old(self).keyframe_window@.frames;
            let b = self.keyframe_window@.frames;
            assert forall|k: int| 0 <= k < a.len() implies #[trigger] a[k].new_point_ids
                == b[k].new_point_ids by {
                assert(b[k] == FrameView { pose: optimized_pose(a[k].pose, poses@, k), ..a[k] });
            }
            lemma_owned_depends_on_new_points(a, b);
            lemma_landmark_updates_keep_ids(old(self).landmarks@, updates@);
            assert(self.landmarks@.dom() =~= old(self).landmarks@.dom());
        }
    }
}

/// A frame that adds no keyframe leaves the tracker following, in the left
/// image, landmarks only: every followed feature that is not a landmark is
/// marked bad (after whatever was marked bad before) and is no longer
/// followed once the frame ends.
pub proof fn lemma_frame_without_keyframe_follows_landmarks_only<L>(
    followed: Set<usize>,
    ids: Seq<usize>,
    landmarks: Map<usize, L>,
    bad_before: Seq<usize>,
)
    requires
        ids.to_set() == followed,
    ensures
        forall|id: usize| #[trigger]
            followed.difference((bad_before + unknown_points(ids, landmarks)).to_set()).contains(id)
                ==> landmarks.contains_key(id),
{
    broadcast use vstd::seq_lib::group_filter_ensures;

    let bad = bad_before + unknown_points(ids, landmarks);
    assert forall|id: usize| #[trigger]
        followed.difference(bad.to_set()).contains(id) implies landmarks.contains_key(id) by {
        assert(ids.to_set().contains(id));
        assert(ids.contains(id));
        if !landmarks.contains_key(id) {
            let k = choose|k: int| 0 <= k < ids.len() && ids[k] == id;
            let unknown = unknown_points(ids, landmarks);
            assert(unknown.contains(id));
            let j = choose|j: int| 0 <= j < unknown.len() && unknown[j] == id;
            assert(bad[bad_before.len() + j] == id);
            assert(bad.contains(id));
            assert(bad.to_set().contains(id));
        }
    }
}

/// Recording stereo outcomes removes no landmark and unmarks no bad
/// feature; each valid outcome leaves a landmark, each other one a bad mark.
pub(crate) proof fn lemma_new_points_effect<O, L>(
    landmarks: Map<usize, L>,
    pending: PendingView<O>,
    checks: Seq<(usize, StereoCheck<O, L>)>,
)
    ensures
        ({
            let (lm, p) = new_points_effect(landmarks, pending, checks);
            &&& forall|id: usize| #[trigger] landmarks.contains_key(id) ==> lm.contains_key(id)
            &&& forall|id: usize| #[trigger] pending.bad_points.contains(id) ==> p.bad_points.contains(id)
            &&& forall|k: int|
                0 <= k < checks.len() ==> (if (#[trigger] checks[k]).1 is Valid {
                    lm.contains_key(checks[k].0)
                } else {
                    p.bad_points.contains(checks[k].0)
                })
        }),
    decreases checks.len(),
{
    if checks.len() > 0 {
        let rest = checks.drop_last();
        lemma_new_points_effect(landmarks, pending, rest);
        let (lm0, p0) = new_points_effect(landmarks, pending, rest);
        let (lm, p) = new_points_effect(landmarks, pending, checks);
        let (id, check) = checks.last();
        assert(forall|x: usize| #[trigger] p0.bad_points.contains(x) ==> p.bad_points.contains(x)) by {
            if !(check is Valid) {
                assert forall|x: usize| #[trigger] p0.bad_points.contains(x) implies p.bad_points.contains(x) by {
                    let j = choose|j: int| 0 <= j < p0.bad_points.len() && p0.bad_points[j] == x;
                    assert(p.bad_points[j] == x);
                }
            }
        }
        assert forall|k: int| 0 <= k < checks.len() implies (if (#[trigger] checks[k]).1 is Valid {
            lm.contains_key(checks[k].0)
        } else {
            p.bad_points.contains(checks[k].0)
        }) by {
            if k < checks.len() - 1 {
                assert(checks[k] == rest[k]);
            } else if !(check is Valid) {
                assert(p.bad_points[p.bad_points.len() - 1] == id);
            }
        }
    }
}

/// A frame that adds a keyframe leaves the tracker following, in the left
/// image, landmarks only. Of the followed features `ids`, those that are not
/// landmarks are either unmatched in the right image (marked bad) or checked
/// (`checks` holds exactly the matched ones, in order) and then become
/// landmarks or are marked bad; landmarks leave the map only when the window
/// drops them or the bundle adjustment rejects them, and both are marked bad.
/// The bundle adjustment keeps the landmark ids (`optimized`).
pub proof fn lemma_keyframe_frame_follows_landmarks_only<O, L>(
    ids: Seq<usize>,
    landmarks: Map<usize, L>,
    cam1: Set<usize>,
    pending: PendingView<O>,
    checks: Seq<(usize, StereoCheck<O, L>)>,
    dropped: Seq<usize>,
    optimized: Map<usize, L>,
    rejected: Seq<usize>,
)
    requires
        checks.map_values(|c: (usize, StereoCheck<O, L>)| c.0) == matched_new_points(
            ids,
            landmarks,
            cam1,
        ),
        optimized.dom() == new_points_effect(
            landmarks,
            PendingView {
                bad_points: pending.bad_points + unmatched_new_points(ids, landmarks, cam1),
                ..pending
            },
            checks,
        ).0.remove_keys(dropped.to_set()).dom(),
    ensures
        ({
            let selected = PendingView {
                bad_points: pending.bad_points + unmatched_new_points(ids, landmarks, cam1),
                ..pending
            };
            let (_, p) = new_points_effect(landmarks, selected, checks);
            let bad = p.bad_points + dropped + rejected;
            forall|id: usize| #[trigger]
                ids.to_set().difference(bad.to_set()).contains(id) ==> optimized.remove_keys(
                    rejected.to_set(),
                ).contains_key(id)
        }),
{
    broadcast use vstd::seq_lib::group_filter_ensures;

    let selected = PendingView {
        bad_points: pending.bad_points + unmatched_new_points(ids, landmarks, cam1),
        ..pending
    };
    let (lm1, p) = new_points_effect(landmarks, selected, checks);
    let bad = p.bad_points + dropped + rejected;
    lemma_new_points_effect(landmarks, selected, checks);
    let matched = matched_new_points(ids, landmarks, cam1);
    let unmatched = unmatched_new_points(ids, landmarks, cam1);
    assert forall|id: usize| #[trigger]
        ids.to_set().difference(bad.to_set()).contains(id) implies optimized.remove_keys(
            rejected.to_set(),
        ).contains_key(id) by {
        assert(ids.contains(id));
        assert(!bad.contains(id));
        // Whatever is marked bad along the way stays in `bad`.
        assert forall|x: usize| #[trigger] p.bad_points.contains(x) implies bad.contains(x) by {
            let j = choose|j: int| 0 <= j < p.bad_points.len() && p.bad_points[j] == x;
            assert(bad[j] == x);
        }
        assert forall|x: usize| #[trigger] dropped.contains(x) implies bad.contains(x) by {
            let j = choose|j: int| 0 <= j < dropped.len() && dropped[j] == x;
            assert(bad[p.bad_points.len() + j] == x);
        }
        assert forall|x: usize| #[trigger] rejected.contains(x) implies bad.contains(x) by {
            let j = choose|j: int| 0 <= j < rejected.len() && rejected[j] == x;
            assert(bad[p.bad_points.len() + dropped.len() + j] == x);
        }
        // So the feature is a landmark after the stereo checks.
        if !landmarks.contains_key(id) {
            if cam1.contains(id) {
                assert(matched.contains(id));
                let k = choose|k: int| 0 <= k < matched.len() && matched[k] == id;
                assert(checks.map_values(|c: (usize, StereoCheck<O, L>)| c.0)[k] == id);
                assert(checks[k].0 == id);
                if !(checks[k].1 is Valid) {
                    assert(p.bad_points.contains(id));
                }
            } else {
                assert(unmatched.contains(id));
                let j = choose|j: int| 0 <= j < unmatched.len() && unmatched[j] == id;
                assert(selected.bad_points[pending.bad_points.len() + j] == id);
                assert(selected.bad_points.contains(id));
            }
        }
        assert(lm1.contains_key(id));
        assert(!dropped.to_set().contains(id));
        assert(lm1.remove_keys(dropped.to_set()).contains_key(id));
        assert(optimized.contains_key(id));
        assert(!rejected.to_set().contains(id));
    }
}

/// What writing back a bundle adjustment does: each keyframe but the first
/// takes its optimized pose when there is one, the optimized positions
/// replace those of known landmarks, and nothing else changes.
pub open spec fn bundle_adjustment_applied<P, O, L>(
    old: EstimatorCore<P, O, L>,
    new: EstimatorCore<P, O, L>,
    poses: Seq<Option<P>>,
    updates: Seq<(usize, L)>,
) -> bool {
    &&& new.keyframe_window@.max_size == old.keyframe_window@.max_size
    &&& new.keyframe_window@.frames.len() == old.keyframe_window@.frames.len()
    &&& forall|k: int|
        0 <= k < old.keyframe_window@.frames.len() ==> #[trigger] new.keyframe_window@.frames[k]
            == (FrameView {
            pose: optimized_pose(old.keyframe_window@.frames[k].pose, poses, k),
            ..old.keyframe_window@.frames[k]
        })
    &&& new.landmarks@ == spec_apply_landmark_updates(old.landmarks@, updates)
    &&& new.landmarks@.dom() == old.landmarks@.dom()
    &&& new.frame_id_counter == old.frame_id_counter
    &&& new.frames_since_last_keyframe == old.frames_since_last_keyframe
    &&& new.max_frames_between_keyframes == old.max_frames_between_keyframes
    &&& new.tracker == old.tracker
    &&& new.keyframe_trajectory@ == old.keyframe_trajectory@
    &&& new.current_t_w_cam0 == old.current_t_w_cam0
    &&& new.removed_good_landmarks@ == old.removed_good_landmarks@
    &&& new.new_keyframe_added == old.new_keyframe_added
}

/// The pending view whose keyframe is `f`.
pub open spec fn fv_pending<P, O>(f: FrameView<P, O>) -> PendingView<O> {
    PendingView { bad_points: Seq::empty(), cam0: f.cam0, cam1: f.cam1, new_point_ids: f.new_point_ids }
}

/// Adding a keyframe keeps owned every landmark that was owned or pending
/// and that the window did not drop, and keeps the window within capacity.
proof fn lemma_window_keeps_landmarks<P, O, L>(
    w: WindowView<P, O>,
    f: FrameView<P, O>,
    before: Map<usize, L>,
    after: Map<usize, L>,
)
    requires
        landmarks_owned(before, w.frames, f.new_point_ids),
        within_capacity(w),
        match spec_add_keyframe(w, f).1 {
            Some((_, dropped)) => after == before.remove_keys(dropped.to_set()),
            None => after == before,
        },
    ensures
        landmarks_owned(after, spec_add_keyframe(w, f).0.frames, Seq::empty()),
        within_capacity(spec_add_keyframe(w, f).0),
{
    let (w2, marg) = spec_add_keyframe(w, f);
    let dropped = match marg {
        Some((_, d)) => d,
        None => Seq::empty(),
    };
    lemma_add_keyframe_conserves_landmarks(w, f);
    if w.max_size > 0 {
        crate::window_laws::lemma_add_keyframe_respects_capacity(w, f);
    }
    assert forall|x: usize| #[trigger] after.contains_key(x) implies owned_point_ids(
        w2.frames,
    ).contains(x) || Seq::<usize>::empty().contains(x) by {
        assert(before.contains_key(x));
        assert(!dropped.to_set().contains(x));
        assert(!dropped.contains(x));
        assert(dropped.to_multiset().count(x) == 0);
        assert(owned_point_ids(w.frames).contains(x) || f.new_point_ids.contains(x));
        assert(owned_point_ids(w.frames).to_multiset().count(x) > 0
            || f.new_point_ids.to_multiset().count(x) > 0);
        assert(owned_point_ids(w2.frames).to_multiset().add(dropped.to_multiset()).count(x)
            == owned_point_ids(w.frames).to_multiset().add(f.new_point_ids.to_multiset()).count(x));
        assert(owned_point_ids(w2.frames).to_multiset().count(x) > 0);
    }
}

/// Adding a keyframe keeps owned the landmarks that are all new points of
/// the added keyframe, and keeps the window within capacity.
proof fn lemma_window_keeps_new_points<P, O, L>(
    w: WindowView<P, O>,
    f: FrameView<P, O>,
    lm: Map<usize, L>,
)
    requires
        within_capacity(w),
        forall|id: usize| #[trigger] lm.contains_key(id) ==> f.new_point_ids.contains(id),
    ensures
        landmarks_owned(lm, spec_add_keyframe(w, f).0.frames, Seq::empty()),
        within_capacity(spec_add_keyframe(w, f).0),
{
    let (w2, marg) = spec_add_keyframe(w, f);
    let dropped = match marg {
        Some((_, d)) => d,
        None => Seq::empty(),
    };
    lemma_add_keyframe_conserves_landmarks(w, f);
    if marg is Some {
        crate::window_laws::lemma_dropped_landmarks_were_owned(w, f);
    }
    if w.max_size > 0 {
        crate::window_laws::lemma_add_keyframe_respects_capacity(w, f);
    }
    assert forall|x: usize| #[trigger] lm.contains_key(x) implies owned_point_ids(
        w2.frames,
    ).contains(x) || Seq::<usize>::empty().contains(x) by {
        assert(f.new_point_ids.to_multiset().count(x) > 0);
        assert(dropped.to_multiset().count(x) <= owned_point_ids(w.frames).to_multiset().count(x));
        assert(owned_point_ids(w2.frames).to_multiset().add(dropped.to_multiset()).count(x)
            == owned_point_ids(w.frames).to_multiset().add(f.new_point_ids.to_multiset()).count(x));
        assert(owned_point_ids(w2.frames).to_multiset().count(x) > 0);
    }
}

} // verus!
