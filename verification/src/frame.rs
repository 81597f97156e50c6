use std::collections::HashMap;
use vstd::prelude::*;

verus! {

/// The abstract content of a keyframe.
pub struct FrameView<P, O> {
    /// Pose of the left camera (world to camera).
    pub pose: P,
    /// Left-camera observations, keyed by feature id.
    pub cam0: Map<usize, O>,
    /// Right-camera observations, keyed by feature id.
    pub cam1: Map<usize, O>,
    /// Ids of the landmarks this keyframe owns.
    pub new_point_ids: Seq<usize>,
}

/// A keyframe: the left-camera pose, the undistorted observations of the
/// tracked features in both cameras, and the landmarks first created in it.
pub struct Frame<P, O> {
    pub t_cam0_w: P,
    /// undistorted pixel coordinates of observed features, keyed by feature ID
    pub cam0_observations: HashMap<usize, O>,
    /// undistorted pixel coordinates of observed features in the right camera, keyed by feature ID
    pub cam1_observations: HashMap<usize, O>,
    /// ids of the landmarks triangulated when this keyframe was added
    pub new_point_ids: Vec<usize>,
}

impl<P, O> View for Frame<P, O> {
    type V = FrameView<P, O>;

    open spec fn view(&self) -> FrameView<P, O> {
        FrameView {
            pose: self.t_cam0_w,
            cam0: self.cam0_observations@,
            cam1: self.cam1_observations@,
            new_point_ids: self.new_point_ids@,
        }
    }
}

impl<P, O> Frame<P, O> {
    /// Builds a keyframe from its parts.
    pub fn new(
        t_cam0_w: P,
        cam0_observations: HashMap<usize, O>,
        cam1_observations: HashMap<usize, O>,
        new_point_ids: Vec<usize>,
    ) -> (frame: Self)
        ensures
            frame@ == (FrameView {
                pose: t_cam0_w,
                cam0: cam0_observations@,
                cam1: cam1_observations@,
                new_point_ids: new_point_ids@,
            }),
    {
        Frame { t_cam0_w, cam0_observations, cam1_observations, new_point_ids }
    }
}

} // verus!
