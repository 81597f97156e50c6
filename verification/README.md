# toy_vo

A very simple stereo visual odometry library. The bookkeeping at its core is
written in Verus and verified: the keyframes, the sliding window that
marginalizes them, the landmark map, the decisions taken while a stereo frame
is processed, the structure of the local bundle adjustment and the choice of a
camera model by name.

## Layout

- `src/frame.rs`: a keyframe (pose, observations in both images, the
  landmarks first created in it).
- `src/keyframe_sliding_window.rs`: the fixed-size window of keyframes and
  the marginalization of the oldest one.
- `src/window_laws.rs`: properties of the window that hold across calls
  (capacity, what is marginalized, conservation of landmarks).
- `src/estimator.rs`: `EstimatorCore`, the state of an estimator and every
  decision of a frame: which points become landmarks, when a keyframe is due,
  what the window drops, which features the tracker stops following.
- `src/frame_step.rs`: a whole stereo frame: `plan_frame` names what the
  frame needs computed, `process_frame` takes every decision of the frame
  from the computed outcomes, and `finish_keyframe` closes a frame that added
  a keyframe once its bundle adjustment is written back.
- `src/estimator2.rs`: settings of the estimator with fixed thresholds.
- `src/optimization.rs`: which observations and landmarks take part in the
  bundle adjustment, and how its solution is written back.
- `src/camera_model.rs`: camera model names and their parameter counts.
- `app/`: floating-point geometry (unprojection, epipolar check,
  triangulation, PnP), the nonlinear solver, the estimators built on
  `EstimatorCore`, and the Python bindings.

Poses, observations and landmark positions are type parameters of the
verified code; `app/` instantiates them with nalgebra types.
