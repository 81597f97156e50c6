//! Bookkeeping core of a small stereo visual odometry pipeline: keyframes,
//! the sliding window that marginalizes them, the landmark map and the
//! decisions taken while a stereo frame is processed.

pub mod frame;
pub mod keyframe_sliding_window;
pub mod window_laws;
pub mod camera_model;
pub mod estimator;
pub mod estimator2;
pub mod frame_step;
pub mod optimization;
