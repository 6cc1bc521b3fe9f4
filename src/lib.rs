//! Scene-parallel processing of a stream of video frames: frames are cut
//! into scenes of a fixed number of frames, each scene goes round-robin to
//! one of several workers, and the workers' outputs are put back together
//! strictly in scene order.
//!
//! - `boundary`: the control event that announces a scene boundary.
//! - `detector`: the segmenter, which announces a boundary every
//!   `gop_size` frames.
//! - `selector`: the dispatcher, which sends each scene to a worker.
//! - `collector`: the reassembler, which emits scenes in index order.
//! - `stage`: the worker slots of the whole stage, and their wiring.

pub mod boundary;
pub mod collector;
pub mod detector;
pub mod selector;
pub mod stage;
