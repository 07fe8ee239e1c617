//! Event extraction for a seven-pixel segmented detector: the waveforms of an
//! acquisition are turned into timestamped events, the events are cleaned up,
//! and spectra are made of them.
//!
//! The stages, in the order in which a point passes them:
//!
//! * [`preprocess`] brings the frames of a point into the order of their
//!   trigger times, estimates the baselines and finds the gaps of the
//!   acquisition;
//! * [`process`] extracts the events of each frame with one of five
//!   algorithms;
//! * [`postprocess`] joins close frames, merges the events of neighbouring
//!   pixels and cuts out what is not wanted;
//! * [`histogram`] and [`utils`] count the amplitudes of the events.
//!
//! Every real quantity (amplitudes, baselines, voltages, the edges of a
//! histogram) is held as a whole number of millionths, see [`fixed`]. The
//! contracts speak of mathematical sequences; [`types`] gives the views.

pub mod constants;
pub mod fixed;
pub mod histogram;
pub mod natural;
pub mod postprocess;
pub mod preprocess;
pub mod process;
pub mod sorted;
pub mod storage;
pub mod types;
pub mod utils;
pub mod viewer;
pub mod web;
