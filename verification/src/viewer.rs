//! The state of a viewer.

use std::ops::Range;
use std::path::PathBuf;
use std::time::SystemTime;

use vstd::prelude::*;

use crate::histogram::{HistogramParams, PointHistogram};
use crate::postprocess::PostProcessParams;
use crate::preprocess::Preprocess;
use crate::process::{Algorithm, ProcessParams};

verus! {

/// What a viewer does with the points it shows.
#[derive(PartialEq, Clone, Debug)]
pub struct ViewerState {
    pub process: ProcessParams,
    pub post_process: PostProcessParams,
    pub histogram: HistogramParams,
    pub changed: bool,
}

impl Default for ViewerState {
    fn default() -> (s: Self)
        ensures
            s.process.algorithm == Algorithm::trapezoid_default_spec(),
            s.process.convert_to_kev,
            s.post_process.cut_bad_blocks,
            s.post_process.merge_frames.is_none(),
            !s.post_process.merge_splits_first,
            s.post_process.merge_close_events,
            !s.post_process.ignore_borders,
            s.post_process.ignore_channels.is_clear(),
            s.histogram.range.start == 0,
            s.histogram.range.end == 40_000_000,
            s.histogram.bins == 400,
            !s.changed,
    {
        ViewerState {
            process: ProcessParams {
                algorithm: Algorithm::trapezoid_default(),
                convert_to_kev: true,
            },
            post_process: PostProcessParams::default(),
            histogram: HistogramParams { range: 0..40_000_000, bins: 400 },
            changed: false,
        }
    }
}

/// What is to be written for another program.
#[derive(Debug)]
pub struct ToROOTOptions {
    pub filepath: PathBuf,
    pub process: ProcessParams,
    pub postprocess: PostProcessParams,
}

/// What a viewer shows.
#[derive(Debug)]
pub enum ViewerMode {
    /// The events with amplitudes in `range`, in millionths.
    FilteredEvents {
        filepath: PathBuf,
        range: Range<i64>,
        process: ProcessParams,
        postprocess: PostProcessParams,
    },
    Waveforms { filepath: PathBuf },
    Bundles { filepath: PathBuf, process: ProcessParams, postprocess: PostProcessParams },
    Triggers { filepath: PathBuf },
}

/// What a viewer knows of a point.
#[derive(Debug)]
pub struct PointState {
    pub opened: bool,
    pub modified: Option<SystemTime>,
    pub histogram: Option<PointHistogram>,
    pub preprocess: Option<Preprocess>,
    pub counts: Option<usize>,
}

impl PointState {
    /// A point of which nothing is known.
    pub fn empty() -> (p: Self)
        ensures
            !p.opened,
            p.modified.is_none(),
            p.histogram.is_none(),
            p.preprocess.is_none(),
            p.counts.is_none(),
    {
        PointState { opened: false, histogram: None, preprocess: None, counts: None, modified: None }
    }
}

} // verus!
