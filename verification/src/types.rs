//! Data carried between the stages.

use vstd::prelude::*;

use crate::fixed::SCALE;
use crate::sorted::ascending;

verus! {

/// Sampling period of the ADC in nanoseconds.
pub const SAMPLE_NS: u16 = 8;

/// Longest waveform whose last sample still has a 16-bit offset in
/// nanoseconds.
pub const MAX_SAMPLES: usize = 8191;

/// Number of detector pixels.
pub const CHANNELS: usize = 7;

/// What was found at one place of a frame.
#[derive(Clone, Copy, Debug, PartialEq, Eq)]
pub enum FrameEvent {
    /// A reconstructed physics event; `amplitude` is in millionths.
    Event { channel: u8, amplitude: i64, size: u16 },
    /// The ADC of `channel` saturated for `size` samples.
    Overflow { channel: u8, size: u16 },
    /// A preamplifier discharge of `size` samples.
    Reset { size: u16 },
    /// An annotation of the whole frame.
    Frame { size: u16 },
}

/// An event with its distance from the frame start in nanoseconds.
pub type NumassEvent = (u16, FrameEvent);

/// Events of a point: frame start time in nanoseconds, ascending, with the
/// events of that frame.
pub type NumassEvents = Vec<(u64, Vec<NumassEvent>)>;

/// Waveforms of one frame by channel, channels ascending.
pub type NumassFrame = Vec<(u8, Vec<i16>)>;

/// Frames of a point by corrected start time, ascending.
pub type NumassWaveforms = Vec<(u64, NumassFrame)>;

/// A frame whose waveforms are borrowed.
pub type NumassFrameFast<'a> = Vec<(u8, &'a [i16])>;

/// Frames of a point with borrowed waveforms.
pub type NumassWaveformsFast<'a> = Vec<(u64, NumassFrameFast<'a>)>;

/// Samples as they come from the ADC.
#[derive(Debug, Clone)]
pub struct RawWaveform(pub Vec<i16>);

/// Samples after shaping, in millionths.
#[derive(Debug, Clone)]
pub struct ProcessedWaveform(pub Vec<i64>);

impl FrameEvent {
    /// Number of the variant. Two events are told apart for hashing by this
    /// number alone.
    pub open spec fn tag_spec(self) -> u8 {
        match self {
            FrameEvent::Event { .. } => 0,
            FrameEvent::Overflow { .. } => 1,
            FrameEvent::Reset { .. } => 2,
            FrameEvent::Frame { .. } => 3,
        }
    }

    #[verifier::when_used_as_spec(tag_spec)]
    pub fn tag(self) -> (t: u8)
        ensures
            t == self.tag_spec(),
    {
        match self {
            FrameEvent::Event { .. } => 0,
            FrameEvent::Overflow { .. } => 1,
            FrameEvent::Reset { .. } => 2,
            FrameEvent::Frame { .. } => 3,
        }
    }
}

/// Channels strictly ascending and no waveform longer than [`MAX_SAMPLES`].
pub open spec fn frame_wf(frame: Seq<(u8, Vec<i16>)>) -> bool {
    &&& ascending(frame)
    &&& forall|k: int| 0 <= k < frame.len() ==> (#[trigger] frame[k]).1@.len() <= MAX_SAMPLES
}

/// A frame as a mathematical sequence of channels with their samples.
pub open spec fn frame_model(frame: Seq<(u8, Vec<i16>)>) -> Seq<(u8, Seq<i16>)> {
    Seq::new(frame.len(), |k: int| (frame[k].0, frame[k].1@))
}

/// The frames of a point as mathematical sequences.
pub open spec fn waveforms_model(w: Seq<(u64, NumassFrame)>) -> Seq<(u64, Seq<(u8, Seq<i16>)>)> {
    Seq::new(w.len(), |k: int| (w[k].0, frame_model(w[k].1@)))
}

/// The events of a point as mathematical sequences.
pub open spec fn frames_view(v: Seq<(u64, Vec<NumassEvent>)>) -> Seq<(u64, Seq<NumassEvent>)> {
    Seq::new(v.len(), |i: int| (v[i].0, v[i].1@))
}

/// Frame start times strictly ascend.
pub open spec fn times_ascend(frames: Seq<(u64, Seq<NumassEvent>)>) -> bool {
    ascending(frames)
}

/// One triggered waveform as it is stored: the trigger time in nanoseconds
/// and the samples, two bytes each, low byte first.
#[derive(Debug, Clone)]
pub struct Frame {
    pub time: u64,
    pub data: Vec<u8>,
}

/// The frames of one block of the acquisition.
#[derive(Debug, Clone)]
pub struct Block {
    pub frames: Vec<Frame>,
}

/// The blocks of one channel.
#[derive(Debug, Clone)]
pub struct Channel {
    pub id: u64,
    pub blocks: Vec<Block>,
}

/// A point as it is stored: channels, their blocks, and the frames of each
/// block.
#[derive(Debug, Clone)]
pub struct Point {
    pub channels: Vec<Channel>,
}

/// Decides [`frame_wf`].
pub fn frame_is_valid(frame: &NumassFrame) -> (ok: bool)
    ensures
        ok == frame_wf(frame@),
{
    let mut k: usize = 0;
    while k < frame.len()
        invariant
            k <= frame.len(),
            forall|a: int, b: int| 0 <= a < b < k ==> frame@[a].0 < frame@[b].0,
            forall|a: int| 0 <= a < k ==> (#[trigger] frame@[a]).1@.len() <= MAX_SAMPLES,
        decreases frame.len() - k,
    {
        if frame[k].1.len() > MAX_SAMPLES {
            return false;
        }
        if k > 0 && frame[k - 1].0 >= frame[k].0 {
            return false;
        }
        k += 1;
    }
    true
}

impl ProcessedWaveform {
    /// The raw samples at the fixed-point scale.
    pub fn from_raw(data: &RawWaveform) -> (out: Self)
        ensures
            out.0@.len() == data.0@.len(),
            forall|j: int| 0 <= j < data.0@.len() ==> out.0@[j] == data.0@[j] as int * SCALE,
    {
        let mut v: Vec<i64> = Vec::new();
        let mut i: usize = 0;
        while i < data.0.len()
            invariant
                i <= data.0.len(),
                v@.len() == i,
                forall|j: int| 0 <= j < i ==> v@[j] == data.0@[j] as int * SCALE,
            decreases data.0.len() - i,
        {
            v.push(data.0[i] as i64 * SCALE);
            i += 1;
        }
        ProcessedWaveform(v)
    }
}

/// `Hasher::write_u8` of std: feeds one byte to the hasher. Nothing is
/// claimed of the hasher afterwards.
#[verifier::external_body]
fn write_byte<H: std::hash::Hasher>(state: &mut H, byte: u8) {
    state.write_u8(byte)
}

impl std::hash::Hash for FrameEvent {
    /// Only the number of the variant enters the hash of a record.
    fn hash<H: std::hash::Hasher>(&self, state: &mut H) {
        write_byte(state, self.tag())
    }
}

} // verus!
