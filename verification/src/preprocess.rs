//! Per-point preparation: the trapezoidal shaper, waveform decoding, the
//! baseline estimate and the search for acquisition gaps.

use std::collections::BTreeSet;

use chrono::NaiveDateTime;
use vstd::prelude::*;

use crate::fixed::{div_floor, SCALE};
use crate::histogram::{counts_or_zeros, Binning, PointHistogram};
use crate::sorted::{
    ascending, get, lemma_inserted, lemma_lower, lemma_position, lemma_same_keys, moved, position,
    put,
};
use crate::process::Algorithm;
use crate::types::{
    frame_model, frame_wf, waveforms_model, Block, Channel, Frame, NumassFrame, NumassWaveforms,
    NumassWaveformsFast, Point, RawWaveform, MAX_SAMPLES,
};
use crate::utils::{correct_frame_time, corrected_time};

verus! {

/// Length in nanoseconds of a block that is cut out when a gap is found in
/// it.
pub const CUTOFF_BIN_SIZE: u64 = 1_000_000_000;

/// Length in nanoseconds of the intervals that are searched for gaps.
pub const CHECK_BIN_SIZE: u64 = 10_000_000;

/// Voltage in millionths of a volt above which a point is not searched for
/// gaps.
pub const CHECK_HV_THRESHOLD: i64 = 16_000_000_000;

/// A calendar date and time of day as `chrono` holds it. The library only
/// carries such a value from the metadata to the result.
#[verifier::external_type_specification]
#[verifier::external_body]
pub struct ExNaiveDateTime(chrono::NaiveDateTime);

/// `NaiveDateTime::clone`: the type is `Copy`, and the clone that `chrono`
/// derives for it is the value itself.
pub assume_specification[ <chrono::NaiveDateTime as Clone>::clone ](t: &NaiveDateTime) -> (r:
    NaiveDateTime)
    ensures
        r == *t,
;

/// What is known of a point before its frames are processed.
#[derive(Clone, Debug)]
pub struct Preprocess {
    /// Baseline of the shaped trace of each channel, in millionths; present
    /// for the trapezoid algorithm only.
    pub baseline: Option<[i64; 7]>,
    /// Voltage of the point in millionths of a volt.
    pub hv: i64,
    /// When the acquisition began.
    pub start_time: NaiveDateTime,
    /// Length of the acquisition in nanoseconds.
    pub acquisition_time: u64,
    /// Length of one frame in nanoseconds.
    pub frame_len: u64,
    /// Numbers of the blocks of [`CUTOFF_BIN_SIZE`] that hold a gap.
    pub bad_blocks: BTreeSet<usize>,
}

/// Sum of the samples `w[lo..hi]`.
pub open spec fn range_sum(w: Seq<i16>, lo: int, hi: int) -> int
    decreases hi - lo,
{
    if hi <= lo {
        0
    } else {
        range_sum(w, lo, hi - 1) + w[hi - 1]
    }
}

/// A sum of `hi - lo` samples is at most `hi - lo` times the largest sample.
pub proof fn lemma_range_sum_bound(w: Seq<i16>, lo: int, hi: int)
    requires
        0 <= lo <= hi <= w.len(),
    ensures
        -32768 * (hi - lo) <= range_sum(w, lo, hi) <= 32767 * (hi - lo),
    decreases hi - lo,
{
    if hi > lo {
        lemma_range_sum_bound(w, lo, hi - 1);
    }
}

/// Number of shaped samples that a waveform of `len` samples gives: one for
/// each place where the whole window of `left + center + right` samples
/// fits; none for a window without samples.
pub open spec fn shaped_len(len: int, left: int, center: int, right: int) -> int {
    if 1 <= left + center + right <= len {
        len - (left + center + right) + 1
    } else {
        0
    }
}

/// The number by which the sum of an arm is divided for its mean: the
/// length of the arm, and one for an arm without samples, whose sum and
/// mean are zero.
pub open spec fn arm(length: int) -> int {
    if length > 0 {
        length
    } else {
        1
    }
}

/// Shaped sample `i` in millionths: the mean of the right arm of the window
/// that starts at `i`, less the mean of its left arm, rounded down. The mean
/// of an arm without samples is zero.
pub open spec fn shaped_at(w: Seq<i16>, left: int, center: int, right: int, i: int) -> int {
    ((range_sum(w, i + left + center, i + left + center + right) * arm(left) - range_sum(
        w,
        i,
        i + left,
    ) * arm(right)) * SCALE) / (arm(left) * arm(right))
}

/// The shaped trace of a waveform.
pub open spec fn shaped(w: Seq<i16>, left: int, center: int, right: int) -> Seq<i64> {
    Seq::new(
        shaped_len(w.len() as int, left, center, right) as nat,
        |i: int| shaped_at(w, left, center, right, i) as i64,
    )
}

/// A shaped sample lies between the differences of the extreme ADC codes.
pub proof fn lemma_shaped_bound(w: Seq<i16>, left: int, center: int, right: int, i: int)
    requires
        0 <= i < shaped_len(w.len() as int, left, center, right),
        left >= 0,
        center >= 0,
        right >= 0,
    ensures
        -65536 * SCALE <= shaped_at(w, left, center, right, i) <= 65536 * SCALE,
{
    let sr = range_sum(w, i + left + center, i + left + center + right);
    let sl = range_sum(w, i, i + left);
    lemma_range_sum_bound(w, i + left + center, i + left + center + right);
    lemma_range_sum_bound(w, i, i + left);
    let l = arm(left);
    let r = arm(right);
    let d = l * r;
    let x = sr * l - sl * r;
    assert(d > 0) by (nonlinear_arith)
        requires
            l > 0,
            r > 0,
            d == l * r,
    ;
    assert(-65536 * d <= x <= 65536 * d) by (nonlinear_arith)
        requires
            -32768 * r <= sr <= 32767 * r,
            -32768 * l <= sl <= 32767 * l,
            l > 0,
            r > 0,
            d == l * r,
            x == sr * l - sl * r,
    ;
    lemma_scaled_quotient_bound(x, d, 65536);
}

/// If `|x| <= b * d` then `|x * SCALE / d| <= b * SCALE`.
pub proof fn lemma_scaled_quotient_bound(x: int, d: int, b: int)
    requires
        d > 0,
        -b * d <= x <= b * d,
    ensures
        -b * SCALE <= (x * SCALE) / d <= b * SCALE,
{
    let hi = b * SCALE;
    vstd::arithmetic::div_mod::lemma_div_multiples_vanish(hi, d);
    vstd::arithmetic::div_mod::lemma_div_multiples_vanish(-hi, d);
    vstd::arithmetic::mul::lemma_mul_is_commutative(hi, d);
    vstd::arithmetic::mul::lemma_mul_is_commutative(-hi, d);
    assert((hi * d) / d == hi);
    assert(((-hi) * d) / d == -hi);
    assert(x * SCALE <= hi * d && (-hi) * d <= x * SCALE) by (nonlinear_arith)
        requires
            -b * d <= x <= b * d,
            hi == b * SCALE,
    ;
    vstd::arithmetic::div_mod::lemma_div_is_ordered(x * SCALE, hi * d, d);
    vstd::arithmetic::div_mod::lemma_div_is_ordered((-hi) * d, x * SCALE, d);
}

/// Sum of `w[lo..hi]`.
fn window_sum(w: &[i16], lo: usize, hi: usize) -> (s: i64)
    requires
        lo <= hi <= w@.len(),
        w@.len() <= u32::MAX,
    ensures
        s == range_sum(w@, lo as int, hi as int),
{
    let mut s: i64 = 0;
    let mut j: usize = lo;
    while j < hi
        invariant
            lo <= j <= hi <= w@.len(),
            w@.len() <= u32::MAX,
            s == range_sum(w@, lo as int, j as int),
            -32768 * (j - lo) <= s <= 32767 * (j - lo),
        decreases hi - j,
    {
        s = s + w[j] as i64;
        j += 1;
    }
    s
}

/// Trapezoidal shaper: for every place `i` where a window of
/// `left + center + right` samples fits, the mean of its last `right` samples
/// less the mean of its first `left` samples, in millionths. No baseline is
/// taken off. The mean of an arm without samples is zero.
pub fn emulate_fir(waveform: &[i16], right: usize, center: usize, left: usize) -> (out: Vec<i64>)
    requires
        waveform@.len() <= u32::MAX,
    ensures
        out@ == shaped(waveform@, left as int, center as int, right as int),
{
    let mut out: Vec<i64> = Vec::new();
    let len = waveform.len();
    if left > len || center > len - left || right > len - left - center {
        return out;
    }
    if left + center + right == 0 {
        return out;
    }
    let by_left: usize = if left > 0 {
        left
    } else {
        1
    };
    let by_right: usize = if right > 0 {
        right
    } else {
        1
    };
    let offset = left + center + right;
    let n = len - offset + 1;
    let ghost target = shaped(waveform@, left as int, center as int, right as int);
    let mut i: usize = 0;
    while i < n
        invariant
            i <= n,
            n == len - offset + 1,
            offset == left + center + right,
            len == waveform@.len(),
            1 <= offset <= len <= u32::MAX,
            by_left == arm(left as int),
            by_right == arm(right as int),
            target == shaped(waveform@, left as int, center as int, right as int),
            target.len() == n,
            out@ == target.take(i as int),
        decreases n - i,
    {
        let sl = window_sum(waveform, i, i + left);
        let sr = window_sum(waveform, i + left + center, i + offset);
        proof {
            lemma_range_sum_bound(waveform@, i as int, i + left);
            lemma_range_sum_bound(waveform@, i + left + center, i + offset);
            lemma_shaped_bound(waveform@, left as int, center as int, right as int, i as int);
            assert(-32768 * 0x1_0000_0000 * 0x1_0000_0000 <= sr * by_left <= 32768 * 0x1_0000_0000
                * 0x1_0000_0000) by (nonlinear_arith)
                requires
                    -32768 * by_right <= sr <= 32767 * by_right,
                    0 < by_right <= 0xffff_ffff,
                    0 < by_left <= 0xffff_ffff,
            ;
            assert(-32768 * 0x1_0000_0000 * 0x1_0000_0000 <= sl * by_right <= 32768 * 0x1_0000_0000
                * 0x1_0000_0000) by (nonlinear_arith)
                requires
                    -32768 * by_left <= sl <= 32767 * by_left,
                    0 < by_right <= 0xffff_ffff,
                    0 < by_left <= 0xffff_ffff,
            ;
            assert(0 < by_left * by_right <= 0x1_0000_0000 * 0x1_0000_0000) by (nonlinear_arith)
                requires
                    0 < by_right <= 0xffff_ffff,
                    0 < by_left <= 0xffff_ffff,
            ;
        }
        let x: i128 = sr as i128 * by_left as i128 - sl as i128 * by_right as i128;
        let v = div_floor(x * SCALE as i128, by_left as i128 * by_right as i128);
        out.push(v as i64);
        proof {
            assert(out@ =~= target.take(i + 1));
        }
        i += 1;
    }
    proof {
        assert(out@ =~= target);
    }
    out
}

// ---------------------------------------------------------------------------
// Waveforms of a point
// ---------------------------------------------------------------------------

/// Why a point cannot be processed.
#[derive(Clone, Copy, Debug, PartialEq, Eq)]
pub enum PointError {
    /// The point has no metadata.
    MissingMeta,
    /// The first channel, its first block or the first frame of that block
    /// is missing.
    NoFrames,
    /// A frame belongs to a channel above 6.
    ChannelOutOfRange,
    /// The data of a frame is an odd number of bytes.
    OddLength,
    /// A frame holds more than [`MAX_SAMPLES`] samples.
    FrameTooLong,
}

/// What the acquisition says of a point.
#[derive(Debug, Clone)]
pub struct PointMeta {
    /// Length of the acquisition in nanoseconds.
    pub acquisition_time: u64,
    /// When the acquisition began.
    pub start_time: NaiveDateTime,
    /// Voltage of the point in millionths of a volt.
    pub hv: i64,
}

/// The sample that two bytes hold, low byte first.
pub open spec fn le_sample(lo: u8, hi: u8) -> i16 {
    if lo + 256 * hi >= 32768 {
        (lo + 256 * hi - 65536) as i16
    } else {
        (lo + 256 * hi) as i16
    }
}

/// The samples that the bytes of a frame hold.
pub open spec fn decoded(data: Seq<u8>) -> Seq<i16> {
    Seq::new((data.len() / 2) as nat, |i: int| le_sample(data[2 * i], data[2 * i + 1]))
}

/// The samples that bytes hold, two bytes each, low byte first; a last
/// single byte is left out.
fn decode(data: &Vec<u8>) -> (w: Vec<i16>)
    ensures
        w@ == decoded(data@),
{
    let n = data.len();
    let mut w: Vec<i16> = Vec::new();
    let mut i: usize = 0;
    while i < n / 2
        invariant
            i <= n / 2,
            n == data@.len(),
            w@ == decoded(data@).take(i as int),
        decreases n / 2 - i,
    {
        let lo = data[2 * i];
        let hi = data[2 * i + 1];
        let v: i32 = lo as i32 + 256 * (hi as i32);
        let sample: i16 = if v >= 32768 {
            (v - 65536) as i16
        } else {
            v as i16
        };
        w.push(sample);
        proof {
            assert(w@ =~= decoded(data@).take(i + 1));
        }
        i += 1;
    }
    proof {
        assert(decoded(data@).take((n / 2) as int) =~= decoded(data@));
    }
    w
}

/// The samples of a frame. The bytes are taken two by two, low byte first.
/// A frame with an odd number of bytes is refused.
pub fn frame_to_waveform(frame: &Frame) -> (r: Result<Vec<i16>, PointError>)
    ensures
        match r {
            Ok(w) => frame.data@.len() % 2 == 0 && w@ == decoded(frame.data@),
            Err(e) => frame.data@.len() % 2 == 1 && e == PointError::OddLength,
        },
{
    if frame.data.len() % 2 != 0 {
        return Err(PointError::OddLength);
    }
    Ok(decode(&frame.data))
}

impl RawWaveform {
    /// The samples of a frame for display: as [`frame_to_waveform`] gives
    /// them, but a last single byte is left out and not refused.
    pub fn from_frame(frame: &Frame) -> (w: Self)
        ensures
            w.0@ == decoded(frame.data@),
    {
        RawWaveform(decode(&frame.data))
    }
}

/// A frame as it is met when a point is walked through: the number of its
/// channel, its trigger time and its bytes.
pub type Met = (u64, u64, Seq<u8>);

/// The frames of a block in their order.
pub open spec fn block_frames(id: u64, block: Block) -> Seq<Met> {
    Seq::new(block.frames@.len(), |f: int| (id, block.frames@[f].time, block.frames@[f].data@))
}

/// The frames of the first `b` blocks of a channel.
pub open spec fn channel_frames(channel: Channel, b: int) -> Seq<Met>
    decreases b,
{
    if b <= 0 {
        Seq::empty()
    } else {
        channel_frames(channel, b - 1) + block_frames(channel.id, channel.blocks@[b - 1])
    }
}

/// The frames of the first `c` channels of a point.
pub open spec fn point_frames_upto(point: Point, c: int) -> Seq<Met>
    decreases c,
{
    if c <= 0 {
        Seq::empty()
    } else {
        point_frames_upto(point, c - 1) + channel_frames(
            point.channels@[c - 1],
            point.channels@[c - 1].blocks@.len() as int,
        )
    }
}

/// All frames of a point in the order in which they are walked through:
/// channel by channel, block by block.
pub open spec fn point_frames(point: Point) -> Seq<Met> {
    point_frames_upto(point, point.channels@.len() as int)
}

/// What is wrong with a frame, if anything.
pub open spec fn frame_error(frame: Met) -> Option<PointError> {
    if frame.0 > 6 {
        Some(PointError::ChannelOutOfRange)
    } else if frame.2.len() % 2 == 1 {
        Some(PointError::OddLength)
    } else if frame.2.len() / 2 > MAX_SAMPLES {
        Some(PointError::FrameTooLong)
    } else {
        None
    }
}

/// The fault of the first faulty frame among the first `n`.
pub open spec fn first_error(frames: Seq<Met>, n: int) -> Option<PointError>
    decreases n,
{
    if n <= 0 {
        None
    } else {
        match first_error(frames, n - 1) {
            Some(e) => Some(e),
            None => frame_error(frames[n - 1]),
        }
    }
}

/// The samples of the last frame among the first `n` that belongs to
/// `channel` and begins, after correction, at `time`.
pub open spec fn last_waveform(frames: Seq<Met>, n: int, time: u64, channel: u8) -> Option<Seq<i16>>
    decreases n,
{
    if n <= 0 {
        None
    } else if frames[n - 1].0 == channel && corrected_time(frames[n - 1].1) == time {
        Some(decoded(frames[n - 1].2))
    } else {
        last_waveform(frames, n - 1, time, channel)
    }
}

/// What is found among the first `n` frames depends on these frames only.
pub proof fn lemma_prefix(a: Seq<Met>, b: Seq<Met>, n: int)
    requires
        0 <= n <= a.len(),
        n <= b.len(),
        forall|i: int| 0 <= i < n ==> a[i] == b[i],
    ensures
        first_error(a, n) == first_error(b, n),
        frames_by_time(a, n) == frames_by_time(b, n),
        forall|t: u64, c: u8| #[trigger] last_waveform(a, n, t, c) == last_waveform(b, n, t, c),
    decreases n,
{
    if n > 0 {
        lemma_prefix(a, b, n - 1);
        assert forall|t: u64, c: u8| #[trigger]
            last_waveform(a, n, t, c) == last_waveform(b, n, t, c) by {
            assert(last_waveform(a, n - 1, t, c) == last_waveform(b, n - 1, t, c));
        }
    }
}

/// `a` is the begin of `b`.
pub open spec fn is_prefix(a: Seq<Met>, b: Seq<Met>) -> bool {
    a.len() <= b.len() && forall|i: int| 0 <= i < a.len() ==> a[i] == b[i]
}

/// The frames of the first blocks of a channel are the begin of the frames
/// of more of its blocks.
pub proof fn lemma_channel_prefix(channel: Channel, b: int, b2: int)
    requires
        0 <= b <= b2,
    ensures
        is_prefix(channel_frames(channel, b), channel_frames(channel, b2)),
    decreases b2 - b,
{
    if b < b2 {
        lemma_channel_prefix(channel, b, b2 - 1);
    }
}

/// The frames of the first channels of a point are the begin of the frames
/// of more of its channels.
pub proof fn lemma_point_prefix(point: Point, c: int, c2: int)
    requires
        0 <= c <= c2,
    ensures
        is_prefix(point_frames_upto(point, c), point_frames_upto(point, c2)),
    decreases c2 - c,
{
    if c < c2 {
        lemma_point_prefix(point, c, c2 - 1);
    }
}

/// What has been walked through when frame `f` of block `b` of channel `c`
/// is reached is the begin of all frames of the point.
pub proof fn lemma_walk_prefix(point: Point, c: int, b: int, f: int)
    requires
        0 <= c < point.channels@.len(),
        0 <= b < point.channels@[c].blocks@.len(),
        0 <= f <= point.channels@[c].blocks@[b].frames@.len(),
    ensures
        is_prefix(
            point_frames_upto(point, c) + channel_frames(point.channels@[c], b) + block_frames(
                point.channels@[c].id,
                point.channels@[c].blocks@[b],
            ).take(f),
            point_frames(point),
        ),
{
    let channel = point.channels@[c];
    lemma_channel_prefix(channel, b + 1, channel.blocks@.len() as int);
    lemma_point_prefix(point, c + 1, point.channels@.len() as int);
    let walked = point_frames_upto(point, c) + channel_frames(channel, b) + block_frames(
        channel.id,
        channel.blocks@[b],
    ).take(f);
    let upto = point_frames_upto(point, c + 1);
    assert forall|i: int| 0 <= i < walked.len() implies walked[i] == point_frames(point)[i] by {
        assert(walked[i] == upto[i]);
    }
}

/// A fault among the first frames is the fault of the whole.
pub proof fn lemma_error_stays(frames: Seq<Met>, n: int, m: int)
    requires
        0 <= n <= m,
        first_error(frames, n).is_some(),
    ensures
        first_error(frames, m) == first_error(frames, n),
    decreases m - n,
{
    if n < m {
        lemma_error_stays(frames, n, m - 1);
    }
}

/// The frame that begins at `time`, without channels if there is none.
pub open spec fn frame_or_empty(m: Seq<(u64, Seq<(u8, Seq<i16>)>)>, time: u64) -> Seq<
    (u8, Seq<i16>),
> {
    match get(m, time) {
        Some(f) => f,
        None => Seq::empty(),
    }
}

/// The frames by time with one more waveform.
pub open spec fn with_waveform(
    m: Seq<(u64, Seq<(u8, Seq<i16>)>)>,
    time: u64,
    channel: u8,
    w: Seq<i16>,
) -> Seq<(u64, Seq<(u8, Seq<i16>)>)> {
    put(m, time, put(frame_or_empty(m, time), channel, w))
}

/// The first `n` frames of a walk through a point, by corrected trigger
/// time and channel: each frame in its turn is put under its time and
/// channel.
pub open spec fn frames_by_time(frames: Seq<Met>, n: int) -> Seq<(u64, Seq<(u8, Seq<i16>)>)>
    decreases n,
{
    if n <= 0 {
        Seq::empty()
    } else {
        with_waveform(
            frames_by_time(frames, n - 1),
            corrected_time(frames[n - 1].1),
            frames[n - 1].0 as u8,
            decoded(frames[n - 1].2),
        )
    }
}

/// The waveforms of a point by corrected trigger time and channel.
pub open spec fn point_model(point: Point) -> Seq<(u64, Seq<(u8, Seq<i16>)>)> {
    frames_by_time(point_frames(point), point_frames(point).len() as int)
}

/// Times ascend, and every frame is well formed.
pub open spec fn waveforms_wf(w: Seq<(u64, NumassFrame)>) -> bool {
    &&& ascending(w)
    &&& forall|k: int| 0 <= k < w.len() ==> frame_wf((#[trigger] w[k]).1@)
}

/// The waveform of a channel in the frame that begins at `time`.
pub open spec fn waveform_at(w: Seq<(u64, NumassFrame)>, time: u64, channel: u8) -> Option<
    Seq<i16>,
> {
    match position(w, time) {
        Some(k) => match position(w[k].1@, channel) {
            Some(j) => Some(w[k].1@[j].1@),
            None => None,
        },
        None => None,
    }
}

/// The waveform of a channel in a frame.
pub open spec fn channel_waveform(frame: Seq<(u8, Vec<i16>)>, channel: u8) -> Option<Seq<i16>> {
    match position(frame, channel) {
        Some(j) => Some(frame[j].1@),
        None => None,
    }
}

/// Puts a waveform into a frame, in place of the one that the channel had.
fn insert_channel(frame: &mut NumassFrame, channel: u8, w: Vec<i16>)
    requires
        frame_wf(old(frame)@),
        w@.len() <= MAX_SAMPLES,
    ensures
        frame_wf(final(frame)@),
        frame_model(final(frame)@) == put(frame_model(old(frame)@), channel, w@),
        forall|c: u8|
            #[trigger] channel_waveform(final(frame)@, c) == (if c == channel {
                Some(w@)
            } else {
                channel_waveform(old(frame)@, c)
            }),
{
    let mut j: usize = 0;
    while j < frame.len() && frame[j].0 < channel
        invariant
            j <= frame@.len(),
            frame@ == old(frame)@,
            forall|i: int| 0 <= i < j ==> (#[trigger] frame@[i]).0 < channel,
        decreases frame@.len() - j,
    {
        j += 1;
    }
    proof {
        let m = frame_model(frame@);
        assert forall|i: int| j <= i < m.len() implies (#[trigger] m[i]).0 >= channel by {
            if i > j {
                assert(frame@[j as int].0 < frame@[i].0);
            }
        }
        assert forall|i: int| 0 <= i < j implies (#[trigger] m[i]).0 < channel by {
            assert(frame@[i].0 < channel);
        }
        lemma_lower(m, channel, j as int);
    }
    if j < frame.len() && frame[j].0 == channel {
        frame.set(j, (channel, w));
        proof {
            assert(frame_model(frame@) =~= frame_model(old(frame)@).update(j as int, (channel, w@)));
            lemma_same_keys(old(frame)@, frame@);
            lemma_position(frame@, j as int);
            assert forall|c: u8| #[trigger]
                channel_waveform(frame@, c) == (if c == channel {
                    Some(w@)
                } else {
                    channel_waveform(old(frame)@, c)
                }) by {
                if c != channel {
                    if let Some(i) = position(old(frame)@, c) {
                        assert(i != j);
                    }
                }
            }
        }
    } else {
        proof {
            assert forall|i: int| j <= i < frame@.len() implies (#[trigger] frame@[i]).0
                > channel by {
                if i > j {
                    assert(frame@[j as int].0 < frame@[i].0);
                }
            }
        }
        frame.insert(j, (channel, w));
        proof {
            assert(frame_model(frame@) =~= frame_model(old(frame)@).insert(j as int, (channel, w@)));
            lemma_inserted(old(frame)@, frame@, j as int);
            assert forall|c: u8| #[trigger]
                channel_waveform(frame@, c) == (if c == channel {
                    Some(w@)
                } else {
                    channel_waveform(old(frame)@, c)
                }) by {
                if c != channel {
                    assert(position(frame@, c) == moved(position(old(frame)@, c), j as int));
                }
            }
            assert forall|k: int| 0 <= k < frame@.len() implies (#[trigger] frame@[k]).1@.len()
                <= MAX_SAMPLES by {
                if k < j {
                    assert(frame@[k] == old(frame)@[k]);
                } else if k > j {
                    assert(frame@[k] == old(frame)@[k - 1]);
                }
            }
        }
    }
}

/// Puts a waveform into the frame that begins at `time`, in place of the
/// one that the channel had there.
fn insert_waveform(acc: &mut NumassWaveforms, time: u64, channel: u8, w: Vec<i16>)
    requires
        waveforms_wf(old(acc)@),
        w@.len() <= MAX_SAMPLES,
    ensures
        waveforms_wf(final(acc)@),
        waveforms_model(final(acc)@) == with_waveform(waveforms_model(old(acc)@), time, channel, w@),
        forall|t: u64, c: u8|
            #[trigger] waveform_at(final(acc)@, t, c) == (if t == time && c == channel {
                Some(w@)
            } else {
                waveform_at(old(acc)@, t, c)
            }),
{
    let mut k: usize = 0;
    while k < acc.len() && acc[k].0 < time
        invariant
            k <= acc@.len(),
            acc@ == old(acc)@,
            forall|i: int| 0 <= i < k ==> (#[trigger] acc@[i]).0 < time,
        decreases acc@.len() - k,
    {
        k += 1;
    }
    let ghost m = waveforms_model(acc@);
    proof {
        assert forall|i: int| k <= i < m.len() implies (#[trigger] m[i]).0 >= time by {
            if i > k {
                assert(acc@[k as int].0 < acc@[i].0);
            }
        }
        assert forall|i: int| 0 <= i < k implies (#[trigger] m[i]).0 < time by {
            assert(acc@[i].0 < time);
        }
        lemma_lower(m, time, k as int);
        assert(ascending(m)) by {
            assert forall|i: int, j: int| 0 <= i < j < m.len() implies m[i].0 < m[j].0 by {
                assert(acc@[i].0 < acc@[j].0);
            }
        }
    }
    if k < acc.len() && acc[k].0 == time {
        proof {
            lemma_position(m, k as int);
        }
        let (t, mut frame) = acc.remove(k);
        let ghost before = frame@;
        insert_channel(&mut frame, channel, w);
        let ghost after = frame@;
        acc.insert(k, (t, frame));
        proof {
            assert(frame_or_empty(m, time) == frame_model(before));
            assert(waveforms_model(acc@) =~= m.update(k as int, (time, frame_model(after))));
            assert(acc@.len() == old(acc)@.len());
            assert forall|i: int| 0 <= i < acc@.len() implies (#[trigger] acc@[i]).0 == old(
                acc,
            )@[i].0 by {}
            lemma_same_keys(old(acc)@, acc@);
            lemma_position(acc@, k as int);
            lemma_position(old(acc)@, k as int);
            assert forall|i: int| 0 <= i < acc@.len() implies frame_wf((#[trigger] acc@[i]).1@) by {
                if i != k {
                    assert(acc@[i] == old(acc)@[i]);
                }
            }
            assert forall|t2: u64, c: u8| #[trigger]
                waveform_at(acc@, t2, c) == (if t2 == time && c == channel {
                    Some(w@)
                } else {
                    waveform_at(old(acc)@, t2, c)
                }) by {
                if t2 == time {
                    assert(channel_waveform(after, c) == (if c == channel {
                        Some(w@)
                    } else {
                        channel_waveform(before, c)
                    }));
                } else {
                    if let Some(i) = position(old(acc)@, t2) {
                        assert(i != k);
                        assert(acc@[i] == old(acc)@[i]);
                    }
                }
            }
        }
    } else {
        proof {
            assert forall|i: int| k <= i < acc@.len() implies (#[trigger] acc@[i]).0 > time by {
                if i > k {
                    assert(acc@[k as int].0 < acc@[i].0);
                }
            }
        }
        let mut frame: NumassFrame = Vec::new();
        frame.push((channel, w));
        proof {
            lemma_position(frame@, 0);
            assert forall|c: u8| c != channel implies position(frame@, c).is_none() by {}
        }
        let ghost single = frame@;
        acc.insert(k, (time, frame));
        proof {
            assert(position(m, time).is_none()) by {
                if exists|i: int| 0 <= i < m.len() && (#[trigger] m[i]).0 == time {
                    let i = choose|i: int| 0 <= i < m.len() && (#[trigger] m[i]).0 == time;
                    assert(acc@[if i < k { i } else { i + 1 }].0 == time);
                    assert(old(acc)@[i].0 == time);
                }
            }
            assert(frame_or_empty(m, time) =~= Seq::<(u8, Seq<i16>)>::empty());
            assert(frame_model(single) =~= put(frame_or_empty(m, time), channel, w@));
            assert(waveforms_model(acc@) =~= m.insert(k as int, (time, frame_model(single))));
            lemma_inserted(old(acc)@, acc@, k as int);
            assert forall|i: int| 0 <= i < acc@.len() implies frame_wf((#[trigger] acc@[i]).1@) by {
                if i < k {
                    assert(acc@[i] == old(acc)@[i]);
                } else if i > k {
                    assert(acc@[i] == old(acc)@[i - 1]);
                }
            }
            assert forall|t2: u64, c: u8| #[trigger]
                waveform_at(acc@, t2, c) == (if t2 == time && c == channel {
                    Some(w@)
                } else {
                    waveform_at(old(acc)@, t2, c)
                }) by {
                if t2 != time {
                    assert(position(acc@, t2) == moved(position(old(acc)@, t2), k as int));
                    if let Some(i) = position(old(acc)@, t2) {
                        if i < k {
                            assert(acc@[i] == old(acc)@[i]);
                        } else {
                            assert(acc@[i + 1] == old(acc)@[i]);
                        }
                    }
                }
            }
        }
    }
}

/// Brings the frames of a point into the order of their corrected trigger
/// times, each with the waveforms of the channels that fired then. Where
/// two frames of a channel have the same time, the one met later stays.
/// The point is refused for its first faulty frame.
pub fn extract_waveforms(point: &Point) -> (r: Result<NumassWaveforms, PointError>)
    ensures
        match r {
            Ok(w) => {
                &&& first_error(point_frames(*point), point_frames(*point).len() as int).is_none()
                &&& waveforms_wf(w@)
                &&& waveforms_model(w@) == point_model(*point)
                &&& forall|t: u64, c: u8|
                    #[trigger] waveform_at(w@, t, c) == last_waveform(
                        point_frames(*point),
                        point_frames(*point).len() as int,
                        t,
                        c,
                    )
            },
            Err(e) => first_error(point_frames(*point), point_frames(*point).len() as int) == Some(e),
        },
{
    let mut acc: NumassWaveforms = Vec::new();
    let ghost mut seen: Seq<Met> = Seq::empty();
    let mut c: usize = 0;
    proof {
        assert forall|t: u64, ch: u8| #[trigger]
            waveform_at(acc@, t, ch) == last_waveform(seen, 0, t, ch) by {}
        assert(waveforms_model(acc@) =~= frames_by_time(seen, 0));
    }
    while c < point.channels.len()
        invariant
            c <= point.channels@.len(),
            seen == point_frames_upto(*point, c as int),
            first_error(seen, seen.len() as int).is_none(),
            waveforms_wf(acc@),
            waveforms_model(acc@) == frames_by_time(seen, seen.len() as int),
            forall|t: u64, ch: u8|
                #[trigger] waveform_at(acc@, t, ch) == last_waveform(seen, seen.len() as int, t, ch),
        decreases point.channels@.len() - c,
    {
        let channel = &point.channels[c];
        let ghost base = seen;
        let mut b: usize = 0;
        while b < channel.blocks.len()
            invariant
                b <= channel.blocks@.len(),
                c < point.channels@.len(),
                *channel == point.channels@[c as int],
                base == point_frames_upto(*point, c as int),
                seen == base + channel_frames(*channel, b as int),
                first_error(seen, seen.len() as int).is_none(),
                waveforms_wf(acc@),
                waveforms_model(acc@) == frames_by_time(seen, seen.len() as int),
                forall|t: u64, ch: u8|
                    #[trigger] waveform_at(acc@, t, ch) == last_waveform(
                        seen,
                        seen.len() as int,
                        t,
                        ch,
                    ),
            decreases channel.blocks@.len() - b,
        {
            let block = &channel.blocks[b];
            let ghost block_base = seen;
            let mut f: usize = 0;
            while f < block.frames.len()
                invariant
                    f <= block.frames@.len(),
                    b < channel.blocks@.len(),
                    c < point.channels@.len(),
                    *channel == point.channels@[c as int],
                    *block == channel.blocks@[b as int],
                    base == point_frames_upto(*point, c as int),
                    block_base == base + channel_frames(*channel, b as int),
                    seen == block_base + block_frames(channel.id, *block).take(f as int),
                    first_error(seen, seen.len() as int).is_none(),
                    waveforms_wf(acc@),
                    waveforms_model(acc@) == frames_by_time(seen, seen.len() as int),
                    forall|t: u64, ch: u8|
                        #[trigger] waveform_at(acc@, t, ch) == last_waveform(
                            seen,
                            seen.len() as int,
                            t,
                            ch,
                        ),
                decreases block.frames@.len() - f,
            {
                let frame = &block.frames[f];
                let ghost met: Met = (channel.id, frame.time, frame.data@);
                let ghost next = seen.push(met);
                proof {
                    assert(block_frames(channel.id, *block)[f as int] == met);
                    assert(next =~= block_base + block_frames(channel.id, *block).take(f + 1));
                    assert(next.drop_last() =~= seen);
                    lemma_prefix(seen, next, seen.len() as int);
                    let whole = point_frames(*point);
                    lemma_walk_prefix(*point, c as int, b as int, f + 1);
                    assert(is_prefix(next, whole));
                    lemma_prefix(next, whole, next.len() as int);
                    if frame_error(met).is_some() {
                        lemma_error_stays(whole, next.len() as int, whole.len() as int);
                    }
                }
                if channel.id > 6 {
                    return Err(PointError::ChannelOutOfRange);
                }
                let w = match frame_to_waveform(frame) {
                    Ok(w) => w,
                    Err(e) => {
                        return Err(e);
                    },
                };
                if w.len() > MAX_SAMPLES {
                    return Err(PointError::FrameTooLong);
                }
                let time = correct_frame_time(frame.time);
                insert_waveform(&mut acc, time, channel.id as u8, w);
                proof {
                    seen = next;
                }
                f += 1;
            }
            proof {
                let all = block_frames(channel.id, *block);
                assert(all.take(all.len() as int) =~= all);
                assert(seen =~= base + channel_frames(*channel, b + 1));
            }
            b += 1;
        }
        c += 1;
    }
    Ok(acc)
}

// ---------------------------------------------------------------------------
// Baseline
// ---------------------------------------------------------------------------

/// The bins in which shaped samples are counted for the baseline: from -5
/// to 120 in steps of a half.
pub open spec fn amp_binning() -> Binning {
    Binning { start: -5_000_000i64, end: 120_000_000, bins: 250, num: 500_000, den: 1 }
}

/// Centre of bin `i` of [`amp_binning`].
pub open spec fn amp_center(i: int) -> int {
    -5_000_000 + 500_000 * i + 250_000
}

/// The counts of the shaped samples of a channel in the first `k` frames;
/// `None` while the channel has not fired.
pub open spec fn amp_entry(
    m: Seq<(u64, Seq<(u8, Seq<i16>)>)>,
    left: int,
    center: int,
    right: int,
    channel: u8,
    k: int,
) -> Option<Seq<u64>>
    decreases k,
{
    if k <= 0 {
        None
    } else {
        let before = amp_entry(m, left, center, right, channel, k - 1);
        match get(m[k - 1].1, channel) {
            Some(w) => Some(
                amp_binning().batch_counts(
                    counts_or_zeros(before, 250),
                    shaped(w, left, center, right),
                    shaped(w, left, center, right).len() as int,
                ),
            ),
            None => before,
        }
    }
}

/// Index of the first count that no other count exceeds.
pub open spec fn first_max(counts: Seq<u64>) -> int
    decreases counts.len(),
{
    if counts.len() <= 1 {
        0
    } else {
        let m = first_max(counts.drop_last());
        if counts.last() > counts[m] {
            counts.len() - 1
        } else {
            m
        }
    }
}

/// [`first_max`] is a place of the counts, no count exceeds the one there,
/// and every earlier count is below it.
pub proof fn lemma_first_max(counts: Seq<u64>)
    requires
        counts.len() > 0,
    ensures
        0 <= first_max(counts) < counts.len(),
        forall|j: int| 0 <= j < counts.len() ==> #[trigger] counts[j] <= counts[first_max(counts)],
        forall|j: int| 0 <= j < first_max(counts) ==> #[trigger] counts[j] < counts[first_max(counts)],
    decreases counts.len(),
{
    if counts.len() > 1 {
        let t = counts.drop_last();
        lemma_first_max(t);
        assert(t[first_max(t)] == counts[first_max(t)]);
        assert forall|j: int| 0 <= j < counts.len() implies #[trigger] counts[j] <= counts[first_max(
            counts,
        )] by {
            if j < t.len() {
                assert(t[j] == counts[j]);
            }
        }
        assert forall|j: int| 0 <= j < first_max(counts) implies #[trigger] counts[j] < counts[first_max(
            counts,
        )] by {
            if j < t.len() {
                assert(t[j] == counts[j]);
            }
        }
    }
}

/// The baseline of a channel: the centre of the fullest bin of its shaped
/// samples, the first of them if there are several; zero for a channel that
/// has not fired.
pub open spec fn baseline_value(entry: Option<Seq<u64>>) -> int {
    match entry {
        Some(counts) => amp_center(first_max(counts)),
        None => 0,
    }
}

/// Counts the shaped samples of every waveform, by channel.
fn waveforms_to_amp_hist(waveforms: &NumassWaveforms, left: usize, center: usize, right: usize) -> (h:
    PointHistogram)
    requires
        waveforms_wf(waveforms@),
    ensures
        h.wf(),
        h.binning() == amp_binning(),
        forall|ch: u8|
            #[trigger] h.entry(ch) == amp_entry(
                waveforms_model(waveforms@),
                left as int,
                center as int,
                right as int,
                ch,
                waveforms@.len() as int,
            ),
{
    let mut h = PointHistogram::new_step(-5_000_000..120_000_000, 500_000);
    let ghost m = waveforms_model(waveforms@);
    proof {
        assert forall|ch: u8| #[trigger]
            h.entry(ch) == amp_entry(m, left as int, center as int, right as int, ch, 0) by {}
    }
    let mut k: usize = 0;
    while k < waveforms.len()
        invariant
            k <= waveforms@.len(),
            waveforms_wf(waveforms@),
            m == waveforms_model(waveforms@),
            h.wf(),
            h.binning() == amp_binning(),
            forall|ch: u8|
                #[trigger] h.entry(ch) == amp_entry(
                    m,
                    left as int,
                    center as int,
                    right as int,
                    ch,
                    k as int,
                ),
        decreases waveforms.len() - k,
    {
        let frame = &waveforms[k].1;
        let ghost fm = frame_model(frame@);
        let ghost start = h;
        proof {
            assert(m[k as int].1 == fm);
            assert(frame_wf(frame@));
        }
        let mut j: usize = 0;
        while j < frame.len()
            invariant
                j <= frame@.len(),
                frame_wf(frame@),
                fm == frame_model(frame@),
                h.wf(),
                start.wf(),
                h.binning() == amp_binning(),
                start.binning() == amp_binning(),
                forall|ch: u8|
                    #[trigger] h.entry(ch) == (if position(fm, ch).is_some() && position(
                        fm,
                        ch,
                    ).unwrap() < j {
                        Some(
                            amp_binning().batch_counts(
                                counts_or_zeros(start.entry(ch), 250),
                                shaped(
                                    fm[position(fm, ch).unwrap()].1,
                                    left as int,
                                    center as int,
                                    right as int,
                                ),
                                shaped(
                                    fm[position(fm, ch).unwrap()].1,
                                    left as int,
                                    center as int,
                                    right as int,
                                ).len() as int,
                            ),
                        )
                    } else {
                        start.entry(ch)
                    }),
            decreases frame.len() - j,
        {
            let channel = frame[j].0;
            let s = emulate_fir(frame[j].1.as_slice(), right, center, left);
            proof {
                assert(ascending(fm)) by {
                    assert forall|a: int, b: int| 0 <= a < b < fm.len() implies fm[a].0 < fm[b].0 by {
                        assert(frame@[a].0 < frame@[b].0);
                    }
                }
                lemma_position(fm, j as int);
                assert(fm[j as int].1 == frame@[j as int].1@);
                assert(counts_or_zeros(h.entry(channel), h.bins) =~= counts_or_zeros(start.entry(channel), 250));
            }
            let ghost before = h;
            h.add_batch(channel, s);
            proof {
                assert forall|ch: u8| #[trigger]
                    h.entry(ch) == (if position(fm, ch).is_some() && position(fm, ch).unwrap()
                        < j + 1 {
                        Some(
                            amp_binning().batch_counts(
                                counts_or_zeros(start.entry(ch), 250),
                                shaped(
                                    fm[position(fm, ch).unwrap()].1,
                                    left as int,
                                    center as int,
                                    right as int,
                                ),
                                shaped(
                                    fm[position(fm, ch).unwrap()].1,
                                    left as int,
                                    center as int,
                                    right as int,
                                ).len() as int,
                            ),
                        )
                    } else {
                        start.entry(ch)
                    }) by {
                    if ch != channel {
                        assert(h.entry(ch) == before.entry(ch));
                        if position(fm, ch).is_some() {
                            assert(position(fm, ch).unwrap() != j);
                        }
                    }
                }
            }
            j += 1;
        }
        proof {
            assert forall|ch: u8| #[trigger]
                h.entry(ch) == amp_entry(m, left as int, center as int, right as int, ch, k + 1) by {
                assert(start.entry(ch) == amp_entry(
                    m,
                    left as int,
                    center as int,
                    right as int,
                    ch,
                    k as int,
                ));
            }
        }
        k += 1;
    }
    h
}

/// The baselines that a histogram of shaped samples gives.
fn baselines_of(h: &PointHistogram) -> (b: [i64; 7])
    requires
        h.wf(),
        h.binning() == amp_binning(),
    ensures
        forall|ch: u8| ch < 7 ==> b[ch as int] == baseline_value(#[trigger] h.entry(ch)),
{
    let mut b: [i64; 7] = [0, 0, 0, 0, 0, 0, 0];
    let mut k: usize = 0;
    while k < h.channels.len()
        invariant
            k <= h.channels@.len(),
            h.wf(),
            h.binning() == amp_binning(),
            forall|ch: u8|
                ch < 7 ==> b[ch as int] == (if position(h.channels@, ch).is_some() && position(
                    h.channels@,
                    ch,
                ).unwrap() < k {
                    baseline_value(#[trigger] h.entry(ch))
                } else {
                    0
                }),
        decreases h.channels.len() - k,
    {
        let channel = h.channels[k].0;
        let counts = &h.channels[k].1;
        let mut best: usize = 0;
        let mut i: usize = 1;
        proof {
            assert(counts@.take(1).len() == 1);
        }
        while i < counts.len()
            invariant
                1 <= i <= counts@.len(),
                counts@.len() == 250,
                best == first_max(counts@.take(i as int)),
                best < i,
            decreases counts.len() - i,
        {
            proof {
                assert(counts@.take(i + 1).drop_last() =~= counts@.take(i as int));
            }
            if counts[i] > counts[best] {
                best = i;
            }
            i += 1;
        }
        proof {
            assert(counts@.take(counts@.len() as int) =~= counts@);
            lemma_position(h.channels@, k as int);
            assert(h.x@[best as int] == crate::fixed::clamp(
                crate::histogram::center(h.range.start, h.num, h.den, best as int),
            ));
            assert((2 * best + 1) * h.num == 1_000_000 * best + 500_000) by (nonlinear_arith)
                requires
                    h.num == 500_000,
            ;
            let n: int = (2 * best + 1) * h.num;
            let d: int = 2 * h.den;
            assert(d == 2);
            assert(n == 1_000_000 * best + 500_000);
            vstd::arithmetic::div_mod::lemma_div_multiples_vanish(500_000 * best + 250_000, 2);
            assert(n == 2 * (500_000 * best + 250_000));
            assert(n / 2 == 500_000 * best + 250_000);
            assert(n / d == n / 2);
            assert(h.range.start == -5_000_000);
            assert(crate::histogram::center(h.range.start, h.num, h.den, best as int) == h.range.start
                + n / d);
            assert(crate::histogram::center(h.range.start, h.num, h.den, best as int) == amp_center(
                best as int,
            ));
        }
        if channel < 7 {
            b[channel as usize] = h.x[best];
        }
        proof {
            assert forall|ch: u8| ch < 7 implies b[ch as int] == (if position(
                h.channels@,
                ch,
            ).is_some() && position(h.channels@, ch).unwrap() < k + 1 {
                baseline_value(#[trigger] h.entry(ch))
            } else {
                0
            }) by {
                if ch != channel && position(h.channels@, ch).is_some() {
                    assert(position(h.channels@, ch).unwrap() != k);
                }
            }
        }
        k += 1;
    }
    b
}

/// Counts the shaped samples of every waveform of a point, by channel,
/// in the bins of [`amp_binning`]. The shaper is that of the trapezoid
/// algorithm.
pub fn point_to_amp_hist(point: &Point, algo: &Algorithm) -> (r: Result<PointHistogram, PointError>)
    requires
        algo is Trapezoid,
    ensures
        match r {
            Ok(h) => {
                &&& first_error(point_frames(*point), point_frames(*point).len() as int).is_none()
                &&& h.wf()
                &&& h.binning() == amp_binning()
                &&& forall|ch: u8|
                    #[trigger] h.entry(ch) == amp_entry(
                        point_model(*point),
                        algo->Trapezoid_left as int,
                        algo->Trapezoid_center as int,
                        algo->Trapezoid_right as int,
                        ch,
                        point_model(*point).len() as int,
                    )
            },
            Err(e) => first_error(point_frames(*point), point_frames(*point).len() as int) == Some(e),
        },
{
    let waveforms = match extract_waveforms(point) {
        Ok(w) => w,
        Err(e) => {
            return Err(e);
        },
    };
    match algo {
        Algorithm::Trapezoid { left, center, right, .. } => Ok(
            waveforms_to_amp_hist(&waveforms, *left, *center, *right),
        ),
        _ => Ok(PointHistogram::new_step(-5_000_000..120_000_000, 500_000)),
    }
}

// ---------------------------------------------------------------------------
// Gaps of the acquisition
// ---------------------------------------------------------------------------

/// Number of intervals of [`CHECK_BIN_SIZE`] that lie wholly within the
/// acquisition, as far as they can be numbered.
pub open spec fn sub_bins(acquisition_time: u64) -> int {
    if acquisition_time / CHECK_BIN_SIZE <= usize::MAX {
        (acquisition_time / CHECK_BIN_SIZE) as int
    } else {
        usize::MAX as int
    }
}

/// A frame begins in interval `i`: behind the begin of the acquisition,
/// before its end, and `i` whole intervals from its begin.
pub open spec fn triggered(
    m: Seq<(u64, Seq<(u8, Seq<i16>)>)>,
    acquisition_time: u64,
    i: int,
) -> bool {
    exists|k: int|
        0 <= k < m.len() && 0 < (#[trigger] m[k]).0 < acquisition_time && m[k].0 / CHECK_BIN_SIZE
            == i
}

/// Block `b` holds an interval in which no frame begins.
pub open spec fn is_bad_block(
    m: Seq<(u64, Seq<(u8, Seq<i16>)>)>,
    acquisition_time: u64,
    limit: int,
    b: usize,
) -> bool {
    exists|i: int|
        0 <= i < limit && !triggered(m, acquisition_time, i) && #[trigger] block_of(i) == b
}

/// The block in which interval `i` lies.
pub open spec fn block_of(i: int) -> int {
    (i * CHECK_BIN_SIZE) / (CUTOFF_BIN_SIZE as int)
}

/// The bad blocks of a point: none above the voltage threshold; else every
/// block that holds an interval, wholly within the acquisition, in which no
/// frame begins.
pub open spec fn bad_block_set(
    hv: i64,
    acquisition_time: u64,
    m: Seq<(u64, Seq<(u8, Seq<i16>)>)>,
) -> Set<usize> {
    if hv > CHECK_HV_THRESHOLD {
        Set::empty()
    } else {
        Set::new(|b: usize| is_bad_block(m, acquisition_time, sub_bins(acquisition_time), b))
    }
}

/// Looks for the blocks that hold a gap.
fn find_bad_blocks(waveforms: &NumassWaveforms, hv: i64, acquisition_time: u64) -> (bad: BTreeSet<
    usize,
>)
    ensures
        bad@ == bad_block_set(hv, acquisition_time, waveforms_model(waveforms@)),
{
    let mut bad: BTreeSet<usize> = BTreeSet::new();
    if hv > CHECK_HV_THRESHOLD {
        assert(bad@ =~= bad_block_set(hv, acquisition_time, waveforms_model(waveforms@)));
        return bad;
    }
    let ghost m = waveforms_model(waveforms@);
    let fit: u64 = acquisition_time / CHECK_BIN_SIZE;
    let limit: usize = if fit > usize::MAX as u64 {
        usize::MAX
    } else {
        fit as usize
    };
    let mut hit: Vec<bool> = Vec::new();
    let mut i: usize = 0;
    while i < limit
        invariant
            i <= limit,
            hit@.len() == i,
            forall|j: int| 0 <= j < i ==> !(#[trigger] hit@[j]),
        decreases limit - i,
    {
        hit.push(false);
        i += 1;
    }
    let mut k: usize = 0;
    while k < waveforms.len()
        invariant
            k <= waveforms@.len(),
            m == waveforms_model(waveforms@),
            hit@.len() == limit,
            forall|j: int|
                0 <= j < limit ==> ((#[trigger] hit@[j]) <==> triggered(
                    m.take(k as int),
                    acquisition_time,
                    j,
                )),
        decreases waveforms.len() - k,
    {
        let time = waveforms[k].0;
        let ghost before = hit@;
        if 0 < time && time < acquisition_time {
            let at: u64 = time / CHECK_BIN_SIZE;
            if at < limit as u64 {
                hit.set(at as usize, true);
            }
        }
        proof {
            let a = m.take(k as int);
            let b = m.take(k + 1);
            assert(b[k as int] == m[k as int]);
            assert(m[k as int].0 == time);
            assert forall|j: int| 0 <= j < limit implies ((#[trigger] hit@[j]) <==> triggered(
                b,
                acquisition_time,
                j,
            )) by {
                if triggered(a, acquisition_time, j) {
                    let x = choose|x: int|
                        0 <= x < a.len() && 0 < (#[trigger] a[x]).0 < acquisition_time && a[x].0
                            / CHECK_BIN_SIZE == j;
                    assert(b[x] == a[x]);
                }
                if triggered(b, acquisition_time, j) {
                    let x = choose|x: int|
                        0 <= x < b.len() && 0 < (#[trigger] b[x]).0 < acquisition_time && b[x].0
                            / CHECK_BIN_SIZE == j;
                    if x < k {
                        assert(a[x] == b[x]);
                    }
                }
            }
        }
        k += 1;
    }
    proof {
        assert(m.take(waveforms@.len() as int) =~= m);
    }
    let mut j: usize = 0;
    while j < limit
        invariant
            j <= limit,
            limit == sub_bins(acquisition_time),
            hit@.len() == limit,
            forall|x: int|
                0 <= x < limit ==> ((#[trigger] hit@[x]) <==> triggered(m, acquisition_time, x)),
            bad@ =~= Set::new(|b: usize| is_bad_block(m, acquisition_time, j as int, b)),
        decreases limit - j,
    {
        let ghost before = bad@;
        if !hit[j] {
            let block: usize = j / 100;
            proof {
                assert(block_of(j as int) == block);
            }
            bad.insert(block);
        }
        proof {
            assert forall|b: usize|
                bad@.contains(b) <==> is_bad_block(m, acquisition_time, j + 1, b) by {
                if is_bad_block(m, acquisition_time, j + 1, b) {
                    let x = choose|x: int|
                        0 <= x < j + 1 && !triggered(m, acquisition_time, x) && #[trigger] block_of(
                            x,
                        ) == b;
                    if x < j {
                        assert(is_bad_block(m, acquisition_time, j as int, b));
                    }
                }
                if before.contains(b) {
                    let x = choose|x: int|
                        0 <= x < j && !triggered(m, acquisition_time, x) && #[trigger] block_of(x)
                            == b;
                    assert(block_of(x) == b);
                }
                if !hit@[j as int] {
                    assert(block_of(j as int) == j / 100);
                }
            }
            assert(bad@ =~= Set::new(|b: usize| is_bad_block(m, acquisition_time, j + 1, b)));
        }
        j += 1;
    }
    proof {
        assert(bad@ =~= bad_block_set(hv, acquisition_time, m));
    }
    bad
}

/// The block in which the acquisition ends is a bad one. An acquisition of
/// a whole number of seconds ends with its last block, and has no such block.
pub open spec fn ends_in_bad_block(bad_blocks: Set<usize>, acquisition_time: u64) -> bool {
    exists|b: usize| bad_blocks.contains(b) && b == acquisition_time / CUTOFF_BIN_SIZE
}

/// Every bad block begins within the acquisition. So the bad blocks but one
/// are shorter than the acquisition; and all of them are not longer, unless
/// the block in which the acquisition ends, a part of a second, is bad too.
pub proof fn lemma_bad_blocks_within(
    hv: i64,
    acquisition_time: u64,
    m: Seq<(u64, Seq<(u8, Seq<i16>)>)>,
)
    ensures
        forall|b: usize|
            bad_block_set(hv, acquisition_time, m).contains(b) ==> b * CUTOFF_BIN_SIZE
                < acquisition_time,
        bad_block_set(hv, acquisition_time, m).finite(),
        (bad_block_set(hv, acquisition_time, m).len() - 1) * CUTOFF_BIN_SIZE < acquisition_time,
        !ends_in_bad_block(bad_block_set(hv, acquisition_time, m), acquisition_time)
            ==> bad_block_set(hv, acquisition_time, m).len() * CUTOFF_BIN_SIZE <= acquisition_time,
        acquisition_time % CUTOFF_BIN_SIZE == 0 ==> !ends_in_bad_block(
            bad_block_set(hv, acquisition_time, m),
            acquisition_time,
        ),
{
    let s = bad_block_set(hv, acquisition_time, m);
    assert forall|b: usize| s.contains(b) implies b * CUTOFF_BIN_SIZE < acquisition_time by {
        let x = choose|x: int|
            0 <= x < sub_bins(acquisition_time) && !triggered(m, acquisition_time, x)
                && #[trigger] block_of(x) == b;
        assert(b == x / 100);
    }
    let whole: int = (acquisition_time / CUTOFF_BIN_SIZE) as int;
    assert forall|b: usize| s.contains(b) implies b < whole + 1 by {
        assert(b * CUTOFF_BIN_SIZE < acquisition_time);
    }
    lemma_bounded_set(s, (whole + 1) as nat);
    if !ends_in_bad_block(s, acquisition_time) {
        assert forall|b: usize| s.contains(b) implies b < whole by {
            assert(b * CUTOFF_BIN_SIZE < acquisition_time);
            assert(!(s.contains(b) && b == acquisition_time / CUTOFF_BIN_SIZE));
        }
        lemma_bounded_set(s, whole as nat);
    }
    if acquisition_time % CUTOFF_BIN_SIZE == 0 && ends_in_bad_block(s, acquisition_time) {
        let b = choose|b: usize| s.contains(b) && b == acquisition_time / CUTOFF_BIN_SIZE;
        assert(b * CUTOFF_BIN_SIZE < acquisition_time);
    }
}

/// A set of numbers below `n` is finite and has `n` elements at most.
pub proof fn lemma_bounded_set(s: Set<usize>, n: nat)
    requires
        forall|b: usize| s.contains(b) ==> b < n,
    ensures
        s.finite(),
        s.len() <= n,
    decreases n,
{
    if n == 0 {
        assert(s =~= Set::empty());
    } else {
        let top = (n - 1) as usize;
        if n - 1 <= usize::MAX && s.contains(top) {
            let rest = s.remove(top);
            lemma_bounded_set(rest, (n - 1) as nat);
            assert(s =~= rest.insert(top));
        } else {
            lemma_bounded_set(s, (n - 1) as nat);
        }
    }
}

// ---------------------------------------------------------------------------
// The result
// ---------------------------------------------------------------------------

/// The first frame of the first block of the first channel is there.
pub open spec fn has_first_frame(point: Point) -> bool {
    point.channels@.len() > 0 && point.channels@[0].blocks@.len() > 0
        && point.channels@[0].blocks@[0].frames@.len() > 0
}

/// Why a point cannot be preprocessed, if it cannot: for want of metadata,
/// for want of a first frame, or for its first faulty frame, in this order.
pub open spec fn point_error(has_meta: bool, point: Point) -> Option<PointError> {
    if !has_meta {
        Some(PointError::MissingMeta)
    } else if !has_first_frame(point) {
        Some(PointError::NoFrames)
    } else {
        first_error(point_frames(point), point_frames(point).len() as int)
    }
}

/// The baselines of a point under an algorithm: for the trapezoid
/// algorithm those of [`baseline_value`], for the others none.
pub open spec fn baseline_fits(baseline: Option<[i64; 7]>, algo: Algorithm, point: Point) -> bool {
    match algo {
        Algorithm::Trapezoid { left, center, right, .. } => baseline.is_some() && forall|ch: u8|
            ch < 7 ==> baseline.unwrap()[ch as int] == baseline_value(
                #[trigger] amp_entry(
                    point_model(point),
                    left as int,
                    center as int,
                    right as int,
                    ch,
                    point_model(point).len() as int,
                ),
            ),
        _ => baseline.is_none(),
    }
}

impl Preprocess {
    /// The record is that of `point` with metadata `meta` under `algo`.
    pub open spec fn is_of(&self, meta: PointMeta, point: Point, algo: Algorithm) -> bool {
        &&& self.acquisition_time == meta.acquisition_time
        &&& self.hv == meta.hv
        &&& self.start_time == meta.start_time
        &&& self.frame_len == (point.channels@[0].blocks@[0].frames@[0].data@.len() / 2) * 8
        &&& self.bad_blocks@ == bad_block_set(meta.hv, meta.acquisition_time, point_model(point))
        &&& baseline_fits(self.baseline, algo, point)
    }

    /// What is to be known of `point` from its waveforms.
    fn from_waveforms(
        meta: PointMeta,
        point: &Point,
        waveforms: &NumassWaveforms,
        algo: &Algorithm,
    ) -> (p: Self)
        requires
            has_first_frame(*point),
            first_error(point_frames(*point), point_frames(*point).len() as int).is_none(),
            waveforms_wf(waveforms@),
            waveforms_model(waveforms@) == point_model(*point),
        ensures
            p.is_of(meta, *point, *algo),
    {
        let bad_blocks = find_bad_blocks(waveforms, meta.hv, meta.acquisition_time);
        let first = &point.channels[0].blocks[0].frames[0];
        proof {
            lemma_first_frame(*point);
            let frames = point_frames(*point);
            lemma_no_error(frames, frames.len() as int, 0);
        }
        let frame_len: u64 = ((first.data.len() / 2) * 8) as u64;
        let baseline = match algo {
            Algorithm::Trapezoid { left, center, right, .. } => {
                let h = waveforms_to_amp_hist(waveforms, *left, *center, *right);
                let b = baselines_of(&h);
                proof {
                    assert forall|ch: u8| ch < 7 implies b[ch as int] == baseline_value(
                        #[trigger] amp_entry(
                            point_model(*point),
                            *left as int,
                            *center as int,
                            *right as int,
                            ch,
                            point_model(*point).len() as int,
                        ),
                    ) by {
                        assert(b[ch as int] == baseline_value(h.entry(ch)));
                    }
                }
                Some(b)
            },
            _ => None,
        };
        Preprocess {
            baseline,
            hv: meta.hv,
            start_time: meta.start_time,
            acquisition_time: meta.acquisition_time,
            frame_len,
            bad_blocks,
        }
    }

    /// Prepares a point: takes acquisition time, voltage and start time from
    /// the metadata, the frame length from the first frame, looks for bad
    /// blocks and, for the trapezoid algorithm, estimates the baselines.
    pub fn from_point(meta: Option<PointMeta>, point: &Point, algo: &Algorithm) -> (r: Result<
        Self,
        PointError,
    >)
        ensures
            match r {
                Ok(p) => point_error(meta.is_some(), *point).is_none() && p.is_of(
                    meta.unwrap(),
                    *point,
                    *algo,
                ),
                Err(e) => point_error(meta.is_some(), *point) == Some(e),
            },
            r matches Ok(p) ==> {
                &&& forall|b: usize|
                    p.bad_blocks@.contains(b) ==> b * CUTOFF_BIN_SIZE < p.acquisition_time
                &&& (p.bad_blocks@.len() - 1) * CUTOFF_BIN_SIZE < p.acquisition_time
                &&& !ends_in_bad_block(p.bad_blocks@, p.acquisition_time) ==> p.bad_blocks@.len()
                    * CUTOFF_BIN_SIZE <= p.acquisition_time
                &&& p.acquisition_time % CUTOFF_BIN_SIZE == 0 ==> p.bad_blocks@.len()
                    * CUTOFF_BIN_SIZE <= p.acquisition_time
            },
    {
        let meta = match meta {
            Some(m) => m,
            None => {
                return Err(PointError::MissingMeta);
            },
        };
        if point.channels.len() == 0 || point.channels[0].blocks.len() == 0
            || point.channels[0].blocks[0].frames.len() == 0 {
            return Err(PointError::NoFrames);
        }
        let waveforms = match extract_waveforms(point) {
            Ok(w) => w,
            Err(e) => {
                return Err(e);
            },
        };
        proof {
            lemma_bad_blocks_within(meta.hv, meta.acquisition_time, point_model(*point));
        }
        Ok(Self::from_waveforms(meta, point, &waveforms, algo))
    }

    /// Length of the acquisition without its bad blocks, in nanoseconds.
    pub fn effective_time(&self) -> (t: u64)
        requires
            self.bad_blocks@.len() * CUTOFF_BIN_SIZE <= self.acquisition_time,
        ensures
            t == self.acquisition_time - self.bad_blocks@.len() * CUTOFF_BIN_SIZE,
    {
        let bad_blocks_count = self.bad_blocks.len();
        self.acquisition_time - bad_blocks_count as u64 * CUTOFF_BIN_SIZE
    }

    /// Whether [`Preprocess::effective_time`] can be computed: the bad
    /// blocks are not longer than the acquisition.
    pub fn has_effective_time(&self) -> (ok: bool)
        ensures
            ok == (self.bad_blocks@.len() * CUTOFF_BIN_SIZE <= self.acquisition_time),
    {
        let n = self.bad_blocks.len();
        n as u64 <= self.acquisition_time / CUTOFF_BIN_SIZE
    }
}

/// The first frame of a point is the first that is met.
pub proof fn lemma_first_frame(point: Point)
    requires
        has_first_frame(point),
    ensures
        point_frames(point).len() > 0,
        point_frames(point)[0] == (
            point.channels@[0].id,
            point.channels@[0].blocks@[0].frames@[0].time,
            point.channels@[0].blocks@[0].frames@[0].data@,
        ),
{
    let channel = point.channels@[0];
    lemma_channel_prefix(channel, 1, channel.blocks@.len() as int);
    lemma_point_prefix(point, 1, point.channels@.len() as int);
    assert(channel_frames(channel, 0).len() == 0);
    assert(point_frames_upto(point, 0).len() == 0);
    let first = block_frames(channel.id, channel.blocks@[0]);
    assert(channel_frames(channel, 1) =~= first);
    assert(point_frames_upto(point, 1) =~= channel_frames(channel, channel.blocks@.len() as int));
}

/// Where no frame is faulty, frame `i` is not.
pub proof fn lemma_no_error(frames: Seq<Met>, n: int, i: int)
    requires
        0 <= i < n,
        first_error(frames, n).is_none(),
    ensures
        frame_error(frames[i]).is_none(),
    decreases n,
{
    if i < n - 1 {
        lemma_no_error(frames, n - 1, i);
    }
}

/// A copy that owns its samples.
pub fn waveforms_fast_copy(waveforms: NumassWaveformsFast) -> (out: NumassWaveforms)
    ensures
        out@.len() == waveforms@.len(),
        forall|k: int|
            0 <= k < out@.len() ==> (#[trigger] out@[k]).0 == waveforms@[k].0 && out@[k].1@.len()
                == waveforms@[k].1@.len(),
        forall|k: int, j: int|
            0 <= k < out@.len() && 0 <= j < out@[k].1@.len() ==> (#[trigger] out@[k].1@[j]).0
                == waveforms@[k].1@[j].0 && out@[k].1@[j].1@ == waveforms@[k].1@[j].1@,
{
    let mut out: NumassWaveforms = Vec::new();
    let mut k: usize = 0;
    while k < waveforms.len()
        invariant
            k <= waveforms@.len(),
            out@.len() == k,
            forall|a: int|
                0 <= a < k ==> (#[trigger] out@[a]).0 == waveforms@[a].0 && out@[a].1@.len()
                    == waveforms@[a].1@.len(),
            forall|a: int, j: int|
                0 <= a < k && 0 <= j < out@[a].1@.len() ==> (#[trigger] out@[a].1@[j]).0
                    == waveforms@[a].1@[j].0 && out@[a].1@[j].1@ == waveforms@[a].1@[j].1@,
        decreases waveforms.len() - k,
    {
        let channels = &waveforms[k].1;
        let mut frame: NumassFrame = Vec::new();
        let mut j: usize = 0;
        while j < channels.len()
            invariant
                j <= channels@.len(),
                frame@.len() == j,
                forall|b: int|
                    0 <= b < j ==> (#[trigger] frame@[b]).0 == channels@[b].0 && frame@[b].1@
                        == channels@[b].1@,
            decreases channels.len() - j,
        {
            let source: &[i16] = channels[j].1;
            let mut samples: Vec<i16> = Vec::new();
            let mut i: usize = 0;
            while i < source.len()
                invariant
                    i <= source@.len(),
                    samples@ == source@.take(i as int),
                decreases source.len() - i,
            {
                samples.push(source[i]);
                proof {
                    assert(samples@ =~= source@.take(i + 1));
                }
                i += 1;
            }
            proof {
                assert(source@.take(source@.len() as int) =~= source@);
            }
            frame.push((channels[j].0, samples));
            j += 1;
        }
        out.push((waveforms[k].0, frame));
        k += 1;
    }
    out
}

} // verus!
