//! Event extraction: the algorithms that turn the waveforms of one frame into
//! events.

use vstd::prelude::*;

use crate::fixed::{clamp, div_floor, saturate, SCALE};
use crate::constants::{
    COEFF_SCALE, KEV_COEFF_FIRST_PEAK, KEV_COEFF_LIKHOVID, KEV_COEFF_LONGDIFF, KEV_COEFF_MAX,
    KEV_COEFF_TRAPEZIOD,
};
use crate::preprocess::{
    emulate_fir, extract_waveforms, point_error, point_model, range_sum, shaped, waveforms_wf,
    PointError, PointMeta, Preprocess,
};
use crate::types::{
    frame_model, frame_wf, frames_view, times_ascend, waveforms_model, FrameEvent, NumassEvent, NumassEvents, NumassFrame,
    Point, MAX_SAMPLES,
};

verus! {

/// Longest discharge that can follow the last sample of a frame and still be
/// counted in 16 bits.
pub const MAX_RESET_SIZE: usize = 57344;

/// ADC code at which channel 1 saturates.
pub const OVERFLOW_CODE_CH1: i16 = 8189;

/// ADC code at which channel 5 saturates.
pub const OVERFLOW_CODE_CH5: i16 = 8081;

/// How a preamplifier discharge is recognised: a fall of more than
/// `treshold` over `window` samples, which spoils `size` samples.
#[derive(PartialEq, Eq, Clone, Copy, Debug, Hash)]
pub struct HWResetParams {
    pub window: usize,
    pub treshold: i16,
    pub size: usize,
}

/// Which frames the trapezoid algorithm hands on.
#[derive(PartialEq, Eq, Clone, Copy, Debug, Hash)]
pub enum SkipOption {
    /// Nothing is skipped: every frame is handed on.
    Nothing,
    /// Only frames without overflow and discharge.
    Bad,
    /// Only frames with an overflow or a discharge.
    Good,
}

/// The extraction algorithms with their parameters.
#[derive(PartialEq, Eq, Clone, Copy, Debug, Hash)]
pub enum Algorithm {
    Max,
    Likhovid { left: usize, right: usize },
    FirstPeak { threshold: i16, left: usize },
    Trapezoid {
        left: usize,
        center: usize,
        right: usize,
        treshold: i16,
        min_length: usize,
        skip: SkipOption,
        reset_detection: HWResetParams,
    },
    LongDiff { reset_detection: HWResetParams },
}

/// What to do with a point.
#[derive(PartialEq, Eq, Clone, Copy, Debug, Hash)]
pub struct ProcessParams {
    pub algorithm: Algorithm,
    pub convert_to_kev: bool,
}

impl Algorithm {
    /// The discharge of the algorithm, where it looks for one, is short
    /// enough to be counted in 16 bits.
    pub open spec fn wf(self) -> bool {
        match self {
            Algorithm::Trapezoid { reset_detection, .. } => reset_detection.size <= MAX_RESET_SIZE,
            Algorithm::LongDiff { reset_detection } => reset_detection.size <= MAX_RESET_SIZE,
            _ => true,
        }
    }

    /// Decides [`Algorithm::wf`].
    pub fn is_valid(&self) -> (ok: bool)
        ensures
            ok == self.wf(),
    {
        match self {
            Algorithm::Trapezoid { reset_detection, .. } => reset_detection.size <= MAX_RESET_SIZE,
            Algorithm::LongDiff { reset_detection } => reset_detection.size <= MAX_RESET_SIZE,
            _ => true,
        }
    }

    /// Peak-centred window average with its usual window.
    pub fn likhovid_default() -> (a: Algorithm)
        ensures
            a == (Algorithm::Likhovid { left: 15, right: 36 }),
    {
        Algorithm::Likhovid { left: 15, right: 36 }
    }

    /// First-peak integration with its usual threshold.
    pub fn firstpeak_default() -> (a: Algorithm)
        ensures
            a == (Algorithm::FirstPeak { threshold: 10, left: 8 }),
    {
        Algorithm::FirstPeak { threshold: 10, left: 8 }
    }

    /// The trapezoid algorithm with its usual geometry.
    pub open spec fn trapezoid_default_spec() -> Algorithm {
        Algorithm::Trapezoid {
            left: 6,
            center: 15,
            right: 6,
            treshold: 16,
            min_length: 10,
            skip: SkipOption::Nothing,
            reset_detection: HWResetParams { window: 10, treshold: 800, size: 110 },
        }
    }

    /// Trapezoidal shaping with its usual geometry.
    #[verifier::when_used_as_spec(trapezoid_default_spec)]
    pub fn trapezoid_default() -> (a: Algorithm)
        ensures
            a == Algorithm::trapezoid_default_spec(),
            a.wf(),
    {
        Algorithm::Trapezoid {
            left: 6,
            center: 15,
            right: 6,
            treshold: 16,
            min_length: 10,
            skip: SkipOption::Nothing,
            reset_detection: HWResetParams { window: 10, treshold: 800, size: 110 },
        }
    }

    /// Baseline trend estimate with the usual discharge search.
    pub fn longdiff_default() -> (a: Algorithm)
        ensures
            a == (Algorithm::LongDiff {
                reset_detection: HWResetParams { window: 10, treshold: 800, size: 110 },
            }),
            a.wf(),
    {
        Algorithm::LongDiff {
            reset_detection: HWResetParams { window: 10, treshold: 800, size: 110 },
        }
    }
}

impl Default for Algorithm {
    fn default() -> (a: Self)
        ensures
            a == Algorithm::trapezoid_default_spec(),
    {
        Algorithm::trapezoid_default()
    }
}

impl Default for ProcessParams {
    fn default() -> (p: Self)
        ensures
            p.algorithm == Algorithm::trapezoid_default_spec(),
            p.convert_to_kev,
    {
        ProcessParams { algorithm: Algorithm::trapezoid_default(), convert_to_kev: true }
    }
}

// ---------------------------------------------------------------------------
// Peaks
// ---------------------------------------------------------------------------

/// Sample `i` exceeds the threshold and neither neighbour exceeds it.
pub open spec fn is_peak(w: Seq<i16>, threshold: i16, i: int) -> bool {
    &&& 0 <= i < w.len()
    &&& w[i] > threshold
    &&& (i == 0 || w[i - 1] <= w[i])
    &&& (i == w.len() - 1 || w[i + 1] <= w[i])
}

/// The first peak at or after `i`.
pub open spec fn first_peak_from(w: Seq<i16>, threshold: i16, i: int) -> Option<int>
    decreases w.len() - i,
{
    if i < 0 || i >= w.len() {
        None
    } else if is_peak(w, threshold, i) {
        Some(i)
    } else {
        first_peak_from(w, threshold, i + 1)
    }
}

/// The first peak of a waveform.
pub open spec fn first_peak(w: Seq<i16>, threshold: i16) -> Option<int> {
    first_peak_from(w, threshold, 0)
}

/// [`first_peak_from`] gives the least peak at or after `i`, and `None` only
/// where there is none.
pub proof fn lemma_first_peak_from(w: Seq<i16>, threshold: i16, i: int)
    requires
        0 <= i,
    ensures
        match first_peak_from(w, threshold, i) {
            Some(p) => i <= p && is_peak(w, threshold, p) && forall|j: int|
                i <= j < p ==> !is_peak(w, threshold, j),
            None => forall|j: int| i <= j ==> !is_peak(w, threshold, j),
        },
    decreases w.len() - i,
{
    if i < w.len() && !is_peak(w, threshold, i) {
        lemma_first_peak_from(w, threshold, i + 1);
    }
}

/// Position of the first sample that exceeds `threshold` and is not exceeded
/// by a neighbour.
pub fn find_first_peak(waveform: &[i16], threshold: i16) -> (pos: Option<usize>)
    ensures
        match pos {
            Some(p) => first_peak(waveform@, threshold) == Some(p as int),
            None => first_peak(waveform@, threshold).is_none(),
        },
        match pos {
            Some(p) => is_peak(waveform@, threshold, p as int) && forall|j: int|
                0 <= j < p ==> !is_peak(waveform@, threshold, j),
            None => forall|j: int| !is_peak(waveform@, threshold, j),
        },
{
    let n = waveform.len();
    let mut i: usize = 0;
    while i < n
        invariant
            i <= n,
            n == waveform@.len(),
            first_peak(waveform@, threshold) == first_peak_from(waveform@, threshold, i as int),
        decreases n - i,
    {
        let amp = waveform[i];
        if amp > threshold && (i == 0 || waveform[i - 1] <= amp) && (i == n - 1 || waveform[i + 1]
            <= amp) {
            proof {
                assert(is_peak(waveform@, threshold, i as int));
                lemma_first_peak_from(waveform@, threshold, 0);
            }
            return Some(i);
        }
        i += 1;
    }
    proof {
        lemma_first_peak_from(waveform@, threshold, 0);
    }
    None
}

// ---------------------------------------------------------------------------
// Discharges
// ---------------------------------------------------------------------------

/// The waveform falls by more than `threshold` between `i` and `i + window`.
pub open spec fn drops_at(w: Seq<i16>, window: int, threshold: i16, i: int) -> bool {
    0 <= i && i + window < w.len() && w[i] - w[i + window] > threshold
}

/// The first fall at or after `i`.
pub open spec fn first_drop_from(w: Seq<i16>, window: int, threshold: i16, i: int) -> Option<int>
    decreases w.len() - i,
{
    if i < 0 || window < 0 || i + window >= w.len() {
        None
    } else if drops_at(w, window, threshold, i) {
        Some(i)
    } else {
        first_drop_from(w, window, threshold, i + 1)
    }
}

/// The first fall of a waveform.
pub open spec fn first_drop(w: Seq<i16>, window: int, threshold: i16) -> Option<int> {
    first_drop_from(w, window, threshold, 0)
}

/// [`first_drop_from`] gives the least fall at or after `i`, and `None` only
/// where there is none.
pub proof fn lemma_first_drop_from(w: Seq<i16>, window: int, threshold: i16, i: int)
    requires
        0 <= i,
        0 <= window,
    ensures
        match first_drop_from(w, window, threshold, i) {
            Some(p) => i <= p && drops_at(w, window, threshold, p) && forall|j: int|
                i <= j < p ==> !drops_at(w, window, threshold, j),
            None => forall|j: int| i <= j ==> !drops_at(w, window, threshold, j),
        },
    decreases w.len() - i,
{
    if i + window < w.len() && !drops_at(w, window, threshold, i) {
        lemma_first_drop_from(w, window, threshold, i + 1);
    }
}

/// The discharge interval after one more channel: the union of the interval
/// so far and `size` samples from that channel's first fall.
pub open spec fn merge_reset(prev: Option<(int, int)>, found: Option<int>, size: int) -> Option<
    (int, int),
> {
    match found {
        None => prev,
        Some(i) => match prev {
            None => Some((i, i + size)),
            Some((a, b)) => Some((if i < a { i } else { a }, if i + size > b { i + size } else { b })),
        },
    }
}

/// The discharge interval of the first `k` channels of a frame.
pub open spec fn reset_upto(frame: Seq<(u8, Seq<i16>)>, params: HWResetParams, k: int) -> Option<
    (int, int),
>
    decreases k,
{
    if k <= 0 {
        None
    } else {
        merge_reset(
            reset_upto(frame, params, k - 1),
            first_drop(frame[k - 1].1, params.window as int, params.treshold),
            params.size as int,
        )
    }
}

/// The discharge interval of a frame in samples: from the earliest first
/// fall of any channel to `size` samples after the latest.
pub open spec fn frame_reset(frame: Seq<(u8, Seq<i16>)>, params: HWResetParams) -> Option<
    (int, int),
> {
    reset_upto(frame, params, frame.len() as int)
}

/// An interval of machine integers as one of mathematical integers.
pub open spec fn interval_view(r: Option<(usize, usize)>) -> Option<(int, int)> {
    match r {
        None => None,
        Some((a, b)) => Some((a as int, b as int)),
    }
}

/// The interval of `k` channels is there exactly when one of them falls. It
/// begins at the earliest first fall of a channel and ends `size` samples
/// behind the latest.
pub proof fn lemma_reset_upto(frame: Seq<(u8, Seq<i16>)>, params: HWResetParams, k: int)
    requires
        0 <= k <= frame.len(),
    ensures
        reset_upto(frame, params, k).is_some() <==> exists|c: int|
            0 <= c < k && (#[trigger] first_drop(
                frame[c].1,
                params.window as int,
                params.treshold,
            )).is_some(),
        match reset_upto(frame, params, k) {
            Some((a, b)) => {
                &&& 0 <= a
                &&& a + params.size <= b
                &&& exists|c: int|
                    0 <= c < k && a + params.window < (#[trigger] frame[c]).1.len()
                &&& exists|c: int|
                    0 <= c < k && #[trigger] first_drop(
                        frame[c].1,
                        params.window as int,
                        params.treshold,
                    ) == Some(a)
                &&& exists|c: int|
                    0 <= c < k && #[trigger] first_drop(
                        frame[c].1,
                        params.window as int,
                        params.treshold,
                    ) == Some(b - params.size)
                &&& forall|c: int|
                    0 <= c < k ==> ((#[trigger] first_drop(
                        frame[c].1,
                        params.window as int,
                        params.treshold,
                    )) matches Some(i) ==> a <= i && i + params.size <= b)
            },
            None => true,
        },
    decreases k,
{
    if k > 0 {
        lemma_reset_upto(frame, params, k - 1);
        lemma_first_drop_from(frame[k - 1].1, params.window as int, params.treshold, 0);
        let found = first_drop(frame[k - 1].1, params.window as int, params.treshold);
        let before = reset_upto(frame, params, k - 1);
        if reset_upto(frame, params, k).is_some() {
            let (a, b) = reset_upto(frame, params, k).unwrap();
            if found.is_some() {
                assert(first_drop(frame[k - 1].1, params.window as int, params.treshold).is_some());
                assert(a + params.window < frame[k - 1].1.len() || before.is_some());
            }
            if before.is_some() {
                let (a0, b0) = before.unwrap();
                let c = choose|c: int|
                    0 <= c < k - 1 && (#[trigger] first_drop(
                        frame[c].1,
                        params.window as int,
                        params.treshold,
                    )).is_some();
                assert(first_drop(frame[c].1, params.window as int, params.treshold).is_some());
                let ca = choose|c: int|
                    0 <= c < k - 1 && #[trigger] first_drop(
                        frame[c].1,
                        params.window as int,
                        params.treshold,
                    ) == Some(a0);
                let cb = choose|c: int|
                    0 <= c < k - 1 && #[trigger] first_drop(
                        frame[c].1,
                        params.window as int,
                        params.treshold,
                    ) == Some(b0 - params.size);
                let cw = choose|c: int|
                    0 <= c < k - 1 && a0 + params.window < (#[trigger] frame[c]).1.len();
                if a == a0 {
                    assert(first_drop(frame[ca].1, params.window as int, params.treshold) == Some(a));
                    assert(a + params.window < frame[cw].1.len());
                } else {
                    assert(found == Some(a));
                    assert(a + params.window < frame[k - 1].1.len());
                }
                if b == b0 {
                    assert(first_drop(frame[cb].1, params.window as int, params.treshold) == Some(
                        b - params.size,
                    ));
                } else {
                    assert(found == Some(b - params.size));
                }
            } else {
                assert(found == Some(a));
                assert(found == Some(b - params.size));
                assert(a + params.window < frame[k - 1].1.len());
            }
        }
    }
}

/// First place where the waveform falls by more than `threshold` over
/// `window` samples.
fn find_drop(w: &[i16], window: usize, threshold: i16) -> (pos: Option<usize>)
    ensures
        match pos {
            Some(p) => first_drop(w@, window as int, threshold) == Some(p as int),
            None => first_drop(w@, window as int, threshold).is_none(),
        },
{
    let n = w.len();
    if window >= n {
        return None;
    }
    let last = n - window;
    let mut i: usize = 0;
    while i < last
        invariant
            i <= last,
            last == n - window,
            n == w@.len(),
            window < n,
            first_drop(w@, window as int, threshold) == first_drop_from(
                w@,
                window as int,
                threshold,
                i as int,
            ),
        decreases last - i,
    {
        if w[i] as i32 - w[i + window] as i32 > threshold as i32 {
            return Some(i);
        }
        i += 1;
    }
    None
}

/// Looks in every channel for the first fall by more than the threshold
/// over the window. The frame's discharge runs from the earliest of these
/// places to `size` samples after the latest; without any there is none.
pub fn detect_reset(frame: &NumassFrame, params: &HWResetParams) -> (reset: Option<(usize, usize)>)
    requires
        frame_wf(frame@),
        params.size <= MAX_RESET_SIZE,
    ensures
        interval_view(reset) == frame_reset(frame_model(frame@), *params),
        reset matches Some((a, b)) ==> a < MAX_SAMPLES && a + params.size <= b <= MAX_SAMPLES
            + params.size,
{
    let mut reset: Option<(usize, usize)> = None;
    let mut k: usize = 0;
    while k < frame.len()
        invariant
            k <= frame.len(),
            frame_wf(frame@),
            params.size <= MAX_RESET_SIZE,
            interval_view(reset) == reset_upto(frame_model(frame@), *params, k as int),
            reset matches Some((a, b)) ==> a < MAX_SAMPLES && a + params.size <= b <= MAX_SAMPLES
                + params.size,
        decreases frame.len() - k,
    {
        let found = find_drop(frame[k].1.as_slice(), params.window, params.treshold);
        proof {
            lemma_first_drop_from(frame@[k as int].1@, params.window as int, params.treshold, 0);
        }
        if let Some(i) = found {
            reset = match reset {
                None => Some((i, i + params.size)),
                Some((a, b)) => Some(
                    (if i < a { i } else { a }, if i + params.size > b { i + params.size } else { b }),
                ),
            };
        }
        k += 1;
    }
    reset
}

// ---------------------------------------------------------------------------
// Order of the events of a frame
// ---------------------------------------------------------------------------

/// `s` with `e` put behind the last event that is not later than `e`.
pub open spec fn insert_sorted(s: Seq<NumassEvent>, e: NumassEvent) -> Seq<NumassEvent>
    decreases s.len(),
{
    if s.len() == 0 {
        seq![e]
    } else if s.last().0 <= e.0 {
        s.push(e)
    } else {
        insert_sorted(s.drop_last(), e).push(s.last())
    }
}

/// The events of `s` by ascending offset; events with the same offset keep
/// their order.
pub open spec fn sort_by_offset(s: Seq<NumassEvent>) -> Seq<NumassEvent>
    decreases s.len(),
{
    if s.len() == 0 {
        s
    } else {
        insert_sorted(sort_by_offset(s.drop_last()), s.last())
    }
}

/// No event stands before an earlier one.
pub open spec fn offsets_ascend(s: Seq<NumassEvent>) -> bool {
    forall|i: int, j: int| 0 <= i < j < s.len() ==> s[i].0 <= s[j].0
}

/// [`insert_sorted`] puts the event at the place `p` that separates the
/// events not later than it from the later ones.
pub proof fn lemma_insert_sorted_at(s: Seq<NumassEvent>, e: NumassEvent, p: int)
    requires
        0 <= p <= s.len(),
        p > 0 ==> s[p - 1].0 <= e.0,
        forall|j: int| p <= j < s.len() ==> s[j].0 > e.0,
    ensures
        insert_sorted(s, e) == s.insert(p, e),
    decreases s.len(),
{
    if s.len() == 0 {
        assert(seq![e] =~= s.insert(p, e));
    } else if s.last().0 <= e.0 {
        assert(p == s.len());
        assert(s.push(e) =~= s.insert(p, e));
    } else {
        assert(p < s.len());
        lemma_insert_sorted_at(s.drop_last(), e, p);
        assert(s.drop_last().insert(p, e).push(s.last()) =~= s.insert(p, e));
    }
}

/// Inserting into an ascending sequence keeps it ascending and adds exactly
/// the new event.
pub proof fn lemma_insert_sorted(s: Seq<NumassEvent>, e: NumassEvent)
    requires
        offsets_ascend(s),
    ensures
        offsets_ascend(insert_sorted(s, e)),
        insert_sorted(s, e).len() == s.len() + 1,
        insert_sorted(s, e).to_multiset() == s.to_multiset().insert(e),
    decreases s.len(),
{
    broadcast use vstd::seq_lib::group_to_multiset_ensures;

    if s.len() == 0 {
        assert(seq![e] =~= s.push(e));
    } else if s.last().0 <= e.0 {
    } else {
        let t = s.drop_last();
        lemma_insert_sorted(t, e);
        let u = insert_sorted(t, e);
        assert(s =~= t.push(s.last()));
        assert forall|i: int, j: int| 0 <= i < j < u.push(s.last()).len() implies u.push(
            s.last(),
        )[i].0 <= u.push(s.last())[j].0 by {
            if j == u.len() {
                // every event of u is e or an event of t, none later than s.last()
                assert(u.to_multiset().count(u[i]) > 0);
                if u[i] != e {
                    assert(t.to_multiset().count(u[i]) > 0);
                    assert(t.contains(u[i]));
                    let k = choose|k: int| 0 <= k < t.len() && t[k] == u[i];
                    assert(s[k] == u[i]);
                }
            }
        }
        assert(u.push(s.last()).to_multiset() =~= s.to_multiset().insert(e));
    }
}

/// Sorting gives the same events in ascending order.
pub proof fn lemma_sort_by_offset(s: Seq<NumassEvent>)
    ensures
        offsets_ascend(sort_by_offset(s)),
        sort_by_offset(s).len() == s.len(),
        sort_by_offset(s).to_multiset() == s.to_multiset(),
    decreases s.len(),
{
    broadcast use vstd::seq_lib::group_to_multiset_ensures;

    if s.len() > 0 {
        lemma_sort_by_offset(s.drop_last());
        lemma_insert_sorted(sort_by_offset(s.drop_last()), s.last());
        assert(s =~= s.drop_last().push(s.last()));
    }
}

/// Puts `e` behind the last event of `v` that is not later.
fn insert_event(v: &mut Vec<NumassEvent>, e: NumassEvent)
    ensures
        final(v)@ == insert_sorted(old(v)@, e),
{
    let mut p: usize = v.len();
    while p > 0 && v[p - 1].0 > e.0
        invariant
            p <= v@.len(),
            v@ == old(v)@,
            forall|j: int| p <= j < v@.len() ==> v@[j].0 > e.0,
        decreases p,
    {
        p -= 1;
    }
    proof {
        lemma_insert_sorted_at(v@, e, p as int);
    }
    v.insert(p, e);
}

/// Orders events by offset; events with the same offset keep their order.
pub fn sort_events(events: &Vec<NumassEvent>) -> (out: Vec<NumassEvent>)
    ensures
        out@ == sort_by_offset(events@),
        offsets_ascend(out@),
        out@.to_multiset() == events@.to_multiset(),
{
    let mut out: Vec<NumassEvent> = Vec::new();
    let mut k: usize = 0;
    while k < events.len()
        invariant
            k <= events.len(),
            out@ == sort_by_offset(events@.take(k as int)),
        decreases events.len() - k,
    {
        insert_event(&mut out, events[k]);
        proof {
            assert(events@.take(k + 1).drop_last() =~= events@.take(k as int));
        }
        k += 1;
    }
    proof {
        assert(events@.take(events.len() as int) =~= events@);
        lemma_sort_by_offset(events@);
    }
    out
}

// ---------------------------------------------------------------------------
// Events of one channel
// ---------------------------------------------------------------------------

/// Offset in nanoseconds of sample `i`.
pub open spec fn offset_ns(i: int) -> u16 {
    (i * 8) as u16
}

/// Baseline of a channel in millionths; zero where none is known.
pub open spec fn baseline_of(baseline: Option<[i64; 7]>, channel: u8) -> int {
    match baseline {
        Some(b) => if channel < 7 {
            b[channel as int] as int
        } else {
            0
        },
        None => 0,
    }
}

/// Index of the last sample that no other sample exceeds.
pub open spec fn last_max(w: Seq<i16>) -> int
    decreases w.len(),
{
    if w.len() <= 1 {
        0
    } else {
        let m = last_max(w.drop_last());
        if w.last() >= w[m] {
            w.len() - 1
        } else {
            m
        }
    }
}

/// [`last_max`] is a place of the waveform, no sample exceeds the one there,
/// and every later sample is below it.
pub proof fn lemma_last_max(w: Seq<i16>)
    requires
        w.len() > 0,
    ensures
        0 <= last_max(w) < w.len(),
        forall|j: int| 0 <= j < w.len() ==> #[trigger] w[j] <= w[last_max(w)],
        forall|j: int| last_max(w) < j < w.len() ==> #[trigger] w[j] < w[last_max(w)],
    decreases w.len(),
{
    if w.len() > 1 {
        let t = w.drop_last();
        lemma_last_max(t);
        assert(t[last_max(t)] == w[last_max(t)]);
        assert forall|j: int| 0 <= j < w.len() implies #[trigger] w[j] <= w[last_max(w)] by {
            if j < t.len() {
                assert(t[j] == w[j]);
            }
        }
        assert forall|j: int| last_max(w) < j < w.len() implies #[trigger] w[j] < w[last_max(
            w,
        )] by {
            if j < t.len() {
                assert(t[j] == w[j]);
            }
        }
    }
}

/// Mean of `w[lo..hi]` in millionths, rounded down; zero for an empty
/// window.
pub open spec fn window_mean(w: Seq<i16>, lo: int, hi: int) -> int {
    if hi > lo {
        (range_sum(w, lo, hi) * SCALE) / (hi - lo)
    } else {
        0
    }
}

/// The event of the Max algorithm: the last largest sample, as it is.
pub open spec fn max_events(channel: u8, w: Seq<i16>) -> Seq<NumassEvent> {
    if w.len() == 0 {
        Seq::empty()
    } else {
        let x = last_max(w);
        seq![
            (
                offset_ns(x),
                FrameEvent::Event { channel, amplitude: (w[x] * SCALE) as i64, size: 1 },
            ),
        ]
    }
}

/// The event of the Likhovid algorithm: the mean of the samples from `left`
/// before the last largest sample to `right` behind it, as far as the
/// waveform reaches.
pub open spec fn likhovid_events(channel: u8, w: Seq<i16>, left: int, right: int) -> Seq<
    NumassEvent,
> {
    if w.len() == 0 {
        Seq::empty()
    } else {
        let x = last_max(w);
        let lo = if x >= left {
            x - left
        } else {
            0
        };
        let hi = if x + right < w.len() {
            x + right
        } else {
            w.len() as int
        };
        seq![
            (
                offset_ns(x),
                FrameEvent::Event { channel, amplitude: window_mean(w, lo, hi) as i64, size: 1 },
            ),
        ]
    }
}

/// The event of the FirstPeak algorithm: a fiftieth of the sum of all
/// samples from `left` before the first peak to the end.
pub open spec fn first_peak_events(channel: u8, w: Seq<i16>, threshold: i16, left: int) -> Seq<
    NumassEvent,
> {
    match first_peak(w, threshold) {
        None => Seq::empty(),
        Some(p) => {
            let lo = if p < left {
                0
            } else {
                p - left
            };
            seq![
                (
                    offset_ns(p),
                    FrameEvent::Event {
                        channel,
                        amplitude: ((range_sum(w, lo, w.len() as int) * SCALE) / 50) as i64,
                        size: 1,
                    },
                ),
            ]
        },
    }
}

/// Number of samples at each end of a waveform that LongDiff averages.
pub const LONGDIFF_ARM: usize = 12;

/// The baseline of the shaped trace rises by one unit while the waveform
/// rises by this many millionths per sample.
pub const LONGDIFF_SLOPE: i64 = 10_916_667;

/// Amplitude of LongDiff in millionths: with `a` the mean of the first
/// twelve samples, `b` the mean of the last twelve and `n` the number of
/// samples, a quarter of `b - (a + n * base / 10.916667)`.
pub open spec fn long_diff_amplitude(w: Seq<i16>, base: int) -> int {
    let n = w.len() as int;
    (((range_sum(w, n - 12, n) - range_sum(w, 0, 12)) * LONGDIFF_SLOPE - 12 * base * n) * SCALE) / (
    48 * LONGDIFF_SLOPE)
}

/// The event of the LongDiff algorithm; a waveform shorter than twelve
/// samples gives none.
pub open spec fn long_diff_events(channel: u8, w: Seq<i16>, base: int) -> Seq<NumassEvent> {
    if w.len() < 12 {
        Seq::empty()
    } else {
        seq![
            (
                0u16,
                FrameEvent::Event {
                    channel,
                    amplitude: clamp(long_diff_amplitude(w, base)),
                    size: w.len() as u16,
                },
            ),
        ]
    }
}

/// Index of the last largest sample.
fn argmax(w: &[i16]) -> (x: usize)
    requires
        w@.len() > 0,
    ensures
        x == last_max(w@),
        x < w@.len(),
{
    let mut x: usize = 0;
    let mut j: usize = 1;
    proof {
        assert(w@.take(1).len() == 1);
    }
    while j < w.len()
        invariant
            1 <= j <= w@.len(),
            x == last_max(w@.take(j as int)),
            x < j,
        decreases w.len() - j,
    {
        proof {
            assert(w@.take(j + 1).drop_last() =~= w@.take(j as int));
        }
        if w[j] >= w[x] {
            x = j;
        }
        j += 1;
    }
    proof {
        assert(w@.take(w@.len() as int) =~= w@);
    }
    x
}

/// Sum of `w[lo..hi]` for a waveform of a frame.
fn sample_sum(w: &[i16], lo: usize, hi: usize) -> (s: i64)
    requires
        lo <= hi <= w@.len(),
        w@.len() <= MAX_SAMPLES,
    ensures
        s == range_sum(w@, lo as int, hi as int),
        -32768 * (hi - lo) <= s <= 32767 * (hi - lo),
{
    let mut s: i64 = 0;
    let mut j: usize = lo;
    while j < hi
        invariant
            lo <= j <= hi <= w@.len(),
            w@.len() <= MAX_SAMPLES,
            s == range_sum(w@, lo as int, j as int),
            -32768 * (j - lo) <= s <= 32767 * (j - lo),
        decreases hi - j,
    {
        s = s + w[j] as i64;
        j += 1;
    }
    s
}

/// Appends the event of the Max algorithm for one channel.
fn max_channel(channel: u8, w: &[i16], events: &mut Vec<NumassEvent>)
    requires
        w@.len() <= MAX_SAMPLES,
    ensures
        final(events)@ == old(events)@ + max_events(channel, w@),
{
    if w.len() == 0 {
        assert(events@ =~= events@ + max_events(channel, w@));
        return ;
    }
    let x = argmax(w);
    let e: NumassEvent = (
        (x * 8) as u16,
        FrameEvent::Event { channel, amplitude: w[x] as i64 * SCALE, size: 1 },
    );
    events.push(e);
    assert(events@ =~= old(events)@ + max_events(channel, w@));
}

/// Appends the event of the Likhovid algorithm for one channel.
fn likhovid_channel(channel: u8, w: &[i16], left: usize, right: usize, events: &mut Vec<NumassEvent>)
    requires
        w@.len() <= MAX_SAMPLES,
    ensures
        final(events)@ == old(events)@ + likhovid_events(channel, w@, left as int, right as int),
{
    if w.len() == 0 {
        assert(events@ =~= events@ + likhovid_events(channel, w@, left as int, right as int));
        return ;
    }
    let x = argmax(w);
    let lo: usize = if x >= left {
        x - left
    } else {
        0
    };
    let hi: usize = if right < w.len() - x {
        x + right
    } else {
        w.len()
    };
    let amplitude: i64 = if hi > lo {
        let s = sample_sum(w, lo, hi);
        let q = div_floor(s as i128 * SCALE as i128, (hi - lo) as i128);
        proof {
            crate::preprocess::lemma_scaled_quotient_bound(s as int, hi - lo, 32768);
        }
        q as i64
    } else {
        0
    };
    let e: NumassEvent = ((x * 8) as u16, FrameEvent::Event { channel, amplitude, size: 1 });
    events.push(e);
    assert(events@ =~= old(events)@ + likhovid_events(channel, w@, left as int, right as int));
}

/// Appends the event of the FirstPeak algorithm for one channel.
fn first_peak_channel(
    channel: u8,
    w: &[i16],
    threshold: i16,
    left: usize,
    events: &mut Vec<NumassEvent>,
)
    requires
        w@.len() <= MAX_SAMPLES,
    ensures
        final(events)@ == old(events)@ + first_peak_events(channel, w@, threshold, left as int),
{
    match find_first_peak(w, threshold) {
        None => {
            assert(events@ =~= events@ + first_peak_events(channel, w@, threshold, left as int));
        },
        Some(p) => {
            let lo: usize = if p < left {
                0
            } else {
                p - left
            };
            let s = sample_sum(w, lo, w.len());
            let q = div_floor(s as i128 * SCALE as i128, 50);
            let e: NumassEvent = (
                (p * 8) as u16,
                FrameEvent::Event { channel, amplitude: q as i64, size: 1 },
            );
            events.push(e);
            assert(events@ =~= old(events)@ + first_peak_events(
                channel,
                w@,
                threshold,
                left as int,
            ));
        },
    }
}

/// Appends the event of the LongDiff algorithm for one channel.
fn long_diff_channel(channel: u8, w: &[i16], base: i64, events: &mut Vec<NumassEvent>)
    requires
        w@.len() <= MAX_SAMPLES,
    ensures
        final(events)@ == old(events)@ + long_diff_events(channel, w@, base as int),
{
    let n = w.len();
    if n < LONGDIFF_ARM {
        assert(events@ =~= events@ + long_diff_events(channel, w@, base as int));
        return ;
    }
    let a = sample_sum(w, 0, LONGDIFF_ARM);
    let b = sample_sum(w, n - LONGDIFF_ARM, n);
    assert(-0x1000_0000_0000 <= (b - a) * LONGDIFF_SLOPE <= 0x1000_0000_0000) by (nonlinear_arith)
        requires
            -0x10_0000 <= b - a <= 0x10_0000,
            LONGDIFF_SLOPE == 10_916_667,
    ;
    let rise: i128 = (b as i128 - a as i128) * LONGDIFF_SLOPE as i128;
    assert(-0x1_0000_0000_0000_0000_0000 <= (12 * base) * n <= 0x1_0000_0000_0000_0000_0000)
        by (nonlinear_arith)
        requires
            -0x8000_0000_0000_0000 <= base <= 0x8000_0000_0000_0000,
            0 <= n <= 8191,
    ;
    let drift: i128 = 12 * (base as i128) * (n as i128);
    assert(drift == (12 * base) * n);
    assert(-0x1_0000_0000_0000_0000_0000_0000_0000 <= (rise - drift) * SCALE
        <= 0x1_0000_0000_0000_0000_0000_0000_0000) by (nonlinear_arith)
        requires
            -0x2_0000_0000_0000_0000_0000 <= rise - drift <= 0x2_0000_0000_0000_0000_0000,
            SCALE == 1_000_000,
    ;
    let q = div_floor((rise - drift) * SCALE as i128, 48 * LONGDIFF_SLOPE as i128);
    let e: NumassEvent = (
        0,
        FrameEvent::Event { channel, amplitude: saturate(q), size: n as u16 },
    );
    events.push(e);
    assert(events@ =~= old(events)@ + long_diff_events(channel, w@, base as int));
}

// ---------------------------------------------------------------------------
// The trapezoid algorithm
// ---------------------------------------------------------------------------

/// The ADC code at which a channel saturates, for the channels that have
/// one.
pub open spec fn overflow_code(channel: u8) -> Option<i16> {
    if channel == 1 {
        Some(OVERFLOW_CODE_CH1)
    } else if channel == 5 {
        Some(OVERFLOW_CODE_CH5)
    } else {
        None
    }
}

/// The first sample at or after `i` that equals `code`.
pub open spec fn first_code_from(w: Seq<i16>, code: i16, i: int) -> Option<int>
    decreases w.len() - i,
{
    if i < 0 || i >= w.len() {
        None
    } else if w[i] == code {
        Some(i)
    } else {
        first_code_from(w, code, i + 1)
    }
}

/// Where the channel first saturates, if it does.
pub open spec fn overflow_start(channel: u8, w: Seq<i16>) -> Option<int> {
    match overflow_code(channel) {
        None => None,
        Some(code) => first_code_from(w, code, 0),
    }
}

/// The overflow record of a channel: from the first saturated sample to the
/// begin of the discharge, or to the end of the waveform without one.
pub open spec fn overflow_events(channel: u8, w: Seq<i16>, reset: Option<(int, int)>) -> Seq<
    NumassEvent,
> {
    match overflow_start(channel, w) {
        None => Seq::empty(),
        Some(idx) => {
            let end = match reset {
                Some((rs, _)) => rs,
                None => w.len() as int,
            };
            let size = if end >= idx {
                end - idx
            } else {
                idx - end
            };
            seq![(offset_ns(idx), FrameEvent::Overflow { channel, size: size as u16 })]
        },
    }
}

/// Shaped sample `i`, with the baseline taken off, reaches the threshold.
pub open spec fn above(s: Seq<i64>, base: int, threshold: i16, i: int) -> bool {
    0 <= i < s.len() && s[i] - base >= threshold * SCALE
}

/// An event begins at `i`: the sample reaches the threshold and the one
/// before it does not.
pub open spec fn rising(s: Seq<i64>, base: int, threshold: i16, i: int) -> bool {
    above(s, base, threshold, i) && (i == 0 || !above(s, base, threshold, i - 1))
}

/// The shaped sample at which the discharge begins; no sample without a
/// discharge.
pub open spec fn reset_stop(reset: Option<(int, int)>, offset: int) -> int {
    match reset {
        Some((rs, _)) => rs - offset,
        None => -1,
    }
}

/// The first place at or after `e` where a run of samples above the
/// threshold ends: the end of the trace, the begin of the discharge, or a
/// sample below the threshold.
pub open spec fn run_end(s: Seq<i64>, base: int, threshold: i16, stop: int, e: int) -> int
    decreases s.len() - e,
{
    if e < 0 || e >= s.len() || e == stop || !above(s, base, threshold, e) {
        e
    } else {
        run_end(s, base, threshold, stop, e + 1)
    }
}

/// Sum of the shaped samples `s[lo..hi]`, each with the baseline taken off.
pub open spec fn energy(s: Seq<i64>, base: int, lo: int, hi: int) -> int
    decreases hi - lo,
{
    if hi <= lo {
        0
    } else {
        energy(s, base, lo, hi - 1) + (s[hi - 1] - base)
    }
}

/// The record of the run of shaped samples `start..end`: it stands at the
/// waveform sample `start + offset`, and its amplitude is the energy of the
/// run over the length of the shaper.
pub open spec fn trapezoid_event(
    s: Seq<i64>,
    base: int,
    channel: u8,
    offset: int,
    start: int,
    end: int,
) -> NumassEvent {
    (
        offset_ns(start + offset),
        FrameEvent::Event {
            channel,
            amplitude: clamp(energy(s, base, start, end) / offset),
            size: (end - start) as u16,
        },
    )
}

/// Where the search goes on from shaped sample `i`: behind the discharge if
/// it begins at `i`, else at `i` itself.
pub open spec fn jump_target(reset: Option<(int, int)>, offset: int, i: int) -> int {
    match reset {
        Some((rs, re)) => if i + offset == rs && re - offset > i {
            re - offset
        } else {
            i
        },
        None => i,
    }
}

/// The events that the search finds in the shaped trace `s` from sample `i`
/// on. At the begin of the discharge the search goes on behind its end. A
/// run that begins at `i` is followed to its end, recorded if it is
/// `min_length` long or longer, and the search goes on behind it.
pub open spec fn scan_events(
    s: Seq<i64>,
    base: int,
    threshold: i16,
    min_length: int,
    channel: u8,
    offset: int,
    reset: Option<(int, int)>,
    i: int,
) -> Seq<NumassEvent>
    decreases s.len() - i,
{
    if i < 0 || i >= s.len() {
        Seq::empty()
    } else if jump_target(reset, offset, i) > i {
        if jump_target(reset, offset, i) >= s.len() {
            Seq::empty()
        } else {
            scan_events(
                s,
                base,
                threshold,
                min_length,
                channel,
                offset,
                reset,
                jump_target(reset, offset, i),
            )
        }
    } else if rising(s, base, threshold, i) {
        let e = run_end(s, base, threshold, reset_stop(reset, offset), i + 1);
        if e <= i || e > s.len() {
            Seq::empty()
        } else {
            let rest = scan_events(s, base, threshold, min_length, channel, offset, reset, e);
            if e - i >= min_length {
                seq![trapezoid_event(s, base, channel, offset, i, e)] + rest
            } else {
                rest
            }
        }
    } else {
        scan_events(s, base, threshold, min_length, channel, offset, reset, i + 1)
    }
}

/// The events of one channel under the trapezoid algorithm: its overflow
/// record, then the events found in its shaped trace.
pub open spec fn trapezoid_events(
    channel: u8,
    w: Seq<i16>,
    left: int,
    center: int,
    right: int,
    threshold: i16,
    min_length: int,
    base: int,
    reset: Option<(int, int)>,
) -> Seq<NumassEvent> {
    overflow_events(channel, w, reset) + scan_events(
        shaped(w, left, center, right),
        base,
        threshold,
        min_length,
        channel,
        left + center + right,
        reset,
        0,
    )
}

/// A run ends at or behind the place where it is looked for, and within the
/// trace.
pub proof fn lemma_run_end(s: Seq<i64>, base: int, threshold: i16, stop: int, e: int)
    requires
        0 <= e <= s.len(),
    ensures
        e <= run_end(s, base, threshold, stop, e) <= s.len(),
    decreases s.len() - e,
{
    if !(e >= s.len() || e == stop || !above(s, base, threshold, e)) {
        lemma_run_end(s, base, threshold, stop, e + 1);
    }
}

/// First place of `code` in the waveform.
fn find_code(w: &[i16], code: i16) -> (pos: Option<usize>)
    ensures
        match pos {
            Some(p) => first_code_from(w@, code, 0) == Some(p as int) && p < w@.len(),
            None => first_code_from(w@, code, 0).is_none(),
        },
{
    let mut i: usize = 0;
    while i < w.len()
        invariant
            i <= w@.len(),
            first_code_from(w@, code, 0) == first_code_from(w@, code, i as int),
        decreases w.len() - i,
    {
        if w[i] == code {
            return Some(i);
        }
        i += 1;
    }
    None
}

/// Appends the overflow record of a channel, and says whether there is one.
fn overflow_channel(
    channel: u8,
    w: &[i16],
    reset: Option<(usize, usize)>,
    events: &mut Vec<NumassEvent>,
) -> (found: bool)
    requires
        w@.len() <= MAX_SAMPLES,
        reset matches Some((rs, _)) ==> rs < MAX_SAMPLES,
    ensures
        final(events)@ == old(events)@ + overflow_events(channel, w@, interval_view(reset)),
        found == overflow_start(channel, w@).is_some(),
{
    let pos = if channel == 1 {
        find_code(w, OVERFLOW_CODE_CH1)
    } else if channel == 5 {
        find_code(w, OVERFLOW_CODE_CH5)
    } else {
        None
    };
    match pos {
        None => {
            assert(events@ =~= events@ + overflow_events(channel, w@, interval_view(reset)));
            false
        },
        Some(idx) => {
            let end: usize = match reset {
                Some((rs, _)) => rs,
                None => w.len(),
            };
            let size: usize = if end >= idx {
                end - idx
            } else {
                idx - end
            };
            let e: NumassEvent = (
                (idx * 8) as u16,
                FrameEvent::Overflow { channel, size: size as u16 },
            );
            events.push(e);
            assert(events@ =~= old(events)@ + overflow_events(channel, w@, interval_view(reset)));
            true
        },
    }
}

/// Appends the events found in the shaped trace of one channel.
fn scan_channel(
    channel: u8,
    s: &Vec<i64>,
    base: i64,
    threshold: i16,
    min_length: usize,
    offset: usize,
    reset: Option<(usize, usize)>,
    events: &mut Vec<NumassEvent>,
)
    requires
        0 < offset,
        s@.len() + offset <= MAX_SAMPLES + 1,
        reset matches Some((rs, re)) ==> rs <= re,
    ensures
        final(events)@ == old(events)@ + scan_events(
            s@,
            base as int,
            threshold,
            min_length as int,
            channel,
            offset as int,
            interval_view(reset),
            0,
        ),
{
    let n = s.len();
    let limit: i128 = threshold as i128 * SCALE as i128;
    let ghost r = interval_view(reset);
    let ghost stop = reset_stop(r, offset as int);
    let mut i: usize = 0;
    while i < n
        invariant
            n == s@.len(),
            0 < offset,
            n + offset <= MAX_SAMPLES + 1,
            limit == threshold * SCALE,
            r == interval_view(reset),
            stop == reset_stop(r, offset as int),
            reset matches Some((rs, re)) ==> rs <= re,
            events@ + scan_events(
                s@,
                base as int,
                threshold,
                min_length as int,
                channel,
                offset as int,
                r,
                i as int,
            ) == old(events)@ + scan_events(
                s@,
                base as int,
                threshold,
                min_length as int,
                channel,
                offset as int,
                r,
                0,
            ),
        decreases n + (if i <= n { n - i } else { 0 }),
    {
        if let Some((rs, re)) = reset {
            if i + offset == rs && re - offset > i {
                i = if re - offset > n { n } else { re - offset };
                proof {
                    // beyond the trace nothing is found, wherever the search stands
                    assert(scan_events(
                        s@,
                        base as int,
                        threshold,
                        min_length as int,
                        channel,
                        offset as int,
                        r,
                        re - offset,
                    ) == scan_events(
                        s@,
                        base as int,
                        threshold,
                        min_length as int,
                        channel,
                        offset as int,
                        r,
                        i as int,
                    ));
                }
                continue ;
            }
        }
        let here: bool = s[i] as i128 - base as i128 >= limit;
        let before: bool = i > 0 && s[i - 1] as i128 - base as i128 >= limit;
        if here && !before {
            let mut total: i128 = s[i] as i128 - base as i128;
            let mut end: usize = i + 1;
            proof {
                assert(energy(s@, base as int, i as int, i as int) == 0);
            }
            while end < n && !(reset.is_some() && end + offset == reset.unwrap().0) && s[end] as i128
                - base as i128 >= limit
                invariant
                    i < end <= n,
                    n == s@.len(),
                    n + offset <= MAX_SAMPLES + 1,
                    limit == threshold * SCALE,
                    r == interval_view(reset),
                    stop == reset_stop(r, offset as int),
                    total == energy(s@, base as int, i as int, end as int),
                    -0x1_0000_0000_0000_0000 * (end - i) <= total <= 0x1_0000_0000_0000_0000 * (end
                        - i),
                    run_end(s@, base as int, threshold, stop, end as int) == run_end(
                        s@,
                        base as int,
                        threshold,
                        stop,
                        i + 1,
                    ),
                decreases n - end,
            {
                total = total + (s[end] as i128 - base as i128);
                end += 1;
            }
            proof {
                assert(run_end(s@, base as int, threshold, stop, end as int) == end);
            }
            if end - i >= min_length {
                let amplitude = saturate(div_floor(total, offset as i128));
                let e: NumassEvent = (
                    ((i + offset) * 8) as u16,
                    FrameEvent::Event { channel, amplitude, size: (end - i) as u16 },
                );
                proof {
                    let rest = scan_events(
                        s@,
                        base as int,
                        threshold,
                        min_length as int,
                        channel,
                        offset as int,
                        r,
                        end as int,
                    );
                    assert(e == trapezoid_event(
                        s@,
                        base as int,
                        channel,
                        offset as int,
                        i as int,
                        end as int,
                    ));
                    assert(events@.push(e) + rest =~= events@ + (seq![e] + rest));
                }
                events.push(e);
            }
            i = end;
        } else {
            i += 1;
        }
    }
    proof {
        assert(events@ + Seq::<NumassEvent>::empty() =~= events@);
    }
}

// ---------------------------------------------------------------------------
// Events of a frame
// ---------------------------------------------------------------------------

/// The discharge interval that an algorithm sees in a frame; only the
/// trapezoid and LongDiff algorithms look for one.
pub open spec fn algorithm_reset(algorithm: Algorithm, frame: Seq<(u8, Seq<i16>)>) -> Option<
    (int, int),
> {
    match algorithm {
        Algorithm::Trapezoid { reset_detection, .. } => frame_reset(frame, reset_detection),
        Algorithm::LongDiff { reset_detection } => frame_reset(frame, reset_detection),
        _ => None,
    }
}

/// The events that an algorithm finds in one channel.
pub open spec fn channel_events(
    algorithm: Algorithm,
    baseline: Option<[i64; 7]>,
    reset: Option<(int, int)>,
    channel: u8,
    w: Seq<i16>,
) -> Seq<NumassEvent> {
    match algorithm {
        Algorithm::Max => max_events(channel, w),
        Algorithm::Likhovid { left, right } => likhovid_events(
            channel,
            w,
            left as int,
            right as int,
        ),
        Algorithm::FirstPeak { threshold, left } => first_peak_events(
            channel,
            w,
            threshold,
            left as int,
        ),
        Algorithm::Trapezoid { left, center, right, treshold, min_length, .. } => trapezoid_events(
            channel,
            w,
            left as int,
            center as int,
            right as int,
            treshold,
            min_length as int,
            baseline_of(baseline, channel),
            reset,
        ),
        Algorithm::LongDiff { .. } => if reset.is_some() {
            Seq::empty()
        } else {
            long_diff_events(channel, w, baseline_of(baseline, channel))
        },
    }
}

/// The events of the first `k` channels of a frame, channel after channel.
pub open spec fn events_upto(
    algorithm: Algorithm,
    baseline: Option<[i64; 7]>,
    reset: Option<(int, int)>,
    frame: Seq<(u8, Seq<i16>)>,
    k: int,
) -> Seq<NumassEvent>
    decreases k,
{
    if k <= 0 {
        Seq::empty()
    } else {
        events_upto(algorithm, baseline, reset, frame, k - 1) + channel_events(
            algorithm,
            baseline,
            reset,
            frame[k - 1].0,
            frame[k - 1].1,
        )
    }
}

/// One of the first `k` channels saturates.
pub open spec fn overflow_upto(frame: Seq<(u8, Seq<i16>)>, k: int) -> bool
    decreases k,
{
    if k <= 0 {
        false
    } else {
        overflow_upto(frame, k - 1) || overflow_start(frame[k - 1].0, frame[k - 1].1).is_some()
    }
}

/// The record of the discharge: it stands at the begin of the interval and
/// holds its length.
pub open spec fn reset_events(reset: Option<(int, int)>) -> Seq<NumassEvent> {
    match reset {
        None => Seq::empty(),
        Some((rs, re)) => seq![(offset_ns(rs), FrameEvent::Reset { size: (re - rs) as u16 })],
    }
}

/// A frame is bad when it holds a discharge or a channel of it saturates.
pub open spec fn bad_frame(algorithm: Algorithm, frame: Seq<(u8, Seq<i16>)>) -> bool {
    algorithm_reset(algorithm, frame).is_some() || overflow_upto(frame, frame.len() as int)
}

/// The frame is handed on: the trapezoid algorithm can be told to drop the
/// bad frames or the good ones.
pub open spec fn frame_kept(algorithm: Algorithm, frame: Seq<(u8, Seq<i16>)>) -> bool {
    match algorithm {
        Algorithm::Trapezoid { skip, .. } => match skip {
            SkipOption::Nothing => true,
            SkipOption::Bad => !bad_frame(algorithm, frame),
            SkipOption::Good => bad_frame(algorithm, frame),
        },
        _ => true,
    }
}

/// The events of a frame in the order in which they are found: those of each
/// channel, then the record of the discharge; none if the frame is not
/// handed on.
pub open spec fn unsorted_events(
    algorithm: Algorithm,
    baseline: Option<[i64; 7]>,
    frame: Seq<(u8, Seq<i16>)>,
) -> Seq<NumassEvent> {
    let reset = algorithm_reset(algorithm, frame);
    if frame_kept(algorithm, frame) {
        events_upto(algorithm, baseline, reset, frame, frame.len() as int) + reset_events(reset)
    } else {
        Seq::empty()
    }
}

/// The events of a frame, by ascending offset.
pub open spec fn frame_events(
    algorithm: Algorithm,
    baseline: Option<[i64; 7]>,
    frame: Seq<(u8, Seq<i16>)>,
) -> Seq<NumassEvent> {
    sort_by_offset(unsorted_events(algorithm, baseline, frame))
}

/// The baseline that a preprocessing result gives, if there is one.
pub open spec fn baseline_in(preprocess: Option<&Preprocess>) -> Option<[i64; 7]> {
    match preprocess {
        Some(p) => p.baseline,
        None => None,
    }
}

/// Baseline of a channel, zero where none is known.
fn channel_baseline(baseline: &Option<[i64; 7]>, channel: u8) -> (base: i64)
    ensures
        base == baseline_of(*baseline, channel),
{
    match baseline {
        Some(b) => if channel < 7 {
            b[channel as usize]
        } else {
            0
        },
        None => 0,
    }
}

/// Appends the events of one channel under the trapezoid algorithm, and
/// says whether the channel saturates.
fn trapezoid_channel(
    channel: u8,
    w: &[i16],
    left: usize,
    center: usize,
    right: usize,
    threshold: i16,
    min_length: usize,
    base: i64,
    reset: Option<(usize, usize)>,
    events: &mut Vec<NumassEvent>,
) -> (overflow: bool)
    requires
        w@.len() <= MAX_SAMPLES,
        reset matches Some((rs, re)) ==> rs < MAX_SAMPLES && rs <= re,
    ensures
        final(events)@ == old(events)@ + trapezoid_events(
            channel,
            w@,
            left as int,
            center as int,
            right as int,
            threshold,
            min_length as int,
            base as int,
            interval_view(reset),
        ),
        overflow == overflow_start(channel, w@).is_some(),
{
    let overflow = overflow_channel(channel, w, reset, events);
    let ghost mid = events@;
    let s = emulate_fir(w, right, center, left);
    if s.len() > 0 {
        scan_channel(channel, &s, base, threshold, min_length, left + center + right, reset, events);
    }
    proof {
        let found = scan_events(
            s@,
            base as int,
            threshold,
            min_length as int,
            channel,
            left + center + right,
            interval_view(reset),
            0,
        );
        assert(events@ =~= mid + found);
        assert(events@ =~= old(events)@ + (overflow_events(channel, w@, interval_view(reset))
            + found));
    }
    overflow
}

/// Extracts the events of one frame with the given algorithm. The result
/// holds, by ascending offset, the events of each channel and, for the
/// algorithms that look for one, the record of the frame's discharge.
/// Offsets are in nanoseconds from the frame start, eight for each sample.
pub fn frame_to_events(
    frame: &NumassFrame,
    algorithm: &Algorithm,
    preprocess: Option<&Preprocess>,
) -> (events: Vec<NumassEvent>)
    requires
        frame_wf(frame@),
        algorithm.wf(),
    ensures
        events@ == frame_events(*algorithm, baseline_in(preprocess), frame_model(frame@)),
        offsets_ascend(events@),
        forall|j: int|
            0 <= j < events@.len() ==> placed(
                #[trigger] events@[j],
                longest(frame_model(frame@), frame@.len() as int),
                places_strictly(*algorithm),
            ),
        resets(events@) == (if frame_kept(*algorithm, frame_model(frame@)) && algorithm_reset(
            *algorithm,
            frame_model(frame@),
        ).is_some() {
            1nat
        } else {
            0nat
        }),
{
    let baseline: Option<[i64; 7]> = match preprocess {
        Some(p) => p.baseline,
        None => None,
    };
    let reset: Option<(usize, usize)> = match algorithm {
        Algorithm::Trapezoid { reset_detection, .. } => detect_reset(frame, reset_detection),
        Algorithm::LongDiff { reset_detection } => detect_reset(frame, reset_detection),
        _ => None,
    };
    let ghost r = interval_view(reset);
    let mut events: Vec<NumassEvent> = Vec::new();
    let mut overflow = false;
    let mut k: usize = 0;
    while k < frame.len()
        invariant
            k <= frame.len(),
            frame_wf(frame@),
            r == interval_view(reset),
            reset matches Some((rs, re)) ==> rs < MAX_SAMPLES && rs <= re,
            events@ == events_upto(*algorithm, baseline, r, frame_model(frame@), k as int),
            algorithm is Trapezoid ==> overflow == overflow_upto(frame_model(frame@), k as int),
        decreases frame.len() - k,
    {
        let channel = frame[k].0;
        let w = frame[k].1.as_slice();
        let base = channel_baseline(&baseline, channel);
        match algorithm {
            Algorithm::Max => {
                max_channel(channel, w, &mut events);
            },
            Algorithm::Likhovid { left, right } => {
                likhovid_channel(channel, w, *left, *right, &mut events);
            },
            Algorithm::FirstPeak { threshold, left } => {
                first_peak_channel(channel, w, *threshold, *left, &mut events);
            },
            Algorithm::Trapezoid { left, center, right, treshold, min_length, .. } => {
                let found = trapezoid_channel(
                    channel,
                    w,
                    *left,
                    *center,
                    *right,
                    *treshold,
                    *min_length,
                    base,
                    reset,
                    &mut events,
                );
                overflow = overflow || found;
            },
            Algorithm::LongDiff { .. } => {
                if reset.is_none() {
                    long_diff_channel(channel, w, base, &mut events);
                } else {
                    assert(events@ =~= events@ + Seq::<NumassEvent>::empty());
                }
            },
        }
        k += 1;
    }
    assert(r == algorithm_reset(*algorithm, frame_model(frame@)));
    let ghost all = events_upto(*algorithm, baseline, r, frame_model(frame@), frame@.len() as int)
        + reset_events(r);
    if let Some((rs, re)) = reset {
        events.push(((rs * 8) as u16, FrameEvent::Reset { size: (re - rs) as u16 }));
    }
    assert(events@ =~= all);
    let bad = reset.is_some() || overflow;
    let kept = match algorithm {
        Algorithm::Trapezoid { skip, .. } => match skip {
            SkipOption::Nothing => true,
            SkipOption::Bad => !bad,
            SkipOption::Good => bad,
        },
        _ => true,
    };
    assert(kept == frame_kept(*algorithm, frame_model(frame@)));
    if !kept {
        events = Vec::new();
    }
    assert(events@ =~= unsorted_events(*algorithm, baseline, frame_model(frame@)));
    proof {
        lemma_frame_events_placed(*algorithm, baseline, frame_model(frame@));
    }
    sort_events(&events)
}

// ---------------------------------------------------------------------------
// Calibration
// ---------------------------------------------------------------------------

/// The calibration line of a channel under an algorithm: slope and offset.
pub open spec fn kev_line(algorithm: Algorithm, channel: u8) -> (int, int) {
    match algorithm {
        Algorithm::Max => (KEV_COEFF_MAX[channel as int][0] as int, KEV_COEFF_MAX[channel as int][1] as int),
        Algorithm::Likhovid { .. } => (
            KEV_COEFF_LIKHOVID[channel as int][0] as int,
            KEV_COEFF_LIKHOVID[channel as int][1] as int,
        ),
        Algorithm::FirstPeak { .. } => (
            KEV_COEFF_FIRST_PEAK[channel as int][0] as int,
            KEV_COEFF_FIRST_PEAK[channel as int][1] as int,
        ),
        Algorithm::Trapezoid { .. } => (
            KEV_COEFF_TRAPEZIOD[channel as int][0] as int,
            KEV_COEFF_TRAPEZIOD[channel as int][1] as int,
        ),
        Algorithm::LongDiff { .. } => (
            KEV_COEFF_LONGDIFF[channel as int][0] as int,
            KEV_COEFF_LONGDIFF[channel as int][1] as int,
        ),
    }
}

/// An amplitude in kiloelectronvolts: slope times amplitude plus offset,
/// rounded down to millionths. The amplitude of a channel above 6 stays as
/// it is.
pub open spec fn kev(algorithm: Algorithm, channel: u8, amplitude: i64) -> i64 {
    if channel < 7 {
        clamp(
            (kev_line(algorithm, channel).0 * amplitude + kev_line(algorithm, channel).1 * SCALE)
                / (COEFF_SCALE as int),
        )
    } else {
        amplitude
    }
}

/// Turns an amplitude into kiloelectronvolts with the calibration line of
/// its channel under the algorithm.
pub fn convert_to_kev(amplitude: &i64, ch_id: u8, algorithm: &Algorithm) -> (r: i64)
    ensures
        r == kev(*algorithm, ch_id, *amplitude),
{
    if ch_id >= 7 {
        return *amplitude;
    }
    let c = ch_id as usize;
    let (a, b): (i64, i64) = match algorithm {
        Algorithm::Max => (KEV_COEFF_MAX[c][0], KEV_COEFF_MAX[c][1]),
        Algorithm::Likhovid { .. } => (KEV_COEFF_LIKHOVID[c][0], KEV_COEFF_LIKHOVID[c][1]),
        Algorithm::FirstPeak { .. } => (KEV_COEFF_FIRST_PEAK[c][0], KEV_COEFF_FIRST_PEAK[c][1]),
        Algorithm::Trapezoid { .. } => (KEV_COEFF_TRAPEZIOD[c][0], KEV_COEFF_TRAPEZIOD[c][1]),
        Algorithm::LongDiff { .. } => (KEV_COEFF_LONGDIFF[c][0], KEV_COEFF_LONGDIFF[c][1]),
    };
    assert(-0x4000_0000_0000_0000_0000_0000_0000_0000 <= a * *amplitude
        <= 0x4000_0000_0000_0000_0000_0000_0000_0000) by (nonlinear_arith)
        requires
            -0x8000_0000_0000_0000 <= a <= 0x8000_0000_0000_0000,
            -0x8000_0000_0000_0000 <= *amplitude <= 0x8000_0000_0000_0000,
    ;
    assert(-0x8000_0000_0000_0000_0000_0000 <= b * SCALE <= 0x8000_0000_0000_0000_0000_0000)
        by (nonlinear_arith)
        requires
            -0x8000_0000_0000_0000 <= b <= 0x8000_0000_0000_0000,
            SCALE == 1_000_000,
    ;
    let sum: i128 = a as i128 * *amplitude as i128 + b as i128 * SCALE as i128;
    saturate(div_floor(sum, COEFF_SCALE as i128))
}

/// Events with the amplitude of every physics event in kiloelectronvolts.
pub open spec fn kev_events(algorithm: Algorithm, s: Seq<NumassEvent>) -> Seq<NumassEvent> {
    Seq::new(
        s.len(),
        |i: int|
            match s[i].1 {
                FrameEvent::Event { channel, amplitude, size } => (
                    s[i].0,
                    FrameEvent::Event { channel, amplitude: kev(algorithm, channel, amplitude), size },
                ),
                _ => s[i],
            },
    )
}

/// The events of one frame of a point: extracted and, if asked for,
/// calibrated.
pub open spec fn point_frame_events(
    params: ProcessParams,
    baseline: Option<[i64; 7]>,
    frame: Seq<(u8, Seq<i16>)>,
) -> Seq<NumassEvent> {
    if params.convert_to_kev {
        kev_events(params.algorithm, frame_events(params.algorithm, baseline, frame))
    } else {
        frame_events(params.algorithm, baseline, frame)
    }
}

/// The events of the first `k` frames of a point: for every frame in which
/// something is found, its start time and its events.
pub open spec fn point_events(
    params: ProcessParams,
    baseline: Option<[i64; 7]>,
    m: Seq<(u64, Seq<(u8, Seq<i16>)>)>,
    k: int,
) -> Seq<(u64, Seq<NumassEvent>)>
    decreases k,
{
    if k <= 0 {
        Seq::empty()
    } else {
        let before = point_events(params, baseline, m, k - 1);
        let found = point_frame_events(params, baseline, m[k - 1].1);
        if found.len() > 0 {
            before.push((m[k - 1].0, found))
        } else {
            before
        }
    }
}

/// Extracts the events of a point: prepares it, brings its frames into the
/// order of their times, and extracts the events of every frame. With
/// `convert_to_kev` the amplitudes are calibrated. Frames without events
/// are left out.
pub fn extract_events(meta: Option<PointMeta>, point: Point, params: &ProcessParams) -> (r: Result<
    (NumassEvents, Preprocess),
    PointError,
>)
    requires
        params.algorithm.wf(),
    ensures
        match r {
            Ok((events, preprocess)) => {
                &&& point_error(meta.is_some(), point).is_none()
                &&& preprocess.is_of(meta.unwrap(), point, params.algorithm)
                &&& frames_view(events@) == point_events(
                    *params,
                    preprocess.baseline,
                    point_model(point),
                    point_model(point).len() as int,
                )
                &&& forall|k: int|
                    0 <= k < events@.len() ==> offsets_ascend((#[trigger] events@[k]).1@)
                &&& forall|k: int, j: int|
                    0 <= k < events@.len() && 0 <= j < events@[k].1@.len() ==> (
                    #[trigger] events@[k].1@[j]).0 % 8 == 0
                &&& times_ascend(frames_view(events@))
            },
            Err(e) => point_error(meta.is_some(), point) == Some(e),
        },
{
    let preprocess = match Preprocess::from_point(meta, &point, &params.algorithm) {
        Ok(p) => p,
        Err(e) => {
            return Err(e);
        },
    };
    let waveforms = match extract_waveforms(&point) {
        Ok(w) => w,
        Err(e) => {
            return Err(e);
        },
    };
    let ghost m = point_model(point);
    let mut events: NumassEvents = Vec::new();
    let mut k: usize = 0;
    while k < waveforms.len()
        invariant
            k <= waveforms@.len(),
            params.algorithm.wf(),
            waveforms_wf(waveforms@),
            m == waveforms_model(waveforms@),
            frames_view(events@) == point_events(*params, preprocess.baseline, m, k as int),
            forall|i: int| 0 <= i < events@.len() ==> offsets_ascend((#[trigger] events@[i]).1@),
            forall|i: int, j: int|
                0 <= i < events@.len() && 0 <= j < events@[i].1@.len() ==> (
                #[trigger] events@[i].1@[j]).0 % 8 == 0,
            forall|i: int, j: int| 0 <= i < j < events@.len() ==> events@[i].0 < events@[j].0,
            forall|i: int|
                0 <= i < events@.len() && k < waveforms@.len() ==> (#[trigger] events@[i]).0
                    < waveforms@[k as int].0,
        decreases waveforms.len() - k,
    {
        let time = waveforms[k].0;
        let frame = &waveforms[k].1;
        proof {
            assert(frame_wf(frame@));
            assert(m[k as int].1 == frame_model(frame@));
        }
        let mut found = frame_to_events(frame, &params.algorithm, Some(&preprocess));
        if params.convert_to_kev {
            found = calibrate(&params.algorithm, &found);
        }
        let ghost before = events@;
        if found.len() > 0 {
            events.push((time, found));
            proof {
                assert(frames_view(events@) =~= frames_view(before).push((time, found@)));
            }
        }
        proof {
            if k + 1 < waveforms@.len() {
                assert(waveforms@[k as int].0 < waveforms@[k + 1].0);
            }
        }
        k += 1;
    }
    proof {
        assert forall|i: int, j: int| 0 <= i < j < events@.len() implies frames_view(events@)[i].0
            < frames_view(events@)[j].0 by {
            assert(events@[i].0 < events@[j].0);
        }
    }
    Ok((events, preprocess))
}

/// Calibrates the physics events.
fn calibrate(algorithm: &Algorithm, events: &Vec<NumassEvent>) -> (out: Vec<NumassEvent>)
    ensures
        out@ == kev_events(*algorithm, events@),
        out@.len() == events@.len(),
        forall|j: int| 0 <= j < out@.len() ==> (#[trigger] out@[j]).0 == events@[j].0,
        offsets_ascend(events@) ==> offsets_ascend(out@),
{
    let mut out: Vec<NumassEvent> = Vec::new();
    let mut i: usize = 0;
    while i < events.len()
        invariant
            i <= events@.len(),
            out@ == kev_events(*algorithm, events@).take(i as int),
        decreases events.len() - i,
    {
        let e = events[i];
        let moved: NumassEvent = match e.1 {
            FrameEvent::Event { channel, amplitude, size } => (
                e.0,
                FrameEvent::Event {
                    channel,
                    amplitude: convert_to_kev(&amplitude, channel, algorithm),
                    size,
                },
            ),
            _ => e,
        };
        out.push(moved);
        proof {
            assert(out@ =~= kev_events(*algorithm, events@).take(i + 1));
        }
        i += 1;
    }
    proof {
        let all = kev_events(*algorithm, events@);
        assert(all.take(all.len() as int) =~= all);
        if offsets_ascend(events@) {
            assert forall|a: int, b: int| 0 <= a < b < all.len() implies all[a].0 <= all[b].0 by {
                assert(all[a].0 == events@[a].0);
                assert(all[b].0 == events@[b].0);
            }
        }
    }
    out
}

// ---------------------------------------------------------------------------
// Where the events of a frame stand
// ---------------------------------------------------------------------------

/// Length of the longest waveform among the first `k` channels.
pub open spec fn longest(frame: Seq<(u8, Seq<i16>)>, k: int) -> int
    decreases k,
{
    if k <= 0 {
        0
    } else if frame[k - 1].1.len() > longest(frame, k - 1) {
        frame[k - 1].1.len() as int
    } else {
        longest(frame, k - 1)
    }
}

/// A physics event of one shaped sample.
pub open spec fn is_single(e: NumassEvent) -> bool {
    e.1 matches FrameEvent::Event { size, .. } && size == 1
}

/// The record stands at a sample: its offset is eight times the index of a
/// sample below `len`. Where `strict` is not set, a physics event of one
/// shaped sample may stand at `len` itself.
pub open spec fn placed(e: NumassEvent, len: int, strict: bool) -> bool {
    e.0 % 8 == 0 && (e.0 / 8 < len || (!strict && e.0 / 8 == len && is_single(e)))
}

/// All records of `s` are placed and none tells of a discharge.
pub open spec fn all_placed(s: Seq<NumassEvent>, len: int, strict: bool) -> bool {
    forall|j: int| 0 <= j < s.len() ==> placed(#[trigger] s[j], len, strict) && !(s[j].1 is Reset)
}

/// Number of records of a discharge.
pub open spec fn resets(s: Seq<NumassEvent>) -> nat
    decreases s.len(),
{
    if s.len() == 0 {
        0
    } else if s.last().1 is Reset {
        resets(s.drop_last()) + 1
    } else {
        resets(s.drop_last())
    }
}

/// Every algorithm but the trapezoid one places its events strictly within
/// the waveform; the trapezoid one does where an event is two shaped
/// samples long at least.
pub open spec fn places_strictly(algorithm: Algorithm) -> bool {
    match algorithm {
        Algorithm::Trapezoid { min_length, .. } => min_length >= 2,
        _ => true,
    }
}

/// No waveform of the frame is longer than [`MAX_SAMPLES`].
pub open spec fn samples_fit(frame: Seq<(u8, Seq<i16>)>) -> bool {
    forall|k: int| 0 <= k < frame.len() ==> (#[trigger] frame[k]).1.len() <= MAX_SAMPLES
}

/// Records without a discharge among them count none.
pub proof fn lemma_no_resets(s: Seq<NumassEvent>)
    requires
        forall|j: int| 0 <= j < s.len() ==> !((#[trigger] s[j]).1 is Reset),
    ensures
        resets(s) == 0,
    decreases s.len(),
{
    if s.len() > 0 {
        let t = s.drop_last();
        assert forall|j: int| 0 <= j < t.len() implies !((#[trigger] t[j]).1 is Reset) by {
            assert(t[j] == s[j]);
        }
        lemma_no_resets(t);
    }
}

/// The discharges of two lists in a row are those of both.
pub proof fn lemma_resets_concat(a: Seq<NumassEvent>, b: Seq<NumassEvent>)
    ensures
        resets(a + b) == resets(a) + resets(b),
    decreases b.len(),
{
    if b.len() == 0 {
        assert(a + b =~= a);
    } else {
        lemma_resets_concat(a, b.drop_last());
        assert((a + b).drop_last() =~= a + b.drop_last());
    }
}

/// Sorting keeps the number of discharges, and what holds of every record.
pub proof fn lemma_sort_keeps(s: Seq<NumassEvent>, len: int, strict: bool)
    ensures
        resets(sort_by_offset(s)) == resets(s),
        (forall|j: int| 0 <= j < s.len() ==> placed(#[trigger] s[j], len, strict)) ==> (forall|
            j: int,
        |
            0 <= j < sort_by_offset(s).len() ==> placed(
                #[trigger] sort_by_offset(s)[j],
                len,
                strict,
            )),
    decreases s.len(),
{
    if s.len() > 0 {
        let t = s.drop_last();
        lemma_sort_keeps(t, len, strict);
        lemma_insert_keeps(sort_by_offset(t), s.last(), len, strict);
        if forall|j: int| 0 <= j < s.len() ==> placed(#[trigger] s[j], len, strict) {
            assert forall|j: int| 0 <= j < t.len() implies placed(#[trigger] t[j], len, strict) by {
                assert(t[j] == s[j]);
            }
            assert(placed(s[s.len() - 1], len, strict));
        }
    }
}

/// Inserting a record adds its discharge, if it is one, and keeps what
/// holds of every record.
pub proof fn lemma_insert_keeps(s: Seq<NumassEvent>, e: NumassEvent, len: int, strict: bool)
    ensures
        resets(insert_sorted(s, e)) == resets(s) + (if e.1 is Reset {
            1nat
        } else {
            0nat
        }),
        (placed(e, len, strict) && forall|j: int|
            0 <= j < s.len() ==> placed(#[trigger] s[j], len, strict)) ==> (forall|j: int|
            0 <= j < insert_sorted(s, e).len() ==> placed(
                #[trigger] insert_sorted(s, e)[j],
                len,
                strict,
            )),
    decreases s.len(),
{
    if s.len() == 0 {
        assert(seq![e].drop_last() =~= s);
    } else if s.last().0 <= e.0 {
        assert(s.push(e).drop_last() =~= s);
    } else {
        let t = s.drop_last();
        lemma_insert_keeps(t, e, len, strict);
        let u = insert_sorted(t, e);
        assert(u.push(s.last()).drop_last() =~= u);
        if placed(e, len, strict) && forall|j: int|
            0 <= j < s.len() ==> placed(#[trigger] s[j], len, strict) {
            assert forall|j: int| 0 <= j < t.len() implies placed(#[trigger] t[j], len, strict) by {
                assert(t[j] == s[j]);
            }
            assert(placed(s[s.len() - 1], len, strict));
        }
    }
}

/// The events that the search finds stand at samples of the waveform and
/// are physics events.
pub proof fn lemma_scan_placed(
    s: Seq<i64>,
    base: int,
    threshold: i16,
    min_length: int,
    channel: u8,
    offset: int,
    reset: Option<(int, int)>,
    i: int,
    len: int,
)
    requires
        0 < offset,
        s.len() > 0,
        s.len() + offset == len + 1,
        len <= MAX_SAMPLES,
        0 <= i,
    ensures
        all_placed(
            scan_events(s, base, threshold, min_length, channel, offset, reset, i),
            len,
            min_length >= 2,
        ),
    decreases s.len() - i,
{
    let found = scan_events(s, base, threshold, min_length, channel, offset, reset, i);
    if i >= s.len() {
    } else if jump_target(reset, offset, i) > i {
        if jump_target(reset, offset, i) < s.len() {
            lemma_scan_placed(
                s,
                base,
                threshold,
                min_length,
                channel,
                offset,
                reset,
                jump_target(reset, offset, i),
                len,
            );
        }
    } else if rising(s, base, threshold, i) {
        let e = run_end(s, base, threshold, reset_stop(reset, offset), i + 1);
        lemma_run_end(s, base, threshold, reset_stop(reset, offset), i + 1);
        if e <= i || e > s.len() {
        } else {
            lemma_scan_placed(s, base, threshold, min_length, channel, offset, reset, e, len);
            let rest = scan_events(s, base, threshold, min_length, channel, offset, reset, e);
            if e - i >= min_length {
                let first = trapezoid_event(s, base, channel, offset, i, e);
                assert(first.0 == (i + offset) * 8);
                assert(first.0 / 8 == i + offset);
                if min_length >= 2 {
                    assert(i + 1 < s.len());
                }
                assert(placed(first, len, min_length >= 2));
                assert forall|j: int| 0 <= j < found.len() implies placed(
                    #[trigger] found[j],
                    len,
                    min_length >= 2,
                ) && !(found[j].1 is Reset) by {
                    if j > 0 {
                        assert(found[j] == rest[j - 1]);
                    }
                }
            }
        }
    } else {
        lemma_scan_placed(s, base, threshold, min_length, channel, offset, reset, i + 1, len);
    }
}

/// The place of an ADC code in a waveform is a place of the waveform.
pub proof fn lemma_first_code(w: Seq<i16>, code: i16, i: int)
    requires
        0 <= i,
    ensures
        first_code_from(w, code, i) matches Some(p) ==> i <= p < w.len(),
    decreases w.len() - i,
{
    if i < w.len() && w[i] != code {
        lemma_first_code(w, code, i + 1);
    }
}

/// The events of a channel stand at samples of its waveform, and none of
/// them tells of a discharge.
pub proof fn lemma_channel_placed(
    algorithm: Algorithm,
    baseline: Option<[i64; 7]>,
    reset: Option<(int, int)>,
    channel: u8,
    w: Seq<i16>,
)
    requires
        w.len() <= MAX_SAMPLES,
    ensures
        all_placed(
            channel_events(algorithm, baseline, reset, channel, w),
            w.len() as int,
            places_strictly(algorithm),
        ),
{
    match algorithm {
        Algorithm::Max => {
            if w.len() > 0 {
                lemma_last_max(w);
            }
        },
        Algorithm::Likhovid { .. } => {
            if w.len() > 0 {
                lemma_last_max(w);
            }
        },
        Algorithm::FirstPeak { threshold, .. } => {
            lemma_first_peak_from(w, threshold, 0);
        },
        Algorithm::Trapezoid { left, center, right, treshold, min_length, .. } => {
            let s = shaped(w, left as int, center as int, right as int);
            let found = scan_events(
                s,
                baseline_of(baseline, channel),
                treshold,
                min_length as int,
                channel,
                left + center + right,
                reset,
                0,
            );
            if s.len() > 0 {
                lemma_scan_placed(
                    s,
                    baseline_of(baseline, channel),
                    treshold,
                    min_length as int,
                    channel,
                    left + center + right,
                    reset,
                    0,
                    w.len() as int,
                );
            }
            let over = overflow_events(channel, w, reset);
            if overflow_start(channel, w).is_some() {
                lemma_first_code(w, overflow_code(channel).unwrap(), 0);
            }
            let all = over + found;
            assert forall|j: int| 0 <= j < all.len() implies placed(
                #[trigger] all[j],
                w.len() as int,
                min_length >= 2,
            ) && !(all[j].1 is Reset) by {
                if j >= over.len() {
                    assert(all[j] == found[j - over.len()]);
                } else {
                    assert(all[j] == over[j]);
                }
            }
        },
        Algorithm::LongDiff { .. } => {},
    }
}

/// The longest waveform is as long as each of them.
pub proof fn lemma_longest(frame: Seq<(u8, Seq<i16>)>, k: int, c: int)
    requires
        0 <= c < k <= frame.len(),
    ensures
        frame[c].1.len() <= longest(frame, k),
    decreases k,
{
    if c < k - 1 {
        lemma_longest(frame, k - 1, c);
    }
}

/// The events of the channels of a frame stand at samples of its longest
/// waveform, and none of them tells of a discharge.
pub proof fn lemma_events_upto_placed(
    algorithm: Algorithm,
    baseline: Option<[i64; 7]>,
    reset: Option<(int, int)>,
    frame: Seq<(u8, Seq<i16>)>,
    k: int,
)
    requires
        samples_fit(frame),
        0 <= k <= frame.len(),
    ensures
        all_placed(
            events_upto(algorithm, baseline, reset, frame, k),
            longest(frame, frame.len() as int),
            places_strictly(algorithm),
        ),
    decreases k,
{
    if k > 0 {
        lemma_events_upto_placed(algorithm, baseline, reset, frame, k - 1);
        lemma_channel_placed(algorithm, baseline, reset, frame[k - 1].0, frame[k - 1].1);
        lemma_longest(frame, frame.len() as int, k - 1);
        let a = events_upto(algorithm, baseline, reset, frame, k - 1);
        let b = channel_events(algorithm, baseline, reset, frame[k - 1].0, frame[k - 1].1);
        let all = a + b;
        assert forall|j: int| 0 <= j < all.len() implies placed(
            #[trigger] all[j],
            longest(frame, frame.len() as int),
            places_strictly(algorithm),
        ) && !(all[j].1 is Reset) by {
            if j >= a.len() {
                assert(all[j] == b[j - a.len()]);
                assert(placed(b[j - a.len()], frame[k - 1].1.len() as int, places_strictly(algorithm)));
            } else {
                assert(all[j] == a[j]);
            }
        }
    }
}

/// Every record of a frame stands at a sample of the frame: its offset is
/// eight times an index into the longest waveform. The one exception is a
/// physics event of the trapezoid algorithm that is one shaped sample long
/// and begins at the last shaped sample of a longest waveform: it stands at
/// the end of that waveform. There is none where events are two samples long
/// at least. And a frame that is handed on holds one record of its discharge
/// if it has one, and none if it has not.
pub proof fn lemma_frame_events_placed(
    algorithm: Algorithm,
    baseline: Option<[i64; 7]>,
    frame: Seq<(u8, Seq<i16>)>,
)
    requires
        samples_fit(frame),
        algorithm.wf(),
    ensures
        forall|j: int|
            0 <= j < frame_events(algorithm, baseline, frame).len() ==> placed(
                #[trigger] frame_events(algorithm, baseline, frame)[j],
                longest(frame, frame.len() as int),
                places_strictly(algorithm),
            ),
        resets(frame_events(algorithm, baseline, frame)) == (if frame_kept(algorithm, frame)
            && algorithm_reset(algorithm, frame).is_some() {
            1nat
        } else {
            0nat
        }),
{
    let reset = algorithm_reset(algorithm, frame);
    let len = longest(frame, frame.len() as int);
    let strict = places_strictly(algorithm);
    let unsorted = unsorted_events(algorithm, baseline, frame);
    lemma_sort_keeps(unsorted, len, strict);
    if frame_kept(algorithm, frame) {
        let found = events_upto(algorithm, baseline, reset, frame, frame.len() as int);
        lemma_events_upto_placed(algorithm, baseline, reset, frame, frame.len() as int);
        lemma_no_resets(found);
        lemma_resets_concat(found, reset_events(reset));
        match reset {
            Some((rs, re)) => {
                let params = match algorithm {
                    Algorithm::Trapezoid { reset_detection, .. } => reset_detection,
                    Algorithm::LongDiff { reset_detection } => reset_detection,
                    _ => HWResetParams { window: 0, treshold: 0, size: 0 },
                };
                lemma_reset_upto(frame, params, frame.len() as int);
                let c = choose|c: int|
                    0 <= c < frame.len() && rs + params.window < (#[trigger] frame[c]).1.len();
                lemma_longest(frame, frame.len() as int, c);
                let record = reset_events(reset)[0];
                assert(record.0 == rs * 8);
                assert(placed(record, len, strict));
                assert(reset_events(reset).drop_last() =~= Seq::<NumassEvent>::empty());
                assert(reset_events(reset).last() == record);
                assert(record.1 is Reset);
                assert(resets(Seq::<NumassEvent>::empty()) == 0);
                assert(resets(reset_events(reset)) == 1);
            },
            None => {},
        }
        assert forall|j: int| 0 <= j < unsorted.len() implies placed(
            #[trigger] unsorted[j],
            len,
            strict,
        ) by {
            if j < found.len() {
                assert(unsorted[j] == found[j]);
            } else {
                assert(unsorted[j] == reset_events(reset)[j - found.len()]);
            }
        }
    }
}

} // verus!
