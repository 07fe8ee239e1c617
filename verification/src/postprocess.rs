//! Postprocessing: what is done with the events of a point after they have
//! been extracted.

use vstd::prelude::*;

use crate::constants::{shares_border, CENTRAL_CHANNEL};
use crate::fixed::{clamp, saturate};
use crate::preprocess::{Preprocess, CUTOFF_BIN_SIZE};
use crate::types::{frames_view, times_ascend, FrameEvent, NumassEvent, NumassEvents};

verus! {

/// The channels whose events are dropped.
#[derive(PartialEq, Clone, Copy, Debug, Hash)]
pub struct ChannelIgnore {
    pub ch1: bool,
    pub ch2: bool,
    pub ch3: bool,
    pub ch4: bool,
    pub ch5: bool,
    pub ch6: bool,
    pub ch7: bool,
}

impl ChannelIgnore {
    /// Whether the channel with this index is dropped; an index that names
    /// no channel is not.
    pub open spec fn masks(self, channel: u8) -> bool {
        if channel == 0 {
            self.ch1
        } else if channel == 1 {
            self.ch2
        } else if channel == 2 {
            self.ch3
        } else if channel == 3 {
            self.ch4
        } else if channel == 4 {
            self.ch5
        } else if channel == 5 {
            self.ch6
        } else if channel == 6 {
            self.ch7
        } else {
            false
        }
    }

    /// No channel is dropped.
    pub open spec fn is_clear(self) -> bool {
        !self.ch1 && !self.ch2 && !self.ch3 && !self.ch4 && !self.ch5 && !self.ch6 && !self.ch7
    }

    /// The flags by channel index.
    pub fn to_array(self) -> (a: [bool; 7])
        ensures
            forall|c: u8| c < 7 ==> a[c as int] == self.masks(c),
    {
        [self.ch1, self.ch2, self.ch3, self.ch4, self.ch5, self.ch6, self.ch7]
    }

    /// The flags of an array by channel index.
    pub fn from_array(value: [bool; 7]) -> (m: Self)
        ensures
            forall|c: u8| c < 7 ==> value[c as int] == m.masks(c),
    {
        ChannelIgnore {
            ch1: value[0],
            ch2: value[1],
            ch3: value[2],
            ch4: value[3],
            ch5: value[4],
            ch6: value[5],
            ch7: value[6],
        }
    }

    /// Whether the channel with this index is dropped.
    pub fn is_masked(&self, channel: u8) -> (b: bool)
        ensures
            b == self.masks(channel),
    {
        if channel == 0 {
            self.ch1
        } else if channel == 1 {
            self.ch2
        } else if channel == 2 {
            self.ch3
        } else if channel == 3 {
            self.ch4
        } else if channel == 4 {
            self.ch5
        } else if channel == 5 {
            self.ch6
        } else if channel == 6 {
            self.ch7
        } else {
            false
        }
    }
}

impl Default for ChannelIgnore {
    fn default() -> (m: Self)
        ensures
            m.is_clear(),
    {
        ChannelIgnore {
            ch1: false,
            ch2: false,
            ch3: false,
            ch4: false,
            ch5: false,
            ch6: false,
            ch7: false,
        }
    }
}

/// What postprocessing does.
#[derive(PartialEq, Clone, Copy, Debug, Hash)]
pub struct PostProcessParams {
    /// Drop the frames that begin in a bad block.
    pub cut_bad_blocks: bool,
    /// Join a frame to the one before it where they begin less than this
    /// many nanoseconds apart.
    pub merge_frames: Option<u16>,
    /// Let the central pixel collect the events around its own before
    /// neighbours are merged.
    pub merge_splits_first: bool,
    /// Merge the events of neighbouring pixels within a frame.
    pub merge_close_events: bool,
    /// Take every two pixels for neighbours.
    pub ignore_borders: bool,
    /// Channels whose events are dropped at the end.
    pub ignore_channels: ChannelIgnore,
}

impl Default for PostProcessParams {
    fn default() -> (p: Self)
        ensures
            p.cut_bad_blocks,
            p.merge_frames.is_none(),
            !p.merge_splits_first,
            p.merge_close_events,
            !p.ignore_borders,
            p.ignore_channels.is_clear(),
    {
        PostProcessParams {
            cut_bad_blocks: true,
            merge_frames: None,
            merge_splits_first: false,
            merge_close_events: true,
            ignore_borders: false,
            ignore_channels: ChannelIgnore::default(),
        }
    }
}

// ---------------------------------------------------------------------------
// Neighbours
// ---------------------------------------------------------------------------

/// Two channels are neighbours if they are the same, if one of them is the
/// central one, or if they share an edge.
pub open spec fn neighbours(a: u8, b: u8) -> bool {
    ||| a == b
    ||| a == CENTRAL_CHANNEL
    ||| b == CENTRAL_CHANNEL
    ||| shares_border(if a < b { a } else { b }, if a < b { b } else { a })
}

/// Whether charge can be shared between two channels.
pub fn is_neighbour(ch_1: u8, ch_2: u8) -> (b: bool)
    ensures
        b == neighbours(ch_1, ch_2),
{
    if ch_1 == ch_2 {
        return true;
    }
    if ch_1 == CENTRAL_CHANNEL || ch_2 == CENTRAL_CHANNEL {
        return true;
    }
    let lo = if ch_1 < ch_2 {
        ch_1
    } else {
        ch_2
    };
    let hi = if ch_1 < ch_2 {
        ch_2
    } else {
        ch_1
    };
    let mut k: usize = 0;
    while k < 8
        invariant
            k <= 8,
            ch_1 != ch_2,
            ch_1 != CENTRAL_CHANNEL,
            ch_2 != CENTRAL_CHANNEL,
            lo == (if ch_1 < ch_2 { ch_1 } else { ch_2 }),
            hi == (if ch_1 < ch_2 { ch_2 } else { ch_1 }),
            forall|j: int|
                0 <= j < k ==> !((#[trigger] crate::constants::DETECTOR_BORDERS[j])[0] == lo
                    && crate::constants::DETECTOR_BORDERS[j][1] == hi),
        decreases 8 - k,
    {
        if crate::constants::DETECTOR_BORDERS[k][0] == lo && crate::constants::DETECTOR_BORDERS[k][1]
            == hi {
            proof {
                crate::constants::lemma_borders_table(lo, hi);
                assert(crate::constants::DETECTOR_BORDERS[k as int][0] == lo);
            }
            return true;
        }
        k += 1;
    }
    proof {
        crate::constants::lemma_borders_table(lo, hi);
    }
    false
}

// ---------------------------------------------------------------------------
// Merging the events of neighbours
// ---------------------------------------------------------------------------

/// Amplitude of a physics event; zero for the other records.
pub open spec fn amplitude_of(e: NumassEvent) -> int {
    match e.1 {
        FrameEvent::Event { amplitude, .. } => amplitude as int,
        _ => 0,
    }
}

/// An event on `channel` takes `e` up: `e` is a physics event of a
/// neighbour, or of any channel where borders are ignored.
pub open spec fn absorbs(ignore_borders: bool, channel: u8, e: NumassEvent) -> bool {
    match e.1 {
        FrameEvent::Event { channel: other, .. } => ignore_borders || neighbours(channel, other),
        _ => false,
    }
}

/// Sum of the amplitudes of the events of `s` that an event on `channel`
/// takes up.
pub open spec fn absorbed_sum(ignore_borders: bool, channel: u8, s: Seq<NumassEvent>) -> int
    decreases s.len(),
{
    if s.len() == 0 {
        0
    } else {
        (if absorbs(ignore_borders, channel, s[0]) {
            amplitude_of(s[0])
        } else {
            0
        }) + absorbed_sum(ignore_borders, channel, s.skip(1))
    }
}

/// The events of `s` that an event on `channel` leaves, in their order.
pub open spec fn survivors(ignore_borders: bool, channel: u8, s: Seq<NumassEvent>) -> Seq<
    NumassEvent,
>
    decreases s.len(),
{
    if s.len() == 0 {
        s
    } else if absorbs(ignore_borders, channel, s[0]) {
        survivors(ignore_borders, channel, s.skip(1))
    } else {
        seq![s[0]] + survivors(ignore_borders, channel, s.skip(1))
    }
}

/// What is left is not longer than what there was.
pub proof fn lemma_survivors_len(ignore_borders: bool, channel: u8, s: Seq<NumassEvent>)
    ensures
        survivors(ignore_borders, channel, s).len() <= s.len(),
    decreases s.len(),
{
    if s.len() > 0 {
        lemma_survivors_len(ignore_borders, channel, s.skip(1));
    }
}

/// The events of a frame after neighbours have been merged: the first
/// physics event takes up every later one that it absorbs, its amplitude
/// growing by theirs; then the same is done with what is left behind it.
/// Other records stay where they are.
pub open spec fn merged(ignore_borders: bool, s: Seq<NumassEvent>) -> Seq<NumassEvent>
    decreases s.len(),
{
    if s.len() == 0 {
        s
    } else {
        match s[0].1 {
            FrameEvent::Event { channel, amplitude, size } => {
                proof {
                    lemma_survivors_len(ignore_borders, channel, s.skip(1));
                }
                seq![
                    (
                        s[0].0,
                        FrameEvent::Event {
                            channel,
                            amplitude: clamp(
                                amplitude + absorbed_sum(ignore_borders, channel, s.skip(1)),
                            ),
                            size,
                        },
                    ),
                ] + merged(ignore_borders, survivors(ignore_borders, channel, s.skip(1)))
            },
            _ => seq![s[0]] + merged(ignore_borders, s.skip(1)),
        }
    }
}

/// Takes from `tail` what an event on `channel` absorbs: returns the sum of
/// the amplitudes taken and the events left.
fn absorb_tail(ignore_borders: bool, channel: u8, work: &Vec<NumassEvent>) -> (r: (
    i128,
    Vec<NumassEvent>,
))
    requires
        work@.len() > 0,
    ensures
        r.0 == absorbed_sum(ignore_borders, channel, work@.skip(1)),
        r.1@ == survivors(ignore_borders, channel, work@.skip(1)),
        -0x8000_0000_0000_0000 * (work@.len() - 1) <= r.0 <= 0x8000_0000_0000_0000 * (work@.len()
            - 1),
{
    let ghost tail = work@.skip(1);
    let mut total: i128 = 0;
    let mut left: Vec<NumassEvent> = Vec::new();
    let mut j: usize = 1;
    while j < work.len()
        invariant
            1 <= j <= work@.len(),
            tail == work@.skip(1),
            total + absorbed_sum(ignore_borders, channel, work@.skip(j as int)) == absorbed_sum(
                ignore_borders,
                channel,
                tail,
            ),
            left@ + survivors(ignore_borders, channel, work@.skip(j as int)) == survivors(
                ignore_borders,
                channel,
                tail,
            ),
            -0x8000_0000_0000_0000 * (j - 1) <= total <= 0x8000_0000_0000_0000 * (j - 1),
        decreases work.len() - j,
    {
        let e = work[j];
        proof {
            assert(work@.skip(j as int).skip(1) =~= work@.skip(j + 1));
            assert(work@.skip(j as int)[0] == e);
        }
        let taken = match e.1 {
            FrameEvent::Event { channel: other, amplitude, .. } => {
                if ignore_borders || is_neighbour(channel, other) {
                    total = total + amplitude as i128;
                    true
                } else {
                    false
                }
            },
            _ => false,
        };
        if !taken {
            proof {
                let rest = survivors(ignore_borders, channel, work@.skip(j + 1));
                assert(left@.push(e) + rest =~= left@ + (seq![e] + rest));
            }
            left.push(e);
        }
        j += 1;
    }
    proof {
        assert(left@ + Seq::<NumassEvent>::empty() =~= left@);
    }
    (total, left)
}

/// Merges the events of neighbouring channels, from the front of the frame
/// to its end.
fn merge_neighbours(ignore_borders: bool, events: Vec<NumassEvent>) -> (out: Vec<NumassEvent>)
    ensures
        out@ == merged(ignore_borders, events@),
{
    let mut done: Vec<NumassEvent> = Vec::new();
    let mut work = events;
    while work.len() > 0
        invariant
            done@ + merged(ignore_borders, work@) == merged(ignore_borders, events@),
        decreases work@.len(),
    {
        let head = work[0];
        match head.1 {
            FrameEvent::Event { channel, amplitude, size } => {
                let (total, left) = absorb_tail(ignore_borders, channel, &work);
                let e: NumassEvent = (
                    head.0,
                    FrameEvent::Event {
                        channel,
                        amplitude: saturate(amplitude as i128 + total),
                        size,
                    },
                );
                proof {
                    lemma_survivors_len(ignore_borders, channel, work@.skip(1));
                    let rest = merged(ignore_borders, left@);
                    assert(done@.push(e) + rest =~= done@ + (seq![e] + rest));
                }
                done.push(e);
                work = left;
            },
            _ => {
                let mut left: Vec<NumassEvent> = Vec::new();
                let mut j: usize = 1;
                while j < work.len()
                    invariant
                        1 <= j <= work@.len(),
                        left@ == work@.subrange(1, j as int),
                    decreases work.len() - j,
                {
                    left.push(work[j]);
                    proof {
                        assert(left@ =~= work@.subrange(1, j + 1));
                    }
                    j += 1;
                }
                proof {
                    assert(left@ =~= work@.skip(1));
                    let rest = merged(ignore_borders, left@);
                    assert(done@.push(head) + rest =~= done@ + (seq![head] + rest));
                }
                done.push(head);
                work = left;
            },
        }
    }
    proof {
        assert(done@ + Seq::<NumassEvent>::empty() =~= done@);
    }
    done
}

// ---------------------------------------------------------------------------
// Charge collected by the central pixel
// ---------------------------------------------------------------------------

/// Events less than this many nanoseconds from an event of the central
/// pixel are taken for parts of it.
pub const SPLIT_WINDOW: u16 = 200;

/// Two offsets are less than [`SPLIT_WINDOW`] apart.
pub open spec fn near(a: u16, b: u16) -> bool {
    (if a >= b {
        a - b
    } else {
        b - a
    }) < SPLIT_WINDOW
}

/// Begin of the unbroken run of records near `at` that ends before `k`.
pub open spec fn back_reach(s: Seq<NumassEvent>, at: u16, k: int) -> int
    decreases k,
{
    if k <= 0 || k > s.len() || !near(s[k - 1].0, at) {
        k
    } else {
        back_reach(s, at, k - 1)
    }
}

/// End of the unbroken run of records near `at` that begins at `k`.
pub open spec fn fwd_reach(s: Seq<NumassEvent>, at: u16, k: int) -> int
    decreases s.len() - k,
{
    if k < 0 || k >= s.len() || !near(s[k].0, at) {
        k
    } else {
        fwd_reach(s, at, k + 1)
    }
}

/// Sum of the amplitudes of the physics events among `s[lo..hi]`.
pub open spec fn amplitude_sum(s: Seq<NumassEvent>, lo: int, hi: int) -> int
    decreases hi - lo,
{
    if hi <= lo {
        0
    } else {
        amplitude_sum(s, lo, hi - 1) + amplitude_of(s[hi - 1])
    }
}

/// `marks` with the physics events among `s[lo..hi]` marked too.
pub open spec fn mark_events(s: Seq<NumassEvent>, marks: Seq<bool>, lo: int, hi: int) -> Seq<bool> {
    Seq::new(marks.len(), |k: int| marks[k] || (lo <= k < hi && s[k].1 is Event))
}

/// One step of the collection, at record `idx`. A marked record or one that
/// is no physics event is passed over. A physics event of the central pixel
/// takes up the physics events of the runs of near records before and
/// behind it: its amplitude grows by theirs, marked or not, and they are
/// marked. Every physics event that is not passed over has its size set
/// to zero.
pub open spec fn split_step(s: Seq<NumassEvent>, marks: Seq<bool>, idx: int) -> (
    Seq<NumassEvent>,
    Seq<bool>,
) {
    if marks[idx] {
        (s, marks)
    } else {
        match s[idx].1 {
            FrameEvent::Event { channel, amplitude, .. } => {
                if channel == CENTRAL_CHANNEL {
                    let lo = back_reach(s, s[idx].0, idx);
                    let hi = fwd_reach(s, s[idx].0, idx + 1);
                    let total = amplitude + amplitude_sum(s, lo, idx) + amplitude_sum(
                        s,
                        idx + 1,
                        hi,
                    );
                    (
                        s.update(
                            idx,
                            (
                                s[idx].0,
                                FrameEvent::Event { channel, amplitude: clamp(total), size: 0 },
                            ),
                        ),
                        mark_events(s, mark_events(s, marks, lo, idx), idx + 1, hi),
                    )
                } else {
                    (s.update(idx, (s[idx].0, FrameEvent::Event { channel, amplitude, size: 0 })), marks)
                }
            },
            _ => (s, marks),
        }
    }
}

/// The steps at `idx` and at every later record, one after the other.
pub open spec fn split_pass(s: Seq<NumassEvent>, marks: Seq<bool>, idx: int) -> (
    Seq<NumassEvent>,
    Seq<bool>,
)
    decreases s.len() - idx,
{
    if idx < 0 || idx >= s.len() {
        (s, marks)
    } else {
        let r = split_step(s, marks, idx);
        split_pass(r.0, r.1, idx + 1)
    }
}

/// The records of `s` that are not marked.
pub open spec fn unmarked(s: Seq<NumassEvent>, marks: Seq<bool>) -> Seq<NumassEvent>
    decreases s.len(),
{
    if s.len() == 0 {
        s
    } else if marks[s.len() - 1] {
        unmarked(s.drop_last(), marks)
    } else {
        unmarked(s.drop_last(), marks).push(s.last())
    }
}

/// The events of a frame after the central pixel has collected its parts:
/// all steps from the first record on, then the marked records removed.
pub open spec fn splits_merged(s: Seq<NumassEvent>) -> Seq<NumassEvent> {
    let r = split_pass(s, Seq::new(s.len(), |k: int| false), 0);
    unmarked(r.0, r.1)
}

/// A sum over `lo..hi` is the first amplitude and the sum over the rest.
pub proof fn lemma_amplitude_sum_front(s: Seq<NumassEvent>, lo: int, hi: int)
    requires
        lo < hi,
    ensures
        amplitude_sum(s, lo, hi) == amplitude_of(s[lo]) + amplitude_sum(s, lo + 1, hi),
    decreases hi - lo,
{
    if hi - 1 > lo {
        lemma_amplitude_sum_front(s, lo, hi - 1);
    } else {
        assert(amplitude_sum(s, lo, lo) == 0);
        assert(amplitude_sum(s, lo + 1, hi) == 0);
    }
}

/// Whether two offsets are less than [`SPLIT_WINDOW`] apart.
fn is_near(a: u16, b: u16) -> (r: bool)
    ensures
        r == near(a, b),
{
    let d = if a >= b {
        a - b
    } else {
        b - a
    };
    d < SPLIT_WINDOW
}

/// Lets each event of the central pixel collect the events around it.
fn merge_splits(events: Vec<NumassEvent>) -> (out: Vec<NumassEvent>)
    ensures
        out@ == splits_merged(events@),
{
    let n = events.len();
    let ghost orig = events@;
    let mut events = events;
    let mut marks: Vec<bool> = Vec::new();
    let mut c: usize = 0;
    while c < n
        invariant
            c <= n,
            marks@ == Seq::new(c as nat, |k: int| false),
        decreases n - c,
    {
        marks.push(false);
        proof {
            assert(marks@ =~= Seq::new((c + 1) as nat, |k: int| false));
        }
        c += 1;
    }
    let mut idx: usize = 0;
    while idx < n
        invariant
            idx <= n,
            events@.len() == n,
            marks@.len() == n,
            split_pass(events@, marks@, idx as int) == split_pass(
                orig,
                Seq::new(n as nat, |k: int| false),
                0,
            ),
        decreases n - idx,
    {
        let ghost s = events@;
        let ghost m = marks@;
        if !marks[idx] {
            let at = events[idx].0;
            if let FrameEvent::Event { channel, amplitude, .. } = events[idx].1 {
                let mut total: i128 = amplitude as i128;
                if channel == CENTRAL_CHANNEL {
                    let mut k: usize = idx;
                    while k > 0 && is_near(events[k - 1].0, at)
                        invariant
                            k <= idx < n,
                            events@ == s,
                            s.len() == n,
                            marks@.len() == n,
                            back_reach(s, at, k as int) == back_reach(s, at, idx as int),
                            total == amplitude + amplitude_sum(s, k as int, idx as int),
                            -0x8000_0000_0000_0000 * (idx - k + 1) <= total <= 0x8000_0000_0000_0000
                                * (idx - k + 1),
                            marks@ == mark_events(s, m, k as int, idx as int),
                        decreases k,
                    {
                        k -= 1;
                        proof {
                            lemma_amplitude_sum_front(s, k as int, idx as int);
                        }
                        if let FrameEvent::Event { amplitude: part, .. } = events[k].1 {
                            total = total + part as i128;
                            marks.set(k, true);
                        }
                        proof {
                            assert(marks@ =~= mark_events(s, m, k as int, idx as int));
                        }
                    }
                    let ghost lo = k as int;
                    let ghost m1 = marks@;
                    let ghost back = total as int;
                    let mut j: usize = idx + 1;
                    while j < n && is_near(events[j].0, at)
                        invariant
                            idx < j <= n,
                            events@ == s,
                            s.len() == n,
                            marks@.len() == n,
                            m1.len() == n,
                            fwd_reach(s, at, j as int) == fwd_reach(s, at, idx + 1),
                            total == back + amplitude_sum(s, idx + 1, j as int),
                            -0x8000_0000_0000_0000 * (idx + 1) <= back <= 0x8000_0000_0000_0000 * (
                            idx + 1),
                            -0x8000_0000_0000_0000 * j <= total <= 0x8000_0000_0000_0000 * j,
                            marks@ == mark_events(s, m1, idx + 1, j as int),
                        decreases n - j,
                    {
                        if let FrameEvent::Event { amplitude: part, .. } = events[j].1 {
                            total = total + part as i128;
                            marks.set(j, true);
                        }
                        j += 1;
                        proof {
                            assert(marks@ =~= mark_events(s, m1, idx + 1, j as int));
                        }
                    }
                    proof {
                        assert(lo == back_reach(s, at, idx as int));
                        assert(j == fwd_reach(s, at, idx + 1));
                    }
                } else {
                    assert(total == amplitude);
                }
                events.set(
                    idx,
                    (at, FrameEvent::Event { channel, amplitude: saturate(total), size: 0 }),
                );
            }
        }
        proof {
            assert(events@ == split_step(s, m, idx as int).0);
            assert(marks@ == split_step(s, m, idx as int).1);
        }
        idx += 1;
    }
    let mut out: Vec<NumassEvent> = Vec::new();
    let mut k: usize = 0;
    while k < n
        invariant
            k <= n,
            events@.len() == n,
            marks@.len() == n,
            out@ == unmarked(events@.take(k as int), marks@),
        decreases n - k,
    {
        proof {
            assert(events@.take(k + 1).drop_last() =~= events@.take(k as int));
        }
        if !marks[k] {
            out.push(events[k]);
        }
        k += 1;
    }
    proof {
        assert(events@.take(n as int) =~= events@);
    }
    out
}

// ---------------------------------------------------------------------------
// One frame
// ---------------------------------------------------------------------------

/// The events of a frame after postprocessing: unchanged where events are not
/// to be merged; else the central pixel first collects its parts, if that is
/// asked for, and then neighbours are merged.
pub open spec fn processed_frame(params: PostProcessParams, s: Seq<NumassEvent>) -> Seq<
    NumassEvent,
> {
    if !params.merge_close_events {
        s
    } else if params.merge_splits_first {
        merged(params.ignore_borders, splits_merged(s))
    } else {
        merged(params.ignore_borders, s)
    }
}

/// Postprocesses the events of one frame.
pub fn post_process_frame(events: Vec<NumassEvent>, params: &PostProcessParams) -> (out: Vec<
    NumassEvent,
>)
    ensures
        out@ == processed_frame(*params, events@),
{
    if !params.merge_close_events {
        return events;
    }
    let events = if params.merge_splits_first {
        merge_splits(events)
    } else {
        events
    };
    merge_neighbours(params.ignore_borders, events)
}

// ---------------------------------------------------------------------------
// The frames of a point
// ---------------------------------------------------------------------------

/// An offset moved by `by` nanoseconds, in 16 bits.
pub open spec fn shifted_offset(offset: u16, by: u16) -> u16 {
    ((offset + by) % 0x1_0000) as u16
}

/// Events with every offset moved by `by`.
pub open spec fn shift_events(s: Seq<NumassEvent>, by: u16) -> Seq<NumassEvent> {
    Seq::new(s.len(), |i: int| (shifted_offset(s[i].0, by), s[i].1))
}

/// By how much the events of a frame are moved when it is joined to the
/// frame before it: the distance of their starts less the length of a frame,
/// in 16 bits.
pub open spec fn frame_shift(before: u64, start: u64, frame_len: u64) -> u16 {
    ((start - before - frame_len) % 0x1_0000) as u16
}

/// Frame `k` begins less than `merge_len` after the frame before it, and is
/// joined to it.
pub open spec fn joined(frames: Seq<(u64, Seq<NumassEvent>)>, merge_len: u16, k: int) -> bool {
    0 < k < frames.len() && frames[k].0 - frames[k - 1].0 < merge_len
}

/// The events of frame `k` with those of the frames joined to it: its own,
/// then those of the next frame, if that is joined, with all that it
/// carries, moved.
pub open spec fn chain(
    frames: Seq<(u64, Seq<NumassEvent>)>,
    merge_len: u16,
    frame_len: u64,
    k: int,
) -> Seq<NumassEvent>
    decreases frames.len() - k,
{
    if k < 0 || k >= frames.len() {
        Seq::empty()
    } else if joined(frames, merge_len, k + 1) {
        frames[k].1 + shift_events(
            chain(frames, merge_len, frame_len, k + 1),
            frame_shift(frames[k].0, frames[k + 1].0, frame_len),
        )
    } else {
        frames[k].1
    }
}

/// The frames from `k` on that are joined to no other, each with what has
/// been joined to it.
pub open spec fn coalesced_from(
    frames: Seq<(u64, Seq<NumassEvent>)>,
    merge_len: u16,
    frame_len: u64,
    k: int,
) -> Seq<(u64, Seq<NumassEvent>)>
    decreases frames.len() - k,
{
    if k < 0 || k >= frames.len() {
        Seq::empty()
    } else if joined(frames, merge_len, k) {
        coalesced_from(frames, merge_len, frame_len, k + 1)
    } else {
        seq![(frames[k].0, chain(frames, merge_len, frame_len, k))] + coalesced_from(
            frames,
            merge_len,
            frame_len,
            k + 1,
        )
    }
}

/// The frames of a point after close frames have been joined.
pub open spec fn coalesced(frames: Seq<(u64, Seq<NumassEvent>)>, merge_len: u16, frame_len: u64) -> Seq<
    (u64, Seq<NumassEvent>),
> {
    coalesced_from(frames, merge_len, frame_len, 0)
}

/// A frame that begins at `time` lies in a bad block.
pub open spec fn in_bad_block(bad_blocks: Set<usize>, time: u64) -> bool {
    time / CUTOFF_BIN_SIZE <= usize::MAX && bad_blocks.contains((time / CUTOFF_BIN_SIZE) as usize)
}

/// The frames that lie in no bad block, in their order.
pub open spec fn good_frames(bad_blocks: Set<usize>, frames: Seq<(u64, Seq<NumassEvent>)>) -> Seq<
    (u64, Seq<NumassEvent>),
>
    decreases frames.len(),
{
    if frames.len() == 0 {
        frames
    } else if in_bad_block(bad_blocks, frames.last().0) {
        good_frames(bad_blocks, frames.drop_last())
    } else {
        good_frames(bad_blocks, frames.drop_last()).push(frames.last())
    }
}

/// The record is a physics event of a channel that is dropped.
pub open spec fn is_masked_event(mask: ChannelIgnore, e: NumassEvent) -> bool {
    match e.1 {
        FrameEvent::Event { channel, .. } => mask.masks(channel),
        _ => false,
    }
}

/// The records of a frame without the physics events of dropped channels.
pub open spec fn masked(mask: ChannelIgnore, s: Seq<NumassEvent>) -> Seq<NumassEvent>
    decreases s.len(),
{
    if s.len() == 0 {
        s
    } else if is_masked_event(mask, s.last()) {
        masked(mask, s.drop_last())
    } else {
        masked(mask, s.drop_last()).push(s.last())
    }
}

/// Every frame without the physics events of dropped channels.
pub open spec fn mask_frames(mask: ChannelIgnore, frames: Seq<(u64, Seq<NumassEvent>)>) -> Seq<
    (u64, Seq<NumassEvent>),
> {
    Seq::new(frames.len(), |i: int| (frames[i].0, masked(mask, frames[i].1)))
}

/// Every frame postprocessed by itself.
pub open spec fn process_frames(params: PostProcessParams, frames: Seq<(u64, Seq<NumassEvent>)>) -> Seq<
    (u64, Seq<NumassEvent>),
> {
    Seq::new(frames.len(), |i: int| (frames[i].0, processed_frame(params, frames[i].1)))
}

/// The events of a point after postprocessing. Close frames are joined
/// first, if that is asked for. Where events are not to be merged, nothing
/// more is done but dropping the masked channels. Else the frames in bad
/// blocks are cut out, if that is asked for, each frame is postprocessed,
/// and the masked channels are dropped.
pub open spec fn post_processed(
    params: PostProcessParams,
    bad_blocks: Set<usize>,
    frame_len: u64,
    frames: Seq<(u64, Seq<NumassEvent>)>,
) -> Seq<(u64, Seq<NumassEvent>)> {
    let joint = match params.merge_frames {
        Some(merge_len) => coalesced(frames, merge_len, frame_len),
        None => frames,
    };
    if !params.merge_close_events {
        mask_frames(params.ignore_channels, joint)
    } else if params.cut_bad_blocks {
        mask_frames(params.ignore_channels, process_frames(params, good_frames(bad_blocks, joint)))
    } else {
        mask_frames(params.ignore_channels, process_frames(params, joint))
    }
}

/// The view of a list of frames with one more frame.
proof fn lemma_frames_view_push(v: Seq<(u64, Vec<NumassEvent>)>, x: (u64, Vec<NumassEvent>))
    ensures
        frames_view(v.push(x)) == frames_view(v).push((x.0, x.1@)),
{
    assert(frames_view(v.push(x)) =~= frames_view(v).push((x.0, x.1@)));
}

/// A copy of the events.
fn copy_events(v: &Vec<NumassEvent>) -> (out: Vec<NumassEvent>)
    ensures
        out@ == v@,
{
    let mut out: Vec<NumassEvent> = Vec::new();
    let mut i: usize = 0;
    while i < v.len()
        invariant
            i <= v@.len(),
            out@ == v@.take(i as int),
        decreases v.len() - i,
    {
        out.push(v[i]);
        proof {
            assert(out@ =~= v@.take(i + 1));
        }
        i += 1;
    }
    proof {
        assert(v@.take(v@.len() as int) =~= v@);
    }
    out
}

/// Appends to `target` the events of `carried`, each moved by `by`.
fn append_shifted(target: &mut Vec<NumassEvent>, carried: &Vec<NumassEvent>, by: u16)
    ensures
        final(target)@ == old(target)@ + shift_events(carried@, by),
{
    let mut i: usize = 0;
    while i < carried.len()
        invariant
            i <= carried@.len(),
            target@ == old(target)@ + shift_events(carried@, by).take(i as int),
        decreases carried.len() - i,
    {
        let e = carried[i];
        let moved: u16 = ((e.0 as u32 + by as u32) % 0x1_0000) as u16;
        target.push((moved, e.1));
        proof {
            assert(target@ =~= old(target)@ + shift_events(carried@, by).take(i + 1));
        }
        i += 1;
    }
    proof {
        assert(shift_events(carried@, by).take(carried@.len() as int) =~= shift_events(
            carried@,
            by,
        ));
    }
}

/// The shift of a frame that begins `distance` after the one before it.
fn shift_for(distance: u64, frame_len: u64) -> (by: u16)
    ensures
        by == ((distance - frame_len) % 0x1_0000) as u16,
{
    if distance >= frame_len {
        ((distance - frame_len) % 0x1_0000) as u16
    } else {
        let r: u64 = (frame_len - distance) % 0x1_0000;
        proof {
            let x: int = distance - frame_len;
            let m: int = 0x1_0000;
            vstd::arithmetic::div_mod::lemma_fundamental_div_mod(-x, m);
            vstd::arithmetic::div_mod::lemma_fundamental_div_mod(x, m);
            let q = (-x) / m;
            if r == 0 {
                vstd::arithmetic::div_mod::lemma_fundamental_div_mod_converse(x, m, -q, 0);
            } else {
                vstd::arithmetic::div_mod::lemma_fundamental_div_mod_converse(
                    x,
                    m,
                    -q - 1,
                    m - r,
                );
            }
        }
        if r == 0 {
            0
        } else {
            (0x1_0000 - r) as u16
        }
    }
}

/// Joins every frame that begins less than `merge_len` nanoseconds after
/// the frame before it to that frame. The events of a joined frame, with all
/// that has been joined to it, follow those of the earlier frame, their
/// offsets moved by the distance of the two starts less the length of a
/// frame. The earlier frame keeps its start time.
fn merge_close_frames(amplitudes: NumassEvents, merge_len: u16, preprocess: &Preprocess) -> (out:
    NumassEvents)
    requires
        times_ascend(frames_view(amplitudes@)),
    ensures
        frames_view(out@) == coalesced(frames_view(amplitudes@), merge_len, preprocess.frame_len),
{
    let ghost frames = frames_view(amplitudes@);
    let frame_len = preprocess.frame_len;
    let mut out: NumassEvents = Vec::new();
    // the events that frame `k` hands to the frame before it, moved already
    let mut carry: Vec<NumassEvent> = Vec::new();
    let mut k: usize = amplitudes.len();
    while k > 0
        invariant
            k <= amplitudes@.len(),
            frames == frames_view(amplitudes@),
            times_ascend(frames),
            frame_len == preprocess.frame_len,
            frames_view(out@) == coalesced_from(frames, merge_len, frame_len, k as int),
            carry@ == (if joined(frames, merge_len, k as int) {
                shift_events(
                    chain(frames, merge_len, frame_len, k as int),
                    frame_shift(frames[k - 1].0, frames[k as int].0, frame_len),
                )
            } else {
                Seq::empty()
            }),
        decreases k,
    {
        k -= 1;
        let mut current = copy_events(&amplitudes[k].1);
        proof {
            assert(frames[k as int].1 == amplitudes@[k as int].1@);
            assert(carry@.len() == 0 ==> current@ + carry@ =~= current@);
        }
        let ghost own = current@;
        append_shifted(&mut current, &carry, 0);
        proof {
            assert(shift_events(carry@, 0) =~= carry@) by {
                assert forall|i: int| 0 <= i < carry@.len() implies shift_events(carry@, 0)[i]
                    == carry@[i] by {
                    assert(shifted_offset(carry@[i].0, 0) == carry@[i].0);
                }
            }
            assert(current@ == chain(frames, merge_len, frame_len, k as int));
        }
        let time = amplitudes[k].0;
        proof {
            if k > 0 {
                assert(frames[k - 1].0 < frames[k as int].0);
            }
        }
        if k > 0 && time - amplitudes[k - 1].0 < merge_len as u64 {
            assert(frames[k - 1].0 == amplitudes@[k - 1].0);
            let by = shift_for(time - amplitudes[k - 1].0, frame_len);
            carry = Vec::new();
            append_shifted(&mut carry, &current, by);
            proof {
                assert(carry@ =~= shift_events(current@, by));
            }
        } else {
            carry = Vec::new();
            out.insert(0, (time, current));
            proof {
                assert(frames_view(out@) =~= seq![(time, chain(frames, merge_len, frame_len, k as int))]
                    + coalesced_from(frames, merge_len, frame_len, k + 1));
            }
        }
    }
    out
}

/// Drops from every frame the physics events of masked channels.
fn ignore_channels(mask: &ChannelIgnore, amplitudes: NumassEvents) -> (out: NumassEvents)
    ensures
        frames_view(out@) == mask_frames(*mask, frames_view(amplitudes@)),
{
    let mut out: NumassEvents = Vec::new();
    let mut i: usize = 0;
    while i < amplitudes.len()
        invariant
            i <= amplitudes@.len(),
            frames_view(out@) == mask_frames(*mask, frames_view(amplitudes@)).take(i as int),
        decreases amplitudes.len() - i,
    {
        let events = &amplitudes[i].1;
        let mut kept: Vec<NumassEvent> = Vec::new();
        let mut j: usize = 0;
        while j < events.len()
            invariant
                j <= events@.len(),
                kept@ == masked(*mask, events@.take(j as int)),
            decreases events.len() - j,
        {
            proof {
                assert(events@.take(j + 1).drop_last() =~= events@.take(j as int));
            }
            let e = events[j];
            let drop = match e.1 {
                FrameEvent::Event { channel, .. } => mask.is_masked(channel),
                _ => false,
            };
            if !drop {
                kept.push(e);
            }
            j += 1;
        }
        proof {
            assert(events@.take(events@.len() as int) =~= events@);
        }
        let ghost before = out@;
        out.push((amplitudes[i].0, kept));
        proof {
            lemma_frames_view_push(before, (amplitudes@[i as int].0, kept));
            assert(frames_view(amplitudes@)[i as int].1 == events@);
            assert(frames_view(out@) =~= mask_frames(*mask, frames_view(amplitudes@)).take(i + 1));
        }
        i += 1;
    }
    proof {
        let all = mask_frames(*mask, frames_view(amplitudes@));
        assert(all.take(all.len() as int) =~= all);
    }
    out
}

/// Cuts out the frames that begin in a bad block.
pub fn cut_bad_frames(amplitudes: NumassEvents, preprocess: &Preprocess) -> (out: NumassEvents)
    ensures
        frames_view(out@) == good_frames(preprocess.bad_blocks@, frames_view(amplitudes@)),
{
    let mut out: NumassEvents = Vec::new();
    let mut i: usize = 0;
    while i < amplitudes.len()
        invariant
            i <= amplitudes@.len(),
            frames_view(out@) == good_frames(
                preprocess.bad_blocks@,
                frames_view(amplitudes@).take(i as int),
            ),
        decreases amplitudes.len() - i,
    {
        proof {
            assert(frames_view(amplitudes@).take(i + 1).drop_last() =~= frames_view(
                amplitudes@,
            ).take(i as int));
        }
        let time = amplitudes[i].0;
        let block: u64 = time / CUTOFF_BIN_SIZE;
        let bad = if block > usize::MAX as u64 {
            false
        } else {
            let b: usize = block as usize;
            preprocess.bad_blocks.contains(&b)
        };
        if !bad {
            let events = copy_events(&amplitudes[i].1);
            out.push((time, events));
            proof {
                assert(frames_view(out@) =~= good_frames(
                    preprocess.bad_blocks@,
                    frames_view(amplitudes@).take(i as int),
                ).push(frames_view(amplitudes@)[i as int]));
            }
        }
        i += 1;
    }
    proof {
        let all = frames_view(amplitudes@);
        assert(all.take(all.len() as int) =~= all);
    }
    out
}

/// Postprocesses every frame by itself.
fn process_each(amplitudes: NumassEvents, params: &PostProcessParams) -> (out: NumassEvents)
    ensures
        frames_view(out@) == process_frames(*params, frames_view(amplitudes@)),
{
    let mut out: NumassEvents = Vec::new();
    let mut i: usize = 0;
    while i < amplitudes.len()
        invariant
            i <= amplitudes@.len(),
            frames_view(out@) == process_frames(*params, frames_view(amplitudes@)).take(i as int),
        decreases amplitudes.len() - i,
    {
        let events = post_process_frame(copy_events(&amplitudes[i].1), params);
        let ghost before = out@;
        out.push((amplitudes[i].0, events));
        proof {
            lemma_frames_view_push(before, (amplitudes@[i as int].0, events));
            assert(frames_view(amplitudes@)[i as int].1 == amplitudes@[i as int].1@);
            assert(frames_view(out@) =~= process_frames(*params, frames_view(amplitudes@)).take(
                i + 1,
            ));
        }
        i += 1;
    }
    proof {
        let all = process_frames(*params, frames_view(amplitudes@));
        assert(all.take(all.len() as int) =~= all);
    }
    out
}

/// Postprocesses the events of a point. The preprocessing result is handed
/// back as it came.
pub fn post_process(process_result: (NumassEvents, Preprocess), params: &PostProcessParams) -> (out:
    (NumassEvents, Preprocess))
    requires
        times_ascend(frames_view(process_result.0@)),
    ensures
        frames_view(out.0@) == post_processed(
            *params,
            process_result.1.bad_blocks@,
            process_result.1.frame_len,
            frames_view(process_result.0@),
        ),
        out.1 == process_result.1,
{
    let (amplitudes, preprocess) = process_result;
    let amplitudes = match params.merge_frames {
        Some(merge_len) => merge_close_frames(amplitudes, merge_len, &preprocess),
        None => amplitudes,
    };
    if !params.merge_close_events {
        let amplitudes = ignore_channels(&params.ignore_channels, amplitudes);
        return (amplitudes, preprocess);
    }
    let amplitudes = if params.cut_bad_blocks {
        cut_bad_frames(amplitudes, &preprocess)
    } else {
        amplitudes
    };
    let amplitudes = process_each(amplitudes, params);
    let amplitudes = ignore_channels(&params.ignore_channels, amplitudes);
    (amplitudes, preprocess)
}

// ---------------------------------------------------------------------------
// What merging keeps
// ---------------------------------------------------------------------------

/// Sum of the amplitudes of the physics events of a frame.
pub open spec fn total_amplitude(s: Seq<NumassEvent>) -> int
    decreases s.len(),
{
    if s.len() == 0 {
        0
    } else {
        amplitude_of(s[0]) + total_amplitude(s.skip(1))
    }
}

/// Sum of the absolute amplitudes of the physics events of a frame.
pub open spec fn total_magnitude(s: Seq<NumassEvent>) -> int
    decreases s.len(),
{
    if s.len() == 0 {
        0
    } else {
        (if amplitude_of(s[0]) >= 0 {
            amplitude_of(s[0])
        } else {
            -amplitude_of(s[0])
        }) + total_magnitude(s.skip(1))
    }
}

/// No physics event of the frame absorbs a later record.
pub open spec fn settled(ignore_borders: bool, s: Seq<NumassEvent>) -> bool {
    forall|i: int, j: int|
        0 <= i < j < s.len() ==> !(#[trigger] s[i].1 is Event && absorbs(
            ignore_borders,
            channel_of(s[i]),
            #[trigger] s[j],
        ))
}

/// Channel of a physics event or of an overflow record.
pub open spec fn channel_of(e: NumassEvent) -> u8 {
    match e.1 {
        FrameEvent::Event { channel, .. } => channel,
        FrameEvent::Overflow { channel, .. } => channel,
        _ => 0,
    }
}

/// Two records are the same but for the amplitude.
pub open spec fn same_but_amplitude(a: NumassEvent, b: NumassEvent) -> bool {
    a.0 == b.0 && match a.1 {
        FrameEvent::Event { channel, size, .. } => b.1 matches FrameEvent::Event {
            channel: c,
            size: z,
            ..
        } && c == channel && z == size,
        _ => a.1 == b.1,
    }
}

/// A sum of absolute amplitudes is not negative.
pub proof fn lemma_magnitude_nonnegative(s: Seq<NumassEvent>)
    ensures
        total_magnitude(s) >= 0,
    decreases s.len(),
{
    if s.len() > 0 {
        lemma_magnitude_nonnegative(s.skip(1));
    }
}

/// What an event leaves and what it takes up make up the whole.
pub proof fn lemma_survivors_total(ignore_borders: bool, channel: u8, s: Seq<NumassEvent>)
    ensures
        total_amplitude(s) == absorbed_sum(ignore_borders, channel, s) + total_amplitude(
            survivors(ignore_borders, channel, s),
        ),
        total_magnitude(survivors(ignore_borders, channel, s)) <= total_magnitude(s),
        -(total_magnitude(s) - total_magnitude(survivors(ignore_borders, channel, s)))
            <= absorbed_sum(ignore_borders, channel, s) <= total_magnitude(s) - total_magnitude(
            survivors(ignore_borders, channel, s),
        ),
        forall|k: int|
            0 <= k < survivors(ignore_borders, channel, s).len() ==> !absorbs(
                ignore_borders,
                channel,
                #[trigger] survivors(ignore_borders, channel, s)[k],
            ),
        forall|k: int|
            0 <= k < survivors(ignore_borders, channel, s).len() ==> s.contains(
                #[trigger] survivors(ignore_borders, channel, s)[k],
            ),
    decreases s.len(),
{
    if s.len() > 0 {
        let t = s.skip(1);
        lemma_survivors_total(ignore_borders, channel, t);
        let u = survivors(ignore_borders, channel, t);
        if !absorbs(ignore_borders, channel, s[0]) {
            assert((seq![s[0]] + u).skip(1) =~= u);
        }
        let r = survivors(ignore_borders, channel, s);
        assert forall|k: int| 0 <= k < r.len() implies s.contains(#[trigger] r[k]) by {
            if !absorbs(ignore_borders, channel, s[0]) && k == 0 {
                assert(s[0] == r[k]);
            } else {
                let e = if absorbs(ignore_borders, channel, s[0]) {
                    u[k]
                } else {
                    u[k - 1]
                };
                assert(t.contains(e));
                let i = choose|i: int| 0 <= i < t.len() && t[i] == e;
                assert(s[i + 1] == e);
            }
        }
    }
}

/// Merging conserves amplitude: where the amplitudes of a frame do not add
/// up beyond the range of 64 bits, the sum of the amplitudes of its physics
/// events is the same after merging as before.
pub proof fn lemma_merged_conserves(ignore_borders: bool, s: Seq<NumassEvent>)
    requires
        total_magnitude(s) <= i64::MAX,
    ensures
        total_amplitude(merged(ignore_borders, s)) == total_amplitude(s),
        total_magnitude(merged(ignore_borders, s)) <= total_magnitude(s),
    decreases s.len(),
{
    if s.len() > 0 {
        let t = s.skip(1);
        match s[0].1 {
            FrameEvent::Event { channel, amplitude, size } => {
                let u = survivors(ignore_borders, channel, t);
                lemma_survivors_total(ignore_borders, channel, t);
                lemma_survivors_len(ignore_borders, channel, t);
                lemma_merged_conserves(ignore_borders, u);
                let sum = amplitude + absorbed_sum(ignore_borders, channel, t);
                let head: NumassEvent = (
                    s[0].0,
                    FrameEvent::Event { channel, amplitude: clamp(sum), size },
                );
                let rest = merged(ignore_borders, u);
                assert((seq![head] + rest).skip(1) =~= rest);
                assert((seq![head] + rest)[0] == head);
                assert(amplitude_of(s[0]) == amplitude);
                lemma_magnitude_nonnegative(u);
                lemma_magnitude_nonnegative(t);
                assert(-i64::MAX <= sum <= i64::MAX);
                assert(amplitude_of(head) == sum);
                assert(merged(ignore_borders, s) == seq![head] + rest);
                assert(total_amplitude(seq![head] + rest) == sum + total_amplitude(rest));
                assert(total_magnitude(seq![head] + rest) == (if sum >= 0 {
                    sum
                } else {
                    -sum
                }) + total_magnitude(rest));
            },
            _ => {
                lemma_merged_conserves(ignore_borders, t);
                let rest = merged(ignore_borders, t);
                assert((seq![s[0]] + rest).skip(1) =~= rest);
                assert((seq![s[0]] + rest)[0] == s[0]);
            },
        }
    }
}

/// Every record of a merged frame is a record of the frame as it was, but
/// for the amplitude.
pub proof fn lemma_merged_from(ignore_borders: bool, s: Seq<NumassEvent>)
    ensures
        merged(ignore_borders, s).len() <= s.len(),
        forall|k: int|
            0 <= k < merged(ignore_borders, s).len() ==> exists|i: int|
                0 <= i < s.len() && same_but_amplitude(
                    #[trigger] s[i],
                    #[trigger] merged(ignore_borders, s)[k],
                ),
    decreases s.len(),
{
    if s.len() > 0 {
        let t = s.skip(1);
        let m = merged(ignore_borders, s);
        match s[0].1 {
            FrameEvent::Event { channel, amplitude, size } => {
                let u = survivors(ignore_borders, channel, t);
                lemma_survivors_total(ignore_borders, channel, t);
                lemma_survivors_len(ignore_borders, channel, t);
                lemma_merged_from(ignore_borders, u);
                let rest = merged(ignore_borders, u);
                assert forall|k: int| 0 <= k < m.len() implies exists|i: int|
                    0 <= i < s.len() && same_but_amplitude(#[trigger] s[i], #[trigger] m[k]) by {
                    if k == 0 {
                        assert(same_but_amplitude(s[0], m[0]));
                    } else {
                        assert(m[k] == rest[k - 1]);
                        let j = choose|j: int|
                            0 <= j < u.len() && same_but_amplitude(
                                #[trigger] u[j],
                                #[trigger] rest[k - 1],
                            );
                        assert(t.contains(u[j]));
                        let i = choose|i: int| 0 <= i < t.len() && t[i] == u[j];
                        assert(s[i + 1] == u[j]);
                        assert(same_but_amplitude(s[i + 1], m[k]));
                    }
                }
            },
            _ => {
                lemma_merged_from(ignore_borders, t);
                let rest = merged(ignore_borders, t);
                assert forall|k: int| 0 <= k < m.len() implies exists|i: int|
                    0 <= i < s.len() && same_but_amplitude(#[trigger] s[i], #[trigger] m[k]) by {
                    if k == 0 {
                        assert(same_but_amplitude(s[0], m[0]));
                    } else {
                        assert(m[k] == rest[k - 1]);
                        let j = choose|j: int|
                            0 <= j < t.len() && same_but_amplitude(
                                #[trigger] t[j],
                                #[trigger] rest[k - 1],
                            );
                        assert(s[j + 1] == t[j]);
                        assert(same_but_amplitude(s[j + 1], m[k]));
                    }
                }
            },
        }
    }
}

/// In a merged frame no physics event absorbs a later record.
pub proof fn lemma_merged_settled(ignore_borders: bool, s: Seq<NumassEvent>)
    ensures
        settled(ignore_borders, merged(ignore_borders, s)),
    decreases s.len(),
{
    if s.len() > 0 {
        let t = s.skip(1);
        let m = merged(ignore_borders, s);
        match s[0].1 {
            FrameEvent::Event { channel, amplitude, size } => {
                let u = survivors(ignore_borders, channel, t);
                lemma_survivors_total(ignore_borders, channel, t);
                lemma_survivors_len(ignore_borders, channel, t);
                lemma_merged_settled(ignore_borders, u);
                lemma_merged_from(ignore_borders, u);
                let rest = merged(ignore_borders, u);
                assert forall|i: int, j: int| 0 <= i < j < m.len() implies !(#[trigger] m[i].1 is Event
                    && absorbs(ignore_borders, channel_of(m[i]), #[trigger] m[j])) by {
                    assert(m[j] == rest[j - 1]);
                    if i == 0 {
                        let x = choose|x: int|
                            0 <= x < u.len() && same_but_amplitude(
                                #[trigger] u[x],
                                #[trigger] rest[j - 1],
                            );
                        assert(!absorbs(ignore_borders, channel, u[x]));
                    } else {
                        assert(m[i] == rest[i - 1]);
                    }
                }
            },
            _ => {
                lemma_merged_settled(ignore_borders, t);
                let rest = merged(ignore_borders, t);
                assert forall|i: int, j: int| 0 <= i < j < m.len() implies !(#[trigger] m[i].1 is Event
                    && absorbs(ignore_borders, channel_of(m[i]), #[trigger] m[j])) by {
                    assert(m[j] == rest[j - 1]);
                    if i > 0 {
                        assert(m[i] == rest[i - 1]);
                    }
                }
            },
        }
    }
}

/// An event that absorbs nothing of `s` leaves all of it and takes up
/// nothing.
pub proof fn lemma_nothing_absorbed(ignore_borders: bool, channel: u8, s: Seq<NumassEvent>)
    requires
        forall|k: int| 0 <= k < s.len() ==> !absorbs(ignore_borders, channel, #[trigger] s[k]),
    ensures
        survivors(ignore_borders, channel, s) == s,
        absorbed_sum(ignore_borders, channel, s) == 0,
    decreases s.len(),
{
    if s.len() > 0 {
        let t = s.skip(1);
        assert forall|k: int| 0 <= k < t.len() implies !absorbs(
            ignore_borders,
            channel,
            #[trigger] t[k],
        ) by {
            assert(t[k] == s[k + 1]);
        }
        lemma_nothing_absorbed(ignore_borders, channel, t);
        assert(seq![s[0]] + t =~= s);
    }
}

/// A frame in which no physics event absorbs a later record is left as it
/// is.
pub proof fn lemma_settled_fixed(ignore_borders: bool, s: Seq<NumassEvent>)
    requires
        settled(ignore_borders, s),
    ensures
        merged(ignore_borders, s) == s,
    decreases s.len(),
{
    if s.len() > 0 {
        let t = s.skip(1);
        assert forall|i: int, j: int| 0 <= i < j < t.len() implies !(#[trigger] t[i].1 is Event
            && absorbs(ignore_borders, channel_of(t[i]), #[trigger] t[j])) by {
            assert(t[i] == s[i + 1] && t[j] == s[j + 1]);
        }
        lemma_settled_fixed(ignore_borders, t);
        match s[0].1 {
            FrameEvent::Event { channel, amplitude, size } => {
                assert forall|k: int| 0 <= k < t.len() implies !absorbs(
                    ignore_borders,
                    channel,
                    #[trigger] t[k],
                ) by {
                    assert(t[k] == s[k + 1]);
                    assert(s[0].1 is Event);
                }
                lemma_nothing_absorbed(ignore_borders, channel, t);
                assert(seq![s[0]] + t =~= s);
            },
            _ => {
                assert(seq![s[0]] + t =~= s);
            },
        }
    }
}

/// Cutting removes exactly the frames that begin in a bad block: a frame is
/// left if and only if it was there and begins in none.
pub proof fn lemma_good_frames(
    bad_blocks: Set<usize>,
    frames: Seq<(u64, Seq<NumassEvent>)>,
    f: (u64, Seq<NumassEvent>),
)
    ensures
        good_frames(bad_blocks, frames).contains(f) <==> frames.contains(f) && !in_bad_block(
            bad_blocks,
            f.0,
        ),
        good_frames(bad_blocks, frames).len() <= frames.len(),
    decreases frames.len(),
{
    if frames.len() > 0 {
        let t = frames.drop_last();
        lemma_good_frames(bad_blocks, t, f);
        let g = good_frames(bad_blocks, frames);
        let gt = good_frames(bad_blocks, t);
        if frames.contains(f) && !in_bad_block(bad_blocks, f.0) {
            let i = choose|i: int| 0 <= i < frames.len() && frames[i] == f;
            if i < t.len() {
                assert(t[i] == f);
                assert(t.contains(f));
                let j = choose|j: int| 0 <= j < gt.len() && gt[j] == f;
                assert(g[j] == f);
            } else {
                assert(g.last() == f);
            }
        }
        if g.contains(f) {
            let j = choose|j: int| 0 <= j < g.len() && g[j] == f;
            if j < gt.len() {
                assert(gt[j] == f);
                assert(gt.contains(f));
                let i = choose|i: int| 0 <= i < t.len() && t[i] == f;
                assert(frames[i] == f);
            } else {
                assert(frames.last() == f);
                assert(frames[frames.len() - 1] == f);
            }
        }
    }
}

// ---------------------------------------------------------------------------
// Postprocessing twice
// ---------------------------------------------------------------------------

/// Every record that is left after masking is one of the frame, and records
/// keep their order.
pub proof fn lemma_masked_from(mask: ChannelIgnore, s: Seq<NumassEvent>)
    ensures
        masked(mask, s).len() <= s.len(),
        forall|k: int|
            0 <= k < masked(mask, s).len() ==> !is_masked_event(mask, #[trigger] masked(mask, s)[k]),
        forall|x: int, y: int|
            0 <= x < y < masked(mask, s).len() ==> exists|i: int, j: int|
                0 <= i < j < s.len() && s[i] == #[trigger] masked(mask, s)[x] && s[j]
                    == #[trigger] masked(mask, s)[y],
        forall|x: int|
            0 <= x < masked(mask, s).len() ==> exists|i: int|
                0 <= i < s.len() && s[i] == #[trigger] masked(mask, s)[x],
    decreases s.len(),
{
    if s.len() > 0 {
        let t = s.drop_last();
        lemma_masked_from(mask, t);
        let m = masked(mask, s);
        let mt = masked(mask, t);
        assert forall|x: int| 0 <= x < m.len() implies exists|i: int|
            0 <= i < s.len() && s[i] == #[trigger] m[x] by {
            if x < mt.len() {
                let i = choose|i: int| 0 <= i < t.len() && t[i] == mt[x];
                assert(s[i] == m[x]);
            } else {
                assert(s[s.len() - 1] == m[x]);
            }
        }
        assert forall|x: int, y: int| 0 <= x < y < m.len() implies exists|i: int, j: int|
            0 <= i < j < s.len() && s[i] == #[trigger] m[x] && s[j] == #[trigger] m[y] by {
            if y < mt.len() {
                let (i, j) = choose|i: int, j: int|
                    0 <= i < j < t.len() && t[i] == mt[x] && t[j] == mt[y];
                assert(s[i] == m[x] && s[j] == m[y]);
            } else {
                let i = choose|i: int| 0 <= i < t.len() && t[i] == mt[x];
                assert(s[i] == m[x] && s[s.len() - 1] == m[y]);
            }
        }
    }
}

/// Masking a second time changes nothing.
pub proof fn lemma_masked_idempotent(mask: ChannelIgnore, s: Seq<NumassEvent>)
    ensures
        masked(mask, masked(mask, s)) == masked(mask, s),
{
    lemma_masked_from(mask, s);
    lemma_unmasked_fixed(mask, masked(mask, s));
}

/// A frame without masked events is left as it is.
pub proof fn lemma_unmasked_fixed(mask: ChannelIgnore, s: Seq<NumassEvent>)
    requires
        forall|k: int| 0 <= k < s.len() ==> !is_masked_event(mask, #[trigger] s[k]),
    ensures
        masked(mask, s) == s,
    decreases s.len(),
{
    if s.len() > 0 {
        let t = s.drop_last();
        assert forall|k: int| 0 <= k < t.len() implies !is_masked_event(mask, #[trigger] t[k]) by {
            assert(t[k] == s[k]);
        }
        lemma_unmasked_fixed(mask, t);
        assert(!is_masked_event(mask, s[s.len() - 1]));
        assert(t.push(s.last()) =~= s);
    }
}

/// Masking leaves a frame in which no event absorbs a later record in
/// that state.
pub proof fn lemma_settled_masked(ignore_borders: bool, mask: ChannelIgnore, s: Seq<NumassEvent>)
    requires
        settled(ignore_borders, s),
    ensures
        settled(ignore_borders, masked(mask, s)),
{
    lemma_masked_from(mask, s);
    let m = masked(mask, s);
    assert forall|x: int, y: int| 0 <= x < y < m.len() implies !(#[trigger] m[x].1 is Event
        && absorbs(ignore_borders, channel_of(m[x]), #[trigger] m[y])) by {
        let (i, j) = choose|i: int, j: int| 0 <= i < j < s.len() && s[i] == m[x] && s[j] == m[y];
        assert(!(s[i].1 is Event && absorbs(ignore_borders, channel_of(s[i]), s[j])));
    }
}

/// Any two frames begin `gap` nanoseconds apart at least, the later one
/// behind the earlier.
pub open spec fn spaced(frames: Seq<(u64, Seq<NumassEvent>)>, gap: int) -> bool {
    forall|i: int, j: int|
        0 <= i < j < frames.len() ==> frames[i].0 < frames[j].0 && frames[j].0 - frames[i].0 >= gap
}

/// The frames that are left after joining begin `merge_len` apart at
/// least, and each begins where a frame began that was joined to no other.
pub proof fn lemma_coalesced_spaced(
    frames: Seq<(u64, Seq<NumassEvent>)>,
    merge_len: u16,
    frame_len: u64,
    k: int,
)
    requires
        times_ascend(frames),
        0 <= k,
    ensures
        spaced(coalesced_from(frames, merge_len, frame_len, k), merge_len as int),
        forall|x: int|
            0 <= x < coalesced_from(frames, merge_len, frame_len, k).len() ==> exists|i: int|
                k <= i < frames.len() && !joined(frames, merge_len, i) && frames[i].0
                    == (#[trigger] coalesced_from(frames, merge_len, frame_len, k)[x]).0,
    decreases frames.len() - k,
{
    if k < frames.len() {
        lemma_coalesced_spaced(frames, merge_len, frame_len, k + 1);
        let rest = coalesced_from(frames, merge_len, frame_len, k + 1);
        let all = coalesced_from(frames, merge_len, frame_len, k);
        assert forall|x: int| 0 <= x < all.len() implies exists|i: int|
            k <= i < frames.len() && !joined(frames, merge_len, i) && frames[i].0 == (
            #[trigger] all[x]).0 by {
            if joined(frames, merge_len, k) {
                let i = choose|i: int|
                    k + 1 <= i < frames.len() && !joined(frames, merge_len, i) && frames[i].0
                        == rest[x].0;
                assert(frames[i].0 == all[x].0);
            } else if x == 0 {
                assert(frames[k].0 == all[x].0);
            } else {
                assert(all[x] == rest[x - 1]);
                let i = choose|i: int|
                    k + 1 <= i < frames.len() && !joined(frames, merge_len, i) && frames[i].0
                        == rest[x - 1].0;
                assert(frames[i].0 == all[x].0);
            }
        }
        if !joined(frames, merge_len, k) {
            assert forall|x: int, y: int| 0 <= x < y < all.len() implies all[x].0 < all[y].0
                && all[y].0 - all[x].0 >= merge_len by {
                assert(all[y] == rest[y - 1]);
                if x == 0 {
                    let i = choose|i: int|
                        k + 1 <= i < frames.len() && !joined(frames, merge_len, i) && frames[i].0
                            == rest[y - 1].0;
                    if i - 1 > k {
                        assert(frames[k].0 < frames[i - 1].0);
                    }
                    assert(frames[i - 1].0 < frames[i].0);
                } else {
                    assert(all[x] == rest[x - 1]);
                }
            }
        }
    }
}

/// Frames that begin `merge_len` apart at least are joined to no other:
/// joining leaves them as they are.
pub proof fn lemma_spaced_fixed(
    frames: Seq<(u64, Seq<NumassEvent>)>,
    merge_len: u16,
    frame_len: u64,
    k: int,
)
    requires
        spaced(frames, merge_len as int),
        0 <= k <= frames.len(),
    ensures
        coalesced_from(frames, merge_len, frame_len, k) == frames.skip(k),
    decreases frames.len() - k,
{
    if k < frames.len() {
        lemma_spaced_fixed(frames, merge_len, frame_len, k + 1);
        if k > 0 {
            assert(frames[k].0 - frames[k - 1].0 >= merge_len);
        }
        if k + 1 < frames.len() {
            assert(frames[k + 1].0 - frames[k].0 >= merge_len);
        }
        assert(chain(frames, merge_len, frame_len, k) == frames[k].1);
        assert(seq![frames[k]] + frames.skip(k + 1) =~= frames.skip(k));
    } else {
        assert(frames.skip(k) =~= Seq::<(u64, Seq<NumassEvent>)>::empty());
    }
}

/// What is left after cutting is a selection of the frames in their order.
pub proof fn lemma_good_frames_from(bad_blocks: Set<usize>, frames: Seq<(u64, Seq<NumassEvent>)>)
    ensures
        forall|x: int|
            0 <= x < good_frames(bad_blocks, frames).len() ==> !in_bad_block(
                bad_blocks,
                (#[trigger] good_frames(bad_blocks, frames)[x]).0,
            ),
        forall|x: int, y: int|
            0 <= x < y < good_frames(bad_blocks, frames).len() ==> exists|i: int, j: int|
                0 <= i < j < frames.len() && frames[i] == #[trigger] good_frames(
                    bad_blocks,
                    frames,
                )[x] && frames[j] == #[trigger] good_frames(bad_blocks, frames)[y],
        forall|x: int|
            0 <= x < good_frames(bad_blocks, frames).len() ==> exists|i: int|
                0 <= i < frames.len() && frames[i] == #[trigger] good_frames(bad_blocks, frames)[x],
    decreases frames.len(),
{
    if frames.len() > 0 {
        let t = frames.drop_last();
        lemma_good_frames_from(bad_blocks, t);
        let g = good_frames(bad_blocks, frames);
        let gt = good_frames(bad_blocks, t);
        assert forall|x: int| 0 <= x < g.len() implies exists|i: int|
            0 <= i < frames.len() && frames[i] == #[trigger] g[x] by {
            if x < gt.len() {
                let i = choose|i: int| 0 <= i < t.len() && t[i] == gt[x];
                assert(frames[i] == g[x]);
            } else {
                assert(frames[frames.len() - 1] == g[x]);
            }
        }
        assert forall|x: int, y: int| 0 <= x < y < g.len() implies exists|i: int, j: int|
            0 <= i < j < frames.len() && frames[i] == #[trigger] g[x] && frames[j]
                == #[trigger] g[y] by {
            if y < gt.len() {
                let (i, j) = choose|i: int, j: int|
                    0 <= i < j < t.len() && t[i] == gt[x] && t[j] == gt[y];
                assert(frames[i] == g[x] && frames[j] == g[y]);
            } else {
                let i = choose|i: int| 0 <= i < t.len() && t[i] == gt[x];
                assert(frames[i] == g[x] && frames[frames.len() - 1] == g[y]);
            }
        }
    }
}

/// Frames of which none begins in a bad block are all left.
pub proof fn lemma_all_good(bad_blocks: Set<usize>, frames: Seq<(u64, Seq<NumassEvent>)>)
    requires
        forall|k: int| 0 <= k < frames.len() ==> !in_bad_block(bad_blocks, (#[trigger] frames[k]).0),
    ensures
        good_frames(bad_blocks, frames) == frames,
    decreases frames.len(),
{
    if frames.len() > 0 {
        let t = frames.drop_last();
        assert forall|k: int| 0 <= k < t.len() implies !in_bad_block(
            bad_blocks,
            (#[trigger] t[k]).0,
        ) by {
            assert(t[k] == frames[k]);
        }
        lemma_all_good(bad_blocks, t);
        assert(!in_bad_block(bad_blocks, frames[frames.len() - 1].0));
        assert(t.push(frames.last()) =~= frames);
    }
}

/// The frames after joining, as [`post_processed`] takes them.
pub open spec fn joint_frames(
    params: PostProcessParams,
    frame_len: u64,
    frames: Seq<(u64, Seq<NumassEvent>)>,
) -> Seq<(u64, Seq<NumassEvent>)> {
    match params.merge_frames {
        Some(merge_len) => coalesced(frames, merge_len, frame_len),
        None => frames,
    }
}

/// Postprocessing the events of one frame a second time changes nothing.
pub proof fn lemma_frame_idempotent(params: PostProcessParams, s: Seq<NumassEvent>)
    ensures
        processed_frame(params, processed_frame(params, s)) == processed_frame(params, s),
{
    if params.merge_close_events {
        lemma_processed_fixed(params, s);
    }
}

/// Postprocessing one frame conserves amplitude: the sum of the amplitudes
/// of its physics events is the same after it as before. This holds where
/// the central pixel, if it collects first, takes up every event once, and
/// the amplitudes do not add up beyond the range of 64 bits.
pub proof fn lemma_frame_conserves(params: PostProcessParams, s: Seq<NumassEvent>)
    requires
        params.merge_close_events && params.merge_splits_first ==> collected_once(s),
        total_magnitude(s) <= i64::MAX,
    ensures
        total_amplitude(processed_frame(params, s)) == total_amplitude(s),
        total_magnitude(processed_frame(params, s)) <= total_magnitude(s),
{
    if params.merge_close_events {
        if params.merge_splits_first {
            lemma_splits_conserve(s);
            lemma_merged_conserves(params.ignore_borders, splits_merged(s));
        } else {
            lemma_merged_conserves(params.ignore_borders, s);
        }
    }
}

/// Postprocessing one frame conserves amplitude where no physics event lies
/// near two physics events of the central pixel, and the amplitudes do not
/// add up beyond the range of 64 bits.
pub proof fn lemma_frame_conserves_apart(params: PostProcessParams, s: Seq<NumassEvent>)
    requires
        near_one_central(s),
        total_magnitude(s) <= i64::MAX,
    ensures
        total_amplitude(processed_frame(params, s)) == total_amplitude(s),
{
    lemma_apart_collected_once(s);
    lemma_frame_conserves(params, s);
}

/// Postprocessing is idempotent: done again on its own result it changes
/// nothing.
pub proof fn lemma_post_process_idempotent(
    params: PostProcessParams,
    bad_blocks: Set<usize>,
    frame_len: u64,
    frames: Seq<(u64, Seq<NumassEvent>)>,
)
    requires
        times_ascend(frames),
    ensures
        times_ascend(post_processed(params, bad_blocks, frame_len, frames)),
        post_processed(
            params,
            bad_blocks,
            frame_len,
            post_processed(params, bad_blocks, frame_len, frames),
        ) == post_processed(params, bad_blocks, frame_len, frames),
{
    let mask = params.ignore_channels;
    let gap: int = match params.merge_frames {
        Some(merge_len) => merge_len as int,
        None => 0,
    };
    let joint = joint_frames(params, frame_len, frames);
    // the frames after joining are spaced
    match params.merge_frames {
        Some(merge_len) => {
            lemma_coalesced_spaced(frames, merge_len, frame_len, 0);
        },
        None => {
            assert(spaced(joint, 0));
        },
    }
    let cut = if params.merge_close_events && params.cut_bad_blocks {
        good_frames(bad_blocks, joint)
    } else {
        joint
    };
    lemma_good_frames_from(bad_blocks, joint);
    assert(spaced(cut, gap)) by {
        assert forall|x: int, y: int| 0 <= x < y < cut.len() implies cut[x].0 < cut[y].0
            && cut[y].0 - cut[x].0 >= gap by {
            if params.merge_close_events && params.cut_bad_blocks {
                let (i, j) = choose|i: int, j: int|
                    0 <= i < j < joint.len() && joint[i] == cut[x] && joint[j] == cut[y];
                assert(joint[i].0 < joint[j].0 && joint[j].0 - joint[i].0 >= gap);
            }
        }
    }
    let result = post_processed(params, bad_blocks, frame_len, frames);
    assert(result.len() == cut.len());
    assert forall|k: int| 0 <= k < result.len() implies (#[trigger] result[k]).0 == cut[k].0 by {}
    assert(spaced(result, gap)) by {
        assert forall|x: int, y: int| 0 <= x < y < result.len() implies result[x].0 < result[y].0
            && result[y].0 - result[x].0 >= gap by {
            assert(cut[x].0 < cut[y].0 && cut[y].0 - cut[x].0 >= gap);
        }
    }
    // joining the result again leaves it
    let joint2 = joint_frames(params, frame_len, result);
    match params.merge_frames {
        Some(merge_len) => {
            lemma_spaced_fixed(result, merge_len, frame_len, 0);
            assert(result.skip(0) =~= result);
        },
        None => {},
    }
    assert(joint2 == result);
    if !params.merge_close_events {
        assert forall|k: int| 0 <= k < result.len() implies masked(mask, (#[trigger] result[k]).1)
            == result[k].1 by {
            lemma_masked_idempotent(mask, joint[k].1);
        }
        assert(mask_frames(mask, result) =~= result);
    } else {
        // no frame of the result begins in a bad block, where they are cut
        if params.cut_bad_blocks {
            assert forall|k: int| 0 <= k < result.len() implies !in_bad_block(
                bad_blocks,
                (#[trigger] result[k]).0,
            ) by {
                assert(result[k].0 == cut[k].0);
            }
            lemma_all_good(bad_blocks, result);
        }
        let again = mask_frames(mask, process_frames(params, result));
        assert forall|k: int| 0 <= k < result.len() implies (#[trigger] again[k]) == result[k] by {
            let s = cut[k].1;
            let once = processed_frame(params, s);
            assert(result[k].1 == masked(mask, once));
            lemma_processed_fixed(params, s);
            lemma_masked_idempotent(mask, once);
        }
        assert(again =~= result);
    }
}

/// Whether the frames stand in the order of their start times, each time
/// once.
pub fn times_are_ascending(amplitudes: &NumassEvents) -> (ok: bool)
    ensures
        ok == times_ascend(frames_view(amplitudes@)),
{
    let mut k: usize = 1;
    while k < amplitudes.len()
        invariant
            1 <= k,
            forall|i: int, j: int|
                0 <= i < j < k && j < amplitudes@.len() ==> amplitudes@[i].0 < amplitudes@[j].0,
        decreases amplitudes.len() - k,
    {
        if amplitudes[k - 1].0 >= amplitudes[k].0 {
            proof {
                assert(!(frames_view(amplitudes@)[k - 1].0 < frames_view(amplitudes@)[k as int].0));
            }
            return false;
        }
        proof {
            assert forall|i: int, j: int|
                0 <= i < j < k + 1 && j < amplitudes@.len() implies amplitudes@[i].0
                < amplitudes@[j].0 by {
                if j == k && i < k - 1 {
                    assert(amplitudes@[i].0 < amplitudes@[k - 1].0);
                }
            }
        }
        k += 1;
    }
    proof {
        assert forall|i: int, j: int| 0 <= i < j < amplitudes@.len() implies frames_view(
            amplitudes@,
        )[i].0 < frames_view(amplitudes@)[j].0 by {
            assert(amplitudes@[i].0 < amplitudes@[j].0);
        }
    }
    true
}

impl From<[bool; 7]> for ChannelIgnore {
    fn from(value: [bool; 7]) -> (m: Self) {
        ChannelIgnore {
            ch1: value[0],
            ch2: value[1],
            ch3: value[2],
            ch4: value[3],
            ch5: value[4],
            ch6: value[5],
            ch7: value[6],
        }
    }
}

impl vstd::std_specs::convert::FromSpecImpl<[bool; 7]> for ChannelIgnore {
    open spec fn obeys_from_spec() -> bool {
        true
    }

    open spec fn from_spec(value: [bool; 7]) -> Self {
        ChannelIgnore {
            ch1: value[0],
            ch2: value[1],
            ch3: value[2],
            ch4: value[3],
            ch5: value[4],
            ch6: value[5],
            ch7: value[6],
        }
    }
}

impl From<ChannelIgnore> for [bool; 7] {
    fn from(value: ChannelIgnore) -> (a: Self) {
        let a = [value.ch1, value.ch2, value.ch3, value.ch4, value.ch5, value.ch6, value.ch7];
        proof {
            let b: [bool; 7] = [
                value.ch1,
                value.ch2,
                value.ch3,
                value.ch4,
                value.ch5,
                value.ch6,
                value.ch7,
            ];
            assert(a@ =~= b@);
            assert(a =~= b);
        }
        a
    }
}

impl vstd::std_specs::convert::FromSpecImpl<ChannelIgnore> for [bool; 7] {
    open spec fn obeys_from_spec() -> bool {
        true
    }

    open spec fn from_spec(value: ChannelIgnore) -> Self {
        [value.ch1, value.ch2, value.ch3, value.ch4, value.ch5, value.ch6, value.ch7]
    }
}

// ---------------------------------------------------------------------------
// What postprocessing keeps
// ---------------------------------------------------------------------------

/// Sum of the amplitudes of the physics events of all frames.
pub open spec fn point_amplitude(frames: Seq<(u64, Seq<NumassEvent>)>) -> int
    decreases frames.len(),
{
    if frames.len() == 0 {
        0
    } else {
        total_amplitude(frames[0].1) + point_amplitude(frames.skip(1))
    }
}

/// Sum of the absolute amplitudes of the physics events of all frames.
pub open spec fn point_magnitude(frames: Seq<(u64, Seq<NumassEvent>)>) -> int
    decreases frames.len(),
{
    if frames.len() == 0 {
        0
    } else {
        total_magnitude(frames[0].1) + point_magnitude(frames.skip(1))
    }
}

/// The amplitudes of two lists in a row add up.
pub proof fn lemma_total_concat(a: Seq<NumassEvent>, b: Seq<NumassEvent>)
    ensures
        total_amplitude(a + b) == total_amplitude(a) + total_amplitude(b),
        total_magnitude(a + b) == total_magnitude(a) + total_magnitude(b),
    decreases a.len(),
{
    if a.len() == 0 {
        assert(a + b =~= b);
    } else {
        lemma_total_concat(a.skip(1), b);
        assert((a + b).skip(1) =~= a.skip(1) + b);
        assert((a + b)[0] == a[0]);
    }
}

/// Moving events in time leaves their amplitudes.
pub proof fn lemma_total_shift(s: Seq<NumassEvent>, by: u16)
    ensures
        total_amplitude(shift_events(s, by)) == total_amplitude(s),
        total_magnitude(shift_events(s, by)) == total_magnitude(s),
    decreases s.len(),
{
    if s.len() > 0 {
        lemma_total_shift(s.skip(1), by);
        assert(shift_events(s, by).skip(1) =~= shift_events(s.skip(1), by));
        assert(amplitude_of(shift_events(s, by)[0]) == amplitude_of(s[0]));
    }
}

/// Joining frames conserves amplitude: what is left of the frames from `k` on,
/// with what frame `k` hands to the frame before it, holds the amplitudes
/// of these frames.
pub proof fn lemma_coalesced_total(
    frames: Seq<(u64, Seq<NumassEvent>)>,
    merge_len: u16,
    frame_len: u64,
    k: int,
)
    requires
        0 <= k <= frames.len(),
    ensures
        point_amplitude(coalesced_from(frames, merge_len, frame_len, k)) + (if joined(
            frames,
            merge_len,
            k,
        ) {
            total_amplitude(chain(frames, merge_len, frame_len, k))
        } else {
            0
        }) == point_amplitude(frames.skip(k)),
        point_magnitude(coalesced_from(frames, merge_len, frame_len, k)) + (if joined(
            frames,
            merge_len,
            k,
        ) {
            total_magnitude(chain(frames, merge_len, frame_len, k))
        } else {
            0
        }) == point_magnitude(frames.skip(k)),
    decreases frames.len() - k,
{
    if k < frames.len() {
        lemma_coalesced_total(frames, merge_len, frame_len, k + 1);
        assert(frames.skip(k).skip(1) =~= frames.skip(k + 1));
        assert(frames.skip(k)[0] == frames[k]);
        let own = frames[k].1;
        let here = chain(frames, merge_len, frame_len, k);
        if joined(frames, merge_len, k + 1) {
            let carried = shift_events(
                chain(frames, merge_len, frame_len, k + 1),
                frame_shift(frames[k].0, frames[k + 1].0, frame_len),
            );
            lemma_total_shift(
                chain(frames, merge_len, frame_len, k + 1),
                frame_shift(frames[k].0, frames[k + 1].0, frame_len),
            );
            lemma_total_concat(own, carried);
        }
        if !joined(frames, merge_len, k) {
            let rest = coalesced_from(frames, merge_len, frame_len, k + 1);
            let all = seq![(frames[k].0, here)] + rest;
            assert(all.skip(1) =~= rest);
            assert(all[0] == (frames[k].0, here));
        }
    } else {
        assert(frames.skip(k) =~= Seq::<(u64, Seq<NumassEvent>)>::empty());
    }
}

/// Frames that hold the same amplitudes one by one hold the same in all.
pub proof fn lemma_point_amplitude_same(
    a: Seq<(u64, Seq<NumassEvent>)>,
    b: Seq<(u64, Seq<NumassEvent>)>,
)
    requires
        a.len() == b.len(),
        forall|i: int|
            0 <= i < a.len() ==> total_amplitude((#[trigger] a[i]).1) == total_amplitude(b[i].1),
    ensures
        point_amplitude(a) == point_amplitude(b),
    decreases a.len(),
{
    if a.len() > 0 {
        assert forall|i: int| 0 <= i < a.skip(1).len() implies total_amplitude(
            (#[trigger] a.skip(1)[i]).1,
        ) == total_amplitude(b.skip(1)[i].1) by {
            assert(a.skip(1)[i] == a[i + 1]);
            assert(b.skip(1)[i] == b[i + 1]);
        }
        lemma_point_amplitude_same(a.skip(1), b.skip(1));
        assert(total_amplitude(a[0].1) == total_amplitude(b[0].1));
    }
}

/// The amplitudes of one frame are among those of all.
pub proof fn lemma_frame_magnitude(frames: Seq<(u64, Seq<NumassEvent>)>, i: int)
    requires
        0 <= i < frames.len(),
    ensures
        total_magnitude(frames[i].1) <= point_magnitude(frames),
        point_magnitude(frames) >= 0,
    decreases frames.len(),
{
    lemma_magnitude_nonnegative(frames[0].1);
    lemma_point_magnitude_nonnegative(frames.skip(1));
    if i > 0 {
        lemma_frame_magnitude(frames.skip(1), i - 1);
        assert(frames.skip(1)[i - 1] == frames[i]);
    }
}

/// A sum of absolute amplitudes is not negative.
pub proof fn lemma_point_magnitude_nonnegative(frames: Seq<(u64, Seq<NumassEvent>)>)
    ensures
        point_magnitude(frames) >= 0,
    decreases frames.len(),
{
    if frames.len() > 0 {
        lemma_magnitude_nonnegative(frames[0].1);
        lemma_point_magnitude_nonnegative(frames.skip(1));
    }
}

/// Postprocessing conserves amplitude: the sum of the amplitudes of all
/// physics events is the same after it as before. This holds where no
/// channel is masked, no frame is cut for a bad block, the central pixel, if
/// it collects first, takes up every event of a frame once, and the
/// amplitudes do not add up beyond the range of 64 bits.
pub proof fn lemma_post_process_conserves(
    params: PostProcessParams,
    bad_blocks: Set<usize>,
    frame_len: u64,
    frames: Seq<(u64, Seq<NumassEvent>)>,
)
    requires
        params.ignore_channels.is_clear(),
        !params.merge_close_events || !params.cut_bad_blocks || bad_blocks == Set::<usize>::empty(),
        params.merge_close_events && params.merge_splits_first ==> forall|i: int|
            0 <= i < joint_frames(params, frame_len, frames).len() ==> collected_once(
                (#[trigger] joint_frames(params, frame_len, frames)[i]).1,
            ),
        point_magnitude(frames) <= i64::MAX,
    ensures
        point_amplitude(post_processed(params, bad_blocks, frame_len, frames)) == point_amplitude(
            frames,
        ),
{
    let mask = params.ignore_channels;
    let joint = joint_frames(params, frame_len, frames);
    match params.merge_frames {
        Some(merge_len) => {
            lemma_coalesced_total(frames, merge_len, frame_len, 0);
            assert(frames.skip(0) =~= frames);
        },
        None => {},
    }
    assert(point_amplitude(joint) == point_amplitude(frames));
    assert(point_magnitude(joint) == point_magnitude(frames));
    let cut = if params.merge_close_events && params.cut_bad_blocks {
        good_frames(bad_blocks, joint)
    } else {
        joint
    };
    if params.merge_close_events && params.cut_bad_blocks {
        lemma_all_good(bad_blocks, joint);
    }
    assert(cut == joint);
    let result = post_processed(params, bad_blocks, frame_len, frames);
    assert(result.len() == joint.len());
    assert forall|i: int| 0 <= i < result.len() implies total_amplitude((#[trigger] result[i]).1)
        == total_amplitude(joint[i].1) by {
        let s = joint[i].1;
        let done = if params.merge_close_events {
            processed_frame(params, s)
        } else {
            s
        };
        assert(result[i].1 == masked(mask, done));
        assert forall|k: int| 0 <= k < done.len() implies !is_masked_event(
            mask,
            #[trigger] done[k],
        ) by {}
        lemma_unmasked_fixed(mask, done);
        lemma_frame_magnitude(joint, i);
        if params.merge_close_events {
            lemma_frame_conserves(params, s);
        }
    }
    lemma_point_amplitude_same(result, joint);
}

// ---------------------------------------------------------------------------
// The central pixel, a second time
// ---------------------------------------------------------------------------

/// Every physics event has the size zero.
pub open spec fn sizes_zero(s: Seq<NumassEvent>) -> bool {
    forall|i: int|
        0 <= i < s.len() ==> ((#[trigger] s[i]).1 matches FrameEvent::Event { size, .. } ==> size
            == 0)
}

/// What a pass of the collection from `idx` on leaves: as many records and
/// marks as there were; the records before `idx` as they were; marks that
/// were set still set; and every physics event from `idx` on that is not
/// marked with the size zero.
pub proof fn lemma_split_pass(s: Seq<NumassEvent>, marks: Seq<bool>, idx: int)
    requires
        0 <= idx,
        marks.len() == s.len(),
    ensures
        split_pass(s, marks, idx).0.len() == s.len(),
        split_pass(s, marks, idx).1.len() == s.len(),
        forall|i: int| 0 <= i < idx && i < s.len() ==> #[trigger] split_pass(s, marks, idx).0[i] == s[i],
        forall|i: int| 0 <= i < s.len() && marks[i] ==> #[trigger] split_pass(s, marks, idx).1[i],
        forall|i: int|
            idx <= i < s.len() && !split_pass(s, marks, idx).1[i] ==> ((#[trigger] split_pass(
                s,
                marks,
                idx,
            ).0[i]).1 matches FrameEvent::Event { size, .. } ==> size == 0),
        forall|i: int|
            0 <= i < s.len() && !((#[trigger] s[i]).1 is Event) ==> split_pass(s, marks, idx).0[i]
                == s[i],
    decreases s.len() - idx,
{
    if idx < s.len() {
        let r = split_step(s, marks, idx);
        lemma_split_pass(r.0, r.1, idx + 1);
        let f = split_pass(s, marks, idx);
        assert(f == split_pass(r.0, r.1, idx + 1));
        assert forall|i: int| 0 <= i < idx && i < s.len() implies #[trigger] f.0[i] == s[i] by {
            assert(f.0[i] == r.0[i]);
        }
        assert forall|i: int| 0 <= i < s.len() && marks[i] implies #[trigger] f.1[i] by {
            assert(r.1[i]);
        }
        assert forall|i: int| idx <= i < s.len() && !f.1[i] implies ((#[trigger] f.0[i]).1 matches FrameEvent::Event {
            size,
            ..
        } ==> size == 0) by {
            if i == idx {
                assert(f.0[idx] == r.0[idx]);
                if marks[idx] {
                    assert(r.1[idx]);
                }
            }
        }
        assert forall|i: int| 0 <= i < s.len() && !((#[trigger] s[i]).1 is Event) implies f.0[i]
            == s[i] by {
            assert(r.0[i] == s[i]);
            assert(!(r.0[i].1 is Event));
        }
    }
}

/// The records that are not marked are records of the list, in their order.
pub proof fn lemma_unmarked_from(s: Seq<NumassEvent>, marks: Seq<bool>)
    requires
        marks.len() >= s.len(),
    ensures
        forall|k: int|
            0 <= k < unmarked(s, marks).len() ==> exists|i: int|
                0 <= i < s.len() && !marks[i] && s[i] == #[trigger] unmarked(s, marks)[k],
    decreases s.len(),
{
    if s.len() > 0 {
        let t = s.drop_last();
        lemma_unmarked_from(t, marks);
        let u = unmarked(s, marks);
        let ut = unmarked(t, marks);
        assert forall|k: int| 0 <= k < u.len() implies exists|i: int|
            0 <= i < s.len() && !marks[i] && s[i] == #[trigger] u[k] by {
            if k < ut.len() {
                let i = choose|i: int| 0 <= i < t.len() && !marks[i] && t[i] == ut[k];
                assert(s[i] == u[k]);
            } else {
                assert(s[s.len() - 1] == u[k]);
            }
        }
    }
}

/// After the central pixel has collected, every physics event has the size
/// zero.
pub proof fn lemma_splits_sizes(s: Seq<NumassEvent>)
    ensures
        sizes_zero(splits_merged(s)),
{
    let zeros = Seq::new(s.len(), |k: int| false);
    lemma_split_pass(s, zeros, 0);
    let r = split_pass(s, zeros, 0);
    lemma_unmarked_from(r.0, r.1);
    let u = splits_merged(s);
    assert forall|k: int| 0 <= k < u.len() implies ((#[trigger] u[k]).1 matches FrameEvent::Event {
        size,
        ..
    } ==> size == 0) by {
        let i = choose|i: int| 0 <= i < r.0.len() && !r.1[i] && r.0[i] == u[k];
        assert(r.0[i] == u[k]);
    }
}

/// Merging and masking leave the sizes of physics events at zero.
pub proof fn lemma_sizes_stay(ignore_borders: bool, mask: ChannelIgnore, s: Seq<NumassEvent>)
    requires
        sizes_zero(s),
    ensures
        sizes_zero(merged(ignore_borders, s)),
        sizes_zero(masked(mask, s)),
{
    lemma_merged_from(ignore_borders, s);
    lemma_masked_from(mask, s);
    let m = merged(ignore_borders, s);
    assert forall|k: int| 0 <= k < m.len() implies ((#[trigger] m[k]).1 matches FrameEvent::Event {
        size,
        ..
    } ==> size == 0) by {
        let i = choose|i: int| 0 <= i < s.len() && same_but_amplitude(#[trigger] s[i], m[k]);
        assert(same_but_amplitude(s[i], m[k]));
    }
    let x = masked(mask, s);
    assert forall|k: int| 0 <= k < x.len() implies ((#[trigger] x[k]).1 matches FrameEvent::Event {
        size,
        ..
    } ==> size == 0) by {
        let i = choose|i: int| 0 <= i < s.len() && s[i] == x[k];
        assert(s[i] == x[k]);
    }
}

/// Where no record of `lo..hi` is a physics event, their amplitudes add up
/// to nothing, and marking them marks none.
pub proof fn lemma_no_events_between(s: Seq<NumassEvent>, marks: Seq<bool>, lo: int, hi: int)
    requires
        0 <= lo,
        hi <= s.len(),
        marks.len() == s.len(),
        forall|k: int| lo <= k < hi ==> !((#[trigger] s[k]).1 is Event),
    ensures
        amplitude_sum(s, lo, hi) == 0,
        mark_events(s, marks, lo, hi) == marks,
    decreases hi - lo,
{
    if hi > lo {
        lemma_no_events_between(s, marks, lo, hi - 1);
        assert(!(s[hi - 1].1 is Event));
    }
    assert(mark_events(s, marks, lo, hi) =~= marks);
}

/// The runs of near records lie within the frame.
pub proof fn lemma_reach_bounds(s: Seq<NumassEvent>, at: u16, k: int)
    requires
        0 <= k <= s.len(),
    ensures
        0 <= back_reach(s, at, k) <= k,
        k <= fwd_reach(s, at, k) <= s.len(),
{
    lemma_back_reach(s, at, k);
    lemma_fwd_reach(s, at, k);
}

/// The run of near records before `k` begins within the frame.
pub proof fn lemma_back_reach(s: Seq<NumassEvent>, at: u16, k: int)
    requires
        0 <= k <= s.len(),
    ensures
        0 <= back_reach(s, at, k) <= k,
    decreases k,
{
    if k > 0 && near(s[k - 1].0, at) {
        lemma_back_reach(s, at, k - 1);
    }
}

/// The run of near records from `k` on ends within the frame.
pub proof fn lemma_fwd_reach(s: Seq<NumassEvent>, at: u16, k: int)
    requires
        0 <= k <= s.len(),
    ensures
        k <= fwd_reach(s, at, k) <= s.len(),
    decreases s.len() - k,
{
    if k < s.len() && near(s[k].0, at) {
        lemma_fwd_reach(s, at, k + 1);
    }
}

/// In a frame in which no physics event absorbs a later record and all
/// sizes are zero, a step of the collection changes nothing.
pub proof fn lemma_split_step_fixed(ignore_borders: bool, s: Seq<NumassEvent>, idx: int)
    requires
        settled(ignore_borders, s),
        sizes_zero(s),
        0 <= idx < s.len(),
    ensures
        split_step(s, Seq::new(s.len(), |k: int| false), idx) == (
            s,
            Seq::new(s.len(), |k: int| false),
        ),
{
    let zeros = Seq::new(s.len(), |k: int| false);
    match s[idx].1 {
        FrameEvent::Event { channel, amplitude, size } => {
            assert(size == 0);
            if channel == CENTRAL_CHANNEL {
                assert forall|k: int| 0 <= k < s.len() && k != idx implies !((#[trigger] s[k]).1 is Event) by {
                    if s[k].1 is Event {
                        if k < idx {
                            assert(absorbs(ignore_borders, channel_of(s[k]), s[idx]));
                            assert(!(s[k].1 is Event && absorbs(
                                ignore_borders,
                                channel_of(s[k]),
                                s[idx],
                            )));
                        } else {
                            assert(absorbs(ignore_borders, channel_of(s[idx]), s[k]));
                            assert(!(s[idx].1 is Event && absorbs(
                                ignore_borders,
                                channel_of(s[idx]),
                                s[k],
                            )));
                        }
                    }
                }
                let lo = back_reach(s, s[idx].0, idx);
                let hi = fwd_reach(s, s[idx].0, idx + 1);
                lemma_reach_bounds(s, s[idx].0, idx);
                lemma_reach_bounds(s, s[idx].0, idx + 1);
                lemma_no_events_between(s, zeros, lo, idx);
                lemma_no_events_between(s, zeros, idx + 1, hi);
                assert(s.update(idx, s[idx]) =~= s);
            } else {
                assert(s.update(idx, s[idx]) =~= s);
            }
        },
        _ => {},
    }
}

/// In such a frame the whole pass changes nothing.
pub proof fn lemma_split_pass_fixed(ignore_borders: bool, s: Seq<NumassEvent>, idx: int)
    requires
        settled(ignore_borders, s),
        sizes_zero(s),
        0 <= idx,
    ensures
        split_pass(s, Seq::new(s.len(), |k: int| false), idx) == (
            s,
            Seq::new(s.len(), |k: int| false),
        ),
    decreases s.len() - idx,
{
    if idx < s.len() {
        lemma_split_step_fixed(ignore_borders, s, idx);
        lemma_split_pass_fixed(ignore_borders, s, idx + 1);
    }
}

/// Where nothing is marked, nothing is removed.
pub proof fn lemma_unmarked_all(s: Seq<NumassEvent>, marks: Seq<bool>)
    requires
        marks.len() >= s.len(),
        forall|i: int| 0 <= i < s.len() ==> !marks[i],
    ensures
        unmarked(s, marks) == s,
    decreases s.len(),
{
    if s.len() > 0 {
        lemma_unmarked_all(s.drop_last(), marks);
        assert(s.drop_last().push(s.last()) =~= s);
    }
}

/// A frame in which no physics event absorbs a later record and all sizes
/// are zero is left as it is by the central pixel.
pub proof fn lemma_splits_fixed(ignore_borders: bool, s: Seq<NumassEvent>)
    requires
        settled(ignore_borders, s),
        sizes_zero(s),
    ensures
        splits_merged(s) == s,
{
    lemma_split_pass_fixed(ignore_borders, s, 0);
    lemma_unmarked_all(s, Seq::new(s.len(), |k: int| false));
}

/// A frame that has been postprocessed and masked is left as it is when it
/// is postprocessed again.
pub proof fn lemma_processed_fixed(params: PostProcessParams, s: Seq<NumassEvent>)
    requires
        params.merge_close_events,
    ensures
        processed_frame(params, masked(params.ignore_channels, processed_frame(params, s)))
            == masked(params.ignore_channels, processed_frame(params, s)),
        processed_frame(params, processed_frame(params, s)) == processed_frame(params, s),
{
    let ib = params.ignore_borders;
    let mask = params.ignore_channels;
    let first = if params.merge_splits_first {
        splits_merged(s)
    } else {
        s
    };
    let once = merged(ib, first);
    assert(once == processed_frame(params, s));
    lemma_merged_settled(ib, first);
    lemma_settled_masked(ib, mask, once);
    let kept = masked(mask, once);
    lemma_settled_fixed(ib, kept);
    lemma_settled_fixed(ib, once);
    if params.merge_splits_first {
        lemma_splits_sizes(s);
        lemma_sizes_stay(ib, mask, first);
        lemma_sizes_stay(ib, mask, once);
        lemma_splits_fixed(ib, kept);
        lemma_splits_fixed(ib, once);
    }
}

// ---------------------------------------------------------------------------
// What the central pixel keeps
// ---------------------------------------------------------------------------

/// The absolute amplitude of a physics event; zero for the other records.
pub open spec fn magnitude_of(e: NumassEvent) -> int {
    if amplitude_of(e) >= 0 {
        amplitude_of(e)
    } else {
        -amplitude_of(e)
    }
}

/// Sum of the amplitudes of the records of `lo..hi` that are not marked.
pub open spec fn live_amplitude(s: Seq<NumassEvent>, marks: Seq<bool>, lo: int, hi: int) -> int
    decreases hi - lo,
{
    if hi <= lo {
        0
    } else {
        live_amplitude(s, marks, lo, hi - 1) + (if marks[hi - 1] {
            0
        } else {
            amplitude_of(s[hi - 1])
        })
    }
}

/// Sum of the absolute amplitudes of the records of `lo..hi` that are not
/// marked.
pub open spec fn live_magnitude(s: Seq<NumassEvent>, marks: Seq<bool>, lo: int, hi: int) -> int
    decreases hi - lo,
{
    if hi <= lo {
        0
    } else {
        live_magnitude(s, marks, lo, hi - 1) + (if marks[hi - 1] {
            0
        } else {
            magnitude_of(s[hi - 1])
        })
    }
}

/// The step at record `idx` takes up no record that is marked already: no
/// amplitude is collected twice.
pub open spec fn step_once(s: Seq<NumassEvent>, marks: Seq<bool>, idx: int) -> bool {
    (!marks[idx] && is_central(s[idx])) ==> forall|k: int|
        (back_reach(s, s[idx].0, idx) <= k < idx || idx < k < fwd_reach(s, s[idx].0, idx + 1))
            && (#[trigger] s[k]).1 is Event ==> !marks[k]
}

/// A physics event of the central pixel.
pub open spec fn is_central(e: NumassEvent) -> bool {
    match e.1 {
        FrameEvent::Event { channel, .. } => channel == CENTRAL_CHANNEL,
        _ => false,
    }
}

/// No step from `idx` on takes up a record that is marked already.
pub open spec fn collects_once(s: Seq<NumassEvent>, marks: Seq<bool>, idx: int) -> bool
    decreases s.len() - idx,
{
    if idx < 0 || idx >= s.len() {
        true
    } else {
        step_once(s, marks, idx) && collects_once(
            split_step(s, marks, idx).0,
            split_step(s, marks, idx).1,
            idx + 1,
        )
    }
}

/// Every event that the central pixel takes up is taken up once: none lies
/// in the reach of two collecting events.
pub open spec fn collected_once(s: Seq<NumassEvent>) -> bool {
    collects_once(s, Seq::new(s.len(), |k: int| false), 0)
}

/// The sums over two ranges in a row add up.
pub proof fn lemma_live_split(s: Seq<NumassEvent>, marks: Seq<bool>, lo: int, mid: int, hi: int)
    requires
        lo <= mid <= hi,
    ensures
        live_amplitude(s, marks, lo, hi) == live_amplitude(s, marks, lo, mid) + live_amplitude(
            s,
            marks,
            mid,
            hi,
        ),
        live_magnitude(s, marks, lo, hi) == live_magnitude(s, marks, lo, mid) + live_magnitude(
            s,
            marks,
            mid,
            hi,
        ),
        live_magnitude(s, marks, lo, hi) >= 0,
    decreases hi - mid,
{
    if hi > mid {
        lemma_live_split(s, marks, lo, mid, hi - 1);
    } else {
        lemma_live_nonnegative(s, marks, lo, mid);
    }
}

/// A sum of absolute amplitudes is not negative.
pub proof fn lemma_live_nonnegative(s: Seq<NumassEvent>, marks: Seq<bool>, lo: int, hi: int)
    ensures
        live_magnitude(s, marks, lo, hi) >= 0,
    decreases hi - lo,
{
    if hi > lo {
        lemma_live_nonnegative(s, marks, lo, hi - 1);
    }
}

/// Records with the same amplitudes and marks give the same sums.
pub proof fn lemma_live_same(
    a: Seq<NumassEvent>,
    ma: Seq<bool>,
    b: Seq<NumassEvent>,
    mb: Seq<bool>,
    lo: int,
    hi: int,
)
    requires
        forall|k: int|
            lo <= k < hi ==> amplitude_of(#[trigger] a[k]) == amplitude_of(b[k]) && ma[k] == mb[k],
    ensures
        live_amplitude(a, ma, lo, hi) == live_amplitude(b, mb, lo, hi),
        live_magnitude(a, ma, lo, hi) == live_magnitude(b, mb, lo, hi),
    decreases hi - lo,
{
    if hi > lo {
        lemma_live_same(a, ma, b, mb, lo, hi - 1);
        assert(amplitude_of(a[hi - 1]) == amplitude_of(b[hi - 1]));
    }
}

/// A range in which every physics event is marked adds nothing.
pub proof fn lemma_live_none(s: Seq<NumassEvent>, marks: Seq<bool>, lo: int, hi: int)
    requires
        forall|k: int| lo <= k < hi && (#[trigger] s[k]).1 is Event ==> marks[k],
    ensures
        live_amplitude(s, marks, lo, hi) == 0,
        live_magnitude(s, marks, lo, hi) == 0,
    decreases hi - lo,
{
    if hi > lo {
        lemma_live_none(s, marks, lo, hi - 1);
        assert(s[hi - 1].1 is Event ==> marks[hi - 1]);
    }
}

/// A range in which no physics event is marked adds the amplitudes of all
/// its physics events.
pub proof fn lemma_live_all(s: Seq<NumassEvent>, marks: Seq<bool>, lo: int, hi: int)
    requires
        forall|k: int| lo <= k < hi && (#[trigger] s[k]).1 is Event ==> !marks[k],
    ensures
        live_amplitude(s, marks, lo, hi) == amplitude_sum(s, lo, hi),
        -live_magnitude(s, marks, lo, hi) <= amplitude_sum(s, lo, hi) <= live_magnitude(
            s,
            marks,
            lo,
            hi,
        ),
    decreases hi - lo,
{
    if hi > lo {
        lemma_live_all(s, marks, lo, hi - 1);
        assert(s[hi - 1].1 is Event ==> !marks[hi - 1]);
    }
}

/// A step that takes up no marked record leaves the sum of the amplitudes
/// that are not marked, where these do not add up beyond 64 bits.
pub proof fn lemma_step_conserves(s: Seq<NumassEvent>, marks: Seq<bool>, idx: int)
    requires
        marks.len() == s.len(),
        0 <= idx < s.len(),
        step_once(s, marks, idx),
        live_magnitude(s, marks, 0, s.len() as int) <= i64::MAX,
    ensures
        live_amplitude(
            split_step(s, marks, idx).0,
            split_step(s, marks, idx).1,
            0,
            s.len() as int,
        ) == live_amplitude(s, marks, 0, s.len() as int),
        live_magnitude(
            split_step(s, marks, idx).0,
            split_step(s, marks, idx).1,
            0,
            s.len() as int,
        ) <= live_magnitude(s, marks, 0, s.len() as int),
        split_step(s, marks, idx).0.len() == s.len(),
        split_step(s, marks, idx).1.len() == s.len(),
{
    let n = s.len() as int;
    let r = split_step(s, marks, idx);
    if marks[idx] {
    } else {
        match s[idx].1 {
            FrameEvent::Event { channel, amplitude, .. } => {
                if channel == CENTRAL_CHANNEL {
                    let at = s[idx].0;
                    let lo = back_reach(s, at, idx);
                    let hi = fwd_reach(s, at, idx + 1);
                    lemma_reach_bounds(s, at, idx);
                    lemma_reach_bounds(s, at, idx + 1);
                    // the sums of the state before, range by range
                    lemma_live_split(s, marks, 0, lo, n);
                    lemma_live_split(s, marks, lo, idx, n);
                    lemma_live_split(s, marks, idx, idx + 1, n);
                    lemma_live_split(s, marks, idx + 1, hi, n);
                    lemma_live_nonnegative(s, marks, 0, lo);
                    lemma_live_nonnegative(s, marks, hi, n);
                    lemma_live_all(s, marks, lo, idx);
                    lemma_live_all(s, marks, idx + 1, hi);
                    assert(live_amplitude(s, marks, idx, idx) == 0);
                    assert(live_magnitude(s, marks, idx, idx) == 0);
                    assert(live_amplitude(s, marks, idx, idx + 1) == amplitude);
                    assert(live_magnitude(s, marks, idx, idx + 1) == magnitude_of(s[idx]));
                    let total = amplitude + amplitude_sum(s, lo, idx) + amplitude_sum(
                        s,
                        idx + 1,
                        hi,
                    );
                    assert(-i64::MAX <= total <= i64::MAX);
                    // and of the state after
                    lemma_live_split(r.0, r.1, 0, lo, n);
                    lemma_live_split(r.0, r.1, lo, idx, n);
                    lemma_live_split(r.0, r.1, idx, idx + 1, n);
                    lemma_live_split(r.0, r.1, idx + 1, hi, n);
                    lemma_live_same(s, marks, r.0, r.1, 0, lo);
                    lemma_live_same(s, marks, r.0, r.1, hi, n);
                    lemma_live_none(r.0, r.1, lo, idx);
                    lemma_live_none(r.0, r.1, idx + 1, hi);
                    assert(live_amplitude(r.0, r.1, idx, idx) == 0);
                    assert(live_magnitude(r.0, r.1, idx, idx) == 0);
                    assert(!r.1[idx]);
                    assert(amplitude_of(r.0[idx]) == total);
                    assert(live_amplitude(r.0, r.1, idx, idx + 1) == total);
                    assert(live_magnitude(r.0, r.1, idx, idx + 1) == magnitude_of(r.0[idx]));
                } else {
                    lemma_live_same(s, marks, r.0, r.1, 0, n);
                }
            },
            _ => {},
        }
    }
}

/// A pass that takes up no marked record leaves the sum of the amplitudes
/// that are not marked.
pub proof fn lemma_pass_conserves(s: Seq<NumassEvent>, marks: Seq<bool>, idx: int)
    requires
        marks.len() == s.len(),
        0 <= idx,
        collects_once(s, marks, idx),
        live_magnitude(s, marks, 0, s.len() as int) <= i64::MAX,
    ensures
        live_amplitude(
            split_pass(s, marks, idx).0,
            split_pass(s, marks, idx).1,
            0,
            s.len() as int,
        ) == live_amplitude(s, marks, 0, s.len() as int),
        live_magnitude(
            split_pass(s, marks, idx).0,
            split_pass(s, marks, idx).1,
            0,
            s.len() as int,
        ) <= live_magnitude(s, marks, 0, s.len() as int),
        split_pass(s, marks, idx).0.len() == s.len(),
        split_pass(s, marks, idx).1.len() == s.len(),
    decreases s.len() - idx,
{
    if idx < s.len() {
        lemma_step_conserves(s, marks, idx);
        let r = split_step(s, marks, idx);
        lemma_pass_conserves(r.0, r.1, idx + 1);
    }
}

/// The amplitudes of the records that are left are those of the records
/// that are not marked.
pub proof fn lemma_unmarked_total(s: Seq<NumassEvent>, marks: Seq<bool>)
    requires
        marks.len() >= s.len(),
    ensures
        total_amplitude(unmarked(s, marks)) == live_amplitude(s, marks, 0, s.len() as int),
        total_magnitude(unmarked(s, marks)) == live_magnitude(s, marks, 0, s.len() as int),
    decreases s.len(),
{
    if s.len() > 0 {
        let t = s.drop_last();
        lemma_unmarked_total(t, marks);
        lemma_live_same(s, marks, t, marks, 0, t.len() as int);
        if !marks[s.len() - 1] {
            lemma_total_concat(unmarked(t, marks), seq![s.last()]);
            assert(unmarked(t, marks).push(s.last()) =~= unmarked(t, marks) + seq![s.last()]);
            let one = seq![s.last()];
            assert(one.len() == 1 && one[0] == s.last());
            assert(one.skip(1) =~= Seq::<NumassEvent>::empty());
            assert(total_amplitude(Seq::<NumassEvent>::empty()) == 0);
            assert(total_magnitude(Seq::<NumassEvent>::empty()) == 0);
            assert(total_amplitude(one) == amplitude_of(one[0]) + total_amplitude(one.skip(1)));
            assert(total_amplitude(seq![s.last()]) == amplitude_of(s.last()));
            assert(total_magnitude(seq![s.last()]) == magnitude_of(s.last()));
        }
    }
}

/// The collection by the central pixel conserves amplitude where every
/// event is taken up once and the amplitudes do not add up beyond 64 bits.
pub proof fn lemma_splits_conserve(s: Seq<NumassEvent>)
    requires
        collected_once(s),
        total_magnitude(s) <= i64::MAX,
    ensures
        total_amplitude(splits_merged(s)) == total_amplitude(s),
        total_magnitude(splits_merged(s)) <= total_magnitude(s),
{
    let zeros = Seq::new(s.len(), |k: int| false);
    lemma_unmarked_all(s, zeros);
    lemma_unmarked_total(s, zeros);
    lemma_pass_conserves(s, zeros, 0);
    let r = split_pass(s, zeros, 0);
    lemma_unmarked_total(r.0, r.1);
}

/// Record `k` lies near record `i` and near record `j`.
pub open spec fn near_both(s: Seq<NumassEvent>, i: int, j: int, k: int) -> bool {
    near(s[k].0, s[i].0) && near(s[k].0, s[j].0)
}

/// No physics event lies near two other physics events that are of the
/// central pixel.
pub open spec fn near_one_central(s: Seq<NumassEvent>) -> bool {
    forall|i: int, j: int, k: int|
        0 <= i < j < s.len() && 0 <= k < s.len() && k != i && k != j && is_central(s[i])
            && is_central(s[j]) && s[k].1 is Event ==> !#[trigger] near_both(s, i, j, k)
}

/// The records of the runs before and behind a place are near it.
pub proof fn lemma_reach_near(s: Seq<NumassEvent>, at: u16, idx: int)
    requires
        0 <= idx <= s.len(),
    ensures
        forall|k: int| back_reach(s, at, idx) <= k < idx ==> near((#[trigger] s[k]).0, at),
        forall|k: int| idx <= k < fwd_reach(s, at, idx) ==> near((#[trigger] s[k]).0, at),
{
    lemma_back_near(s, at, idx);
    lemma_fwd_near(s, at, idx);
}

/// The records of the run before a place are near it.
pub proof fn lemma_back_near(s: Seq<NumassEvent>, at: u16, idx: int)
    requires
        0 <= idx <= s.len(),
    ensures
        forall|k: int| back_reach(s, at, idx) <= k < idx ==> near((#[trigger] s[k]).0, at),
    decreases idx,
{
    if idx > 0 && near(s[idx - 1].0, at) {
        lemma_back_near(s, at, idx - 1);
    }
}

/// The records of the run from a place on are near it.
pub proof fn lemma_fwd_near(s: Seq<NumassEvent>, at: u16, idx: int)
    requires
        0 <= idx <= s.len(),
    ensures
        forall|k: int| idx <= k < fwd_reach(s, at, idx) ==> near((#[trigger] s[k]).0, at),
    decreases s.len() - idx,
{
    if idx < s.len() && near(s[idx].0, at) {
        lemma_fwd_near(s, at, idx + 1);
    }
}

/// The state `t`, `marks` can be met at step `idx` of a pass over `s`: the
/// records stand where they stood and are of the kinds and channels they
/// were, and every marked record lies near an earlier event of the central
/// pixel.
pub open spec fn pass_state(
    s: Seq<NumassEvent>,
    t: Seq<NumassEvent>,
    marks: Seq<bool>,
    idx: int,
) -> bool {
    &&& t.len() == s.len()
    &&& marks.len() == s.len()
    &&& forall|k: int|
        0 <= k < s.len() ==> (#[trigger] t[k]).0 == s[k].0 && is_central(t[k]) == is_central(s[k])
            && (t[k].1 is Event) == (s[k].1 is Event)
    &&& forall|k: int|
        0 <= k < s.len() && #[trigger] marks[k] ==> exists|i: int|
            0 <= i < idx && i < s.len() && i != k && is_central(s[i]) && near(
                s[k].0,
                #[trigger] s[i].0,
            )
}

/// Where no event lies near two events of the central pixel, no step of the
/// pass takes up a marked record.
pub proof fn lemma_apart_pass(s: Seq<NumassEvent>, t: Seq<NumassEvent>, marks: Seq<bool>, idx: int)
    requires
        near_one_central(s),
        pass_state(s, t, marks, idx),
        0 <= idx,
    ensures
        collects_once(t, marks, idx),
    decreases s.len() - idx,
{
    if idx < s.len() {
        let at = t[idx].0;
        let lo = back_reach(t, at, idx);
        let hi = fwd_reach(t, at, idx + 1);
        lemma_reach_bounds(t, at, idx);
        lemma_reach_bounds(t, at, idx + 1);
        lemma_reach_near(t, at, idx);
        lemma_reach_near(t, at, idx + 1);
        if !marks[idx] && is_central(t[idx]) {
            assert forall|k: int|
                (lo <= k < idx || idx < k < hi) && (#[trigger] t[k]).1 is Event implies !marks[k] by {
                if marks[k] {
                    let i = choose|i: int|
                        0 <= i < idx && i < s.len() && i != k && is_central(s[i]) && near(
                            s[k].0,
                            #[trigger] s[i].0,
                        );
                    assert(near(t[k].0, at));
                    assert(is_central(s[idx]));
                    assert(s[k].1 is Event);
                    assert(!near_both(s, i, idx, k));
                }
            }
        }
        let r = split_step(t, marks, idx);
        assert(pass_state(s, r.0, r.1, idx + 1)) by {
            assert forall|k: int| 0 <= k < s.len() implies (#[trigger] r.0[k]).0 == s[k].0
                && is_central(r.0[k]) == is_central(s[k]) && (r.0[k].1 is Event) == (
            s[k].1 is Event) by {
                assert(t[k].0 == s[k].0);
            }
            assert forall|k: int| 0 <= k < s.len() && #[trigger] r.1[k] implies exists|i: int|
                0 <= i < idx + 1 && i < s.len() && i != k && is_central(s[i]) && near(
                    s[k].0,
                    #[trigger] s[i].0,
                ) by {
                if marks[k] {
                    let i = choose|i: int|
                        0 <= i < idx && i < s.len() && i != k && is_central(s[i]) && near(
                            s[k].0,
                            #[trigger] s[i].0,
                        );
                    assert(near(s[k].0, s[i].0));
                } else {
                    assert(is_central(t[idx]));
                    assert(k != idx);
                    assert(near(t[k].0, at));
                    assert(t[k].0 == s[k].0 && t[idx].0 == s[idx].0);
                    assert(is_central(s[idx]) && near(s[k].0, s[idx].0));
                }
            }
        }
        lemma_apart_pass(s, r.0, r.1, idx + 1);
    }
}

/// Where no physics event lies near two physics events of the central
/// pixel, every event that the central pixel takes up is taken up once.
pub proof fn lemma_apart_collected_once(s: Seq<NumassEvent>)
    requires
        near_one_central(s),
    ensures
        collected_once(s),
{
    lemma_apart_pass(s, s, Seq::new(s.len(), |k: int| false), 0);
}

// ---------------------------------------------------------------------------
// Postprocessing makes no events
// ---------------------------------------------------------------------------

/// One for a physics event, nothing for another record.
pub open spec fn event_count(e: NumassEvent) -> int {
    if e.1 is Event {
        1
    } else {
        0
    }
}

/// Number of the physics events of a frame.
pub open spec fn events_in(s: Seq<NumassEvent>) -> int
    decreases s.len(),
{
    if s.len() == 0 {
        0
    } else {
        event_count(s[0]) + events_in(s.skip(1))
    }
}

/// Number of the physics events of all frames.
pub open spec fn point_events_in(frames: Seq<(u64, Seq<NumassEvent>)>) -> int
    decreases frames.len(),
{
    if frames.len() == 0 {
        0
    } else {
        events_in(frames[0].1) + point_events_in(frames.skip(1))
    }
}

/// The events of two lists in a row are those of both.
pub proof fn lemma_events_concat(a: Seq<NumassEvent>, b: Seq<NumassEvent>)
    ensures
        events_in(a + b) == events_in(a) + events_in(b),
        events_in(a) >= 0,
    decreases a.len(),
{
    if a.len() == 0 {
        assert(a + b =~= b);
    } else {
        lemma_events_concat(a.skip(1), b);
        assert((a + b).skip(1) =~= a.skip(1) + b);
        assert((a + b)[0] == a[0]);
    }
}

/// A list with one more record has the events of the list and of the
/// record.
pub proof fn lemma_events_push(a: Seq<NumassEvent>, e: NumassEvent)
    ensures
        events_in(a.push(e)) == events_in(a) + event_count(e),
        events_in(a) >= 0,
{
    let one = seq![e];
    lemma_events_concat(a, one);
    assert(a.push(e) =~= a + one);
    assert(one.skip(1) =~= Seq::<NumassEvent>::empty());
    assert(events_in(Seq::<NumassEvent>::empty()) == 0);
    assert(events_in(one) == event_count(one[0]) + events_in(one.skip(1)));
}

/// The events of frames in a row are those of all of them.
pub proof fn lemma_point_events_concat(
    a: Seq<(u64, Seq<NumassEvent>)>,
    b: Seq<(u64, Seq<NumassEvent>)>,
)
    ensures
        point_events_in(a + b) == point_events_in(a) + point_events_in(b),
        point_events_in(a) >= 0,
    decreases a.len(),
{
    if a.len() == 0 {
        assert(a + b =~= b);
    } else {
        lemma_point_events_concat(a.skip(1), b);
        lemma_events_concat(a[0].1, Seq::empty());
        assert((a + b).skip(1) =~= a.skip(1) + b);
        assert((a + b)[0] == a[0]);
    }
}

/// Frames with one more frame have the events of the frames and of the
/// frame.
pub proof fn lemma_point_events_push(
    a: Seq<(u64, Seq<NumassEvent>)>,
    f: (u64, Seq<NumassEvent>),
)
    ensures
        point_events_in(a.push(f)) == point_events_in(a) + events_in(f.1),
        point_events_in(a) >= 0,
        events_in(f.1) >= 0,
{
    let one = seq![f];
    lemma_point_events_concat(a, one);
    lemma_events_concat(f.1, Seq::empty());
    assert(a.push(f) =~= a + one);
    assert(one.skip(1) =~= Seq::<(u64, Seq<NumassEvent>)>::empty());
    assert(point_events_in(Seq::<(u64, Seq<NumassEvent>)>::empty()) == 0);
    assert(point_events_in(one) == events_in(one[0].1) + point_events_in(one.skip(1)));
}

/// What an event leaves holds no more events than there were.
pub proof fn lemma_survivors_events(ignore_borders: bool, channel: u8, s: Seq<NumassEvent>)
    ensures
        0 <= events_in(survivors(ignore_borders, channel, s)) <= events_in(s),
    decreases s.len(),
{
    if s.len() > 0 {
        lemma_survivors_events(ignore_borders, channel, s.skip(1));
        let u = survivors(ignore_borders, channel, s.skip(1));
        if !absorbs(ignore_borders, channel, s[0]) {
            assert((seq![s[0]] + u).skip(1) =~= u);
            assert((seq![s[0]] + u)[0] == s[0]);
        }
    }
}

/// Merging neighbours makes no events.
pub proof fn lemma_merged_events(ignore_borders: bool, s: Seq<NumassEvent>)
    ensures
        0 <= events_in(merged(ignore_borders, s)) <= events_in(s),
    decreases s.len(),
{
    if s.len() > 0 {
        let t = s.skip(1);
        match s[0].1 {
            FrameEvent::Event { channel, amplitude, size } => {
                let u = survivors(ignore_borders, channel, t);
                lemma_survivors_events(ignore_borders, channel, t);
                lemma_survivors_len(ignore_borders, channel, t);
                lemma_merged_events(ignore_borders, u);
                let rest = merged(ignore_borders, u);
                let m = merged(ignore_borders, s);
                assert(m.skip(1) =~= rest);
                assert(m[0].1 is Event);
            },
            _ => {
                lemma_merged_events(ignore_borders, t);
                let rest = merged(ignore_borders, t);
                let m = merged(ignore_borders, s);
                assert(m.skip(1) =~= rest);
                assert(m[0] == s[0]);
            },
        }
    }
}

/// Lists whose records are physics events at the same places hold equally
/// many of them.
pub proof fn lemma_events_same(a: Seq<NumassEvent>, b: Seq<NumassEvent>)
    requires
        a.len() == b.len(),
        forall|i: int| 0 <= i < a.len() ==> event_count(#[trigger] a[i]) == event_count(b[i]),
    ensures
        events_in(a) == events_in(b),
    decreases a.len(),
{
    if a.len() > 0 {
        assert forall|i: int| 0 <= i < a.skip(1).len() implies event_count(
            #[trigger] a.skip(1)[i],
        ) == event_count(b.skip(1)[i]) by {
            assert(a.skip(1)[i] == a[i + 1]);
            assert(b.skip(1)[i] == b[i + 1]);
        }
        lemma_events_same(a.skip(1), b.skip(1));
        assert(event_count(a[0]) == event_count(b[0]));
    }
}

/// What is not marked holds no more events than the whole.
pub proof fn lemma_unmarked_events(s: Seq<NumassEvent>, marks: Seq<bool>)
    requires
        marks.len() >= s.len(),
    ensures
        0 <= events_in(unmarked(s, marks)) <= events_in(s),
    decreases s.len(),
{
    if s.len() > 0 {
        let t = s.drop_last();
        lemma_unmarked_events(t, marks);
        lemma_events_push(t, s.last());
        lemma_events_push(unmarked(t, marks), s.last());
        assert(t.push(s.last()) =~= s);
    }
}

/// A step of the collection leaves every record of its kind.
pub proof fn lemma_pass_kinds(s: Seq<NumassEvent>, marks: Seq<bool>, idx: int)
    requires
        0 <= idx,
        marks.len() == s.len(),
    ensures
        split_pass(s, marks, idx).0.len() == s.len(),
        split_pass(s, marks, idx).1.len() == s.len(),
        forall|i: int|
            0 <= i < s.len() ==> event_count(#[trigger] split_pass(s, marks, idx).0[i])
                == event_count(s[i]),
    decreases s.len() - idx,
{
    if idx < s.len() {
        let r = split_step(s, marks, idx);
        lemma_pass_kinds(r.0, r.1, idx + 1);
        let f = split_pass(s, marks, idx);
        assert forall|i: int| 0 <= i < s.len() implies event_count(#[trigger] f.0[i])
            == event_count(s[i]) by {
            assert(event_count(f.0[i]) == event_count(r.0[i]));
        }
    }
}

/// The collection by the central pixel makes no events.
pub proof fn lemma_splits_events(s: Seq<NumassEvent>)
    ensures
        0 <= events_in(splits_merged(s)) <= events_in(s),
{
    let zeros = Seq::new(s.len(), |k: int| false);
    lemma_pass_kinds(s, zeros, 0);
    let r = split_pass(s, zeros, 0);
    lemma_unmarked_events(r.0, r.1);
    lemma_events_same(r.0, s);
}

/// Masking makes no events.
pub proof fn lemma_masked_events(mask: ChannelIgnore, s: Seq<NumassEvent>)
    ensures
        0 <= events_in(masked(mask, s)) <= events_in(s),
    decreases s.len(),
{
    if s.len() > 0 {
        let t = s.drop_last();
        lemma_masked_events(mask, t);
        lemma_events_push(t, s.last());
        lemma_events_push(masked(mask, t), s.last());
        assert(t.push(s.last()) =~= s);
    }
}

/// Postprocessing a frame makes no events.
pub proof fn lemma_frame_events(params: PostProcessParams, s: Seq<NumassEvent>)
    ensures
        0 <= events_in(masked(params.ignore_channels, processed_frame(params, s))) <= events_in(s),
        0 <= events_in(masked(params.ignore_channels, s)) <= events_in(s),
        0 <= events_in(processed_frame(params, s)) <= events_in(s),
{
    lemma_masked_events(params.ignore_channels, s);
    lemma_masked_events(params.ignore_channels, processed_frame(params, s));
    lemma_events_concat(s, Seq::empty());
    if params.merge_close_events {
        if params.merge_splits_first {
            lemma_splits_events(s);
            lemma_merged_events(params.ignore_borders, splits_merged(s));
        } else {
            lemma_merged_events(params.ignore_borders, s);
        }
    }
}

/// Joining frames keeps the number of events.
pub proof fn lemma_coalesced_events(
    frames: Seq<(u64, Seq<NumassEvent>)>,
    merge_len: u16,
    frame_len: u64,
    k: int,
)
    requires
        0 <= k <= frames.len(),
    ensures
        point_events_in(coalesced_from(frames, merge_len, frame_len, k)) + (if joined(
            frames,
            merge_len,
            k,
        ) {
            events_in(chain(frames, merge_len, frame_len, k))
        } else {
            0
        }) == point_events_in(frames.skip(k)),
    decreases frames.len() - k,
{
    if k < frames.len() {
        lemma_coalesced_events(frames, merge_len, frame_len, k + 1);
        assert(frames.skip(k).skip(1) =~= frames.skip(k + 1));
        assert(frames.skip(k)[0] == frames[k]);
        let own = frames[k].1;
        let here = chain(frames, merge_len, frame_len, k);
        if joined(frames, merge_len, k + 1) {
            let next = chain(frames, merge_len, frame_len, k + 1);
            let carried = shift_events(next, frame_shift(frames[k].0, frames[k + 1].0, frame_len));
            lemma_events_same(carried, next);
            lemma_events_concat(own, carried);
        }
        if !joined(frames, merge_len, k) {
            let rest = coalesced_from(frames, merge_len, frame_len, k + 1);
            let all = seq![(frames[k].0, here)] + rest;
            assert(all.skip(1) =~= rest);
            assert(all[0] == (frames[k].0, here));
        }
    } else {
        assert(frames.skip(k) =~= Seq::<(u64, Seq<NumassEvent>)>::empty());
    }
}

/// Cutting frames makes no events.
pub proof fn lemma_good_events(bad_blocks: Set<usize>, frames: Seq<(u64, Seq<NumassEvent>)>)
    ensures
        0 <= point_events_in(good_frames(bad_blocks, frames)) <= point_events_in(frames),
    decreases frames.len(),
{
    if frames.len() > 0 {
        let t = frames.drop_last();
        lemma_good_events(bad_blocks, t);
        lemma_point_events_push(t, frames.last());
        lemma_point_events_push(good_frames(bad_blocks, t), frames.last());
        assert(t.push(frames.last()) =~= frames);
    }
}

/// Frames that hold, one by one, no more events than others hold no more in
/// all.
pub proof fn lemma_point_events_fewer(
    a: Seq<(u64, Seq<NumassEvent>)>,
    b: Seq<(u64, Seq<NumassEvent>)>,
)
    requires
        a.len() == b.len(),
        forall|i: int| 0 <= i < a.len() ==> 0 <= events_in((#[trigger] a[i]).1) <= events_in(b[i].1),
    ensures
        0 <= point_events_in(a) <= point_events_in(b),
    decreases a.len(),
{
    if a.len() > 0 {
        assert forall|i: int| 0 <= i < a.skip(1).len() implies 0 <= events_in(
            (#[trigger] a.skip(1)[i]).1,
        ) <= events_in(b.skip(1)[i].1) by {
            assert(a.skip(1)[i] == a[i + 1]);
            assert(b.skip(1)[i] == b[i + 1]);
        }
        lemma_point_events_fewer(a.skip(1), b.skip(1));
        assert(0 <= events_in(a[0].1) <= events_in(b[0].1));
    }
}

/// Postprocessing makes no events: the result holds no more physics events
/// than there were.
pub proof fn lemma_post_process_events(
    params: PostProcessParams,
    bad_blocks: Set<usize>,
    frame_len: u64,
    frames: Seq<(u64, Seq<NumassEvent>)>,
)
    ensures
        0 <= point_events_in(post_processed(params, bad_blocks, frame_len, frames))
            <= point_events_in(frames),
{
    let mask = params.ignore_channels;
    let joint = joint_frames(params, frame_len, frames);
    match params.merge_frames {
        Some(merge_len) => {
            lemma_coalesced_events(frames, merge_len, frame_len, 0);
            assert(frames.skip(0) =~= frames);
        },
        None => {},
    }
    assert(point_events_in(joint) == point_events_in(frames));
    let cut = if params.merge_close_events && params.cut_bad_blocks {
        good_frames(bad_blocks, joint)
    } else {
        joint
    };
    lemma_good_events(bad_blocks, joint);
    lemma_point_events_concat(joint, Seq::empty());
    let result = post_processed(params, bad_blocks, frame_len, frames);
    assert(result.len() == cut.len());
    assert forall|i: int| 0 <= i < result.len() implies 0 <= events_in((#[trigger] result[i]).1)
        <= events_in(cut[i].1) by {
        lemma_frame_events(params, cut[i].1);
    }
    lemma_point_events_fewer(result, cut);
}

} // verus!
