//! Helpers that belong to no stage.

use vstd::prelude::*;

use crate::histogram::{
    bump, capped64, counts_or_zeros, even_binning, Binning, HistogramParams, PointHistogram,
};
use crate::types::{frames_view, FrameEvent, NumassEvent, NumassEvents};

verus! {

/// Trigger times above this value carry the additive fault of the clock.
pub const TIME_FAULT_MARK: u64 = 0xf000_0000_0000_0000;

/// The amount that a faulty trigger time is too large by.
pub const TIME_FAULT: u64 = 0xffff_fff9_03da_0000;

/// The trigger time without the fault of the clock: a time above
/// [`TIME_FAULT_MARK`] less [`TIME_FAULT`], in 64-bit arithmetic.
pub open spec fn corrected_time(time: u64) -> u64 {
    if time <= TIME_FAULT_MARK {
        time
    } else if time >= TIME_FAULT {
        (time - TIME_FAULT) as u64
    } else {
        (time + 0x1_0000_0000_0000_0000 - TIME_FAULT) as u64
    }
}

/// Takes the additive fault off a trigger time that carries it.
#[verifier::when_used_as_spec(corrected_time)]
pub fn correct_frame_time(time: u64) -> (t: u64)
    ensures
        t == corrected_time(time),
{
    if time > TIME_FAULT_MARK {
        time.wrapping_sub(TIME_FAULT)
    } else {
        time
    }
}

// ---------------------------------------------------------------------------
// File names
// ---------------------------------------------------------------------------

/// `name` ends with `ext`.
pub open spec fn ends_with(name: Seq<char>, ext: Seq<char>) -> bool {
    ext.len() <= name.len() && name.subrange(name.len() - ext.len(), name.len() as int) == ext
}

/// `name` with the extension `ext`, unless it ends with `ext` already.
pub open spec fn with_ext(name: Seq<char>, ext: Option<Seq<char>>) -> Seq<char> {
    match ext {
        Some(e) => if ends_with(name, e) {
            name
        } else {
            name + seq!['.'] + e
        },
        None => name,
    }
}

/// The name of a file for a point: the names of its run and of its set,
/// then its own name with the extension.
pub open spec fn assembled(
    file: Seq<char>,
    set: Seq<char>,
    run: Seq<char>,
    ext: Option<Seq<char>>,
) -> Seq<char> {
    run + set + with_ext(file, ext)
}

/// The text of an optional extension.
pub open spec fn ext_view(pref_ext: Option<&str>) -> Option<Seq<char>> {
    match pref_ext {
        Some(e) => Some(e@),
        None => None,
    }
}

/// Whether `name` ends with `ext`.
fn has_suffix(name: &str, ext: &str) -> (r: bool)
    ensures
        r == ends_with(name@, ext@),
{
    let n = name.unicode_len();
    let m = ext.unicode_len();
    if m > n {
        return false;
    }
    let mut i: usize = 0;
    while i < m
        invariant
            i <= m <= n,
            n == name@.len(),
            m == ext@.len(),
            forall|j: int| 0 <= j < i ==> name@[n - m + j] == ext@[j],
        decreases m - i,
    {
        if name.get_char(n - m + i) != ext.get_char(i) {
            proof {
                assert(name@.subrange(n - m, n as int)[i as int] != ext@[i as int]);
            }
            return false;
        }
        i += 1;
    }
    proof {
        assert(name@.subrange(n - m, n as int) =~= ext@);
    }
    true
}

/// Puts together the name of a file for a point from the last part of its
/// path, the names of its set and of its run, and the extension that the
/// file is to have.
pub fn assemble_filename(file: &str, set: &str, run: &str, pref_ext: Option<&str>) -> (r: String)
    ensures
        r@ == assembled(file@, set@, run@, ext_view(pref_ext)),
{
    let mut r = String::from_str(run);
    r.append(set);
    r.append(file);
    if let Some(ext) = pref_ext {
        if !has_suffix(file, ext) {
            proof {
                reveal_strlit(".");
            }
            r.append(".");
            r.append(ext);
            proof {
                assert(r@ =~= run@ + set@ + (file@ + seq!['.'] + ext@));
            }
        }
    }
    r
}

/// `Path::file_name` of std on the path that `path` spells, as text: its
/// last part, if it has one. Nothing is claimed of the result.
#[verifier::external_body]
fn last_part(path: &str) -> (name: Option<String>) {
    match std::path::Path::new(path).file_name() {
        Some(name) => match name.to_str() {
            Some(text) => Some(text.to_owned()),
            None => None,
        },
        None => None,
    }
}

/// `Path::parent` of std on the path that `path` spells, as text: the path
/// without its last part, if there is one. Nothing is claimed of the
/// result.
#[verifier::external_body]
fn without_last_part(path: &str) -> (parent: Option<String>) {
    match std::path::Path::new(path).parent() {
        Some(parent) => match parent.to_str() {
            Some(text) => Some(text.to_owned()),
            None => None,
        },
        None => None,
    }
}

/// The name of a file that keeps what the path of a point in the storage
/// (run, set, point) says: the last three parts of the path, as std finds
/// them, without what separates them, with the extension `pref_ext`
/// unless the last part ends with it. A part that std does not find counts
/// as empty, and the run only where there is a set.
pub fn construct_filename(name: &str, pref_ext: Option<&str>) -> (r: String)
    ensures
        exists|file: Seq<char>, set: Seq<char>, run: Seq<char>|
            r@ == #[trigger] assembled(file, set, run, ext_view(pref_ext)),
{
    let file = match last_part(name) {
        Some(f) => f,
        None => String::new(),
    };
    let mut set = String::new();
    let mut run = String::new();
    if let Some(set_path) = without_last_part(name) {
        if let Some(set_name) = last_part(set_path.as_str()) {
            set = set_name;
            if let Some(run_path) = without_last_part(set_path.as_str()) {
                if let Some(run_name) = last_part(run_path.as_str()) {
                    run = run_name;
                }
            }
        }
    }
    assemble_filename(file.as_str(), set.as_str(), run.as_str(), pref_ext)
}

// ---------------------------------------------------------------------------
// Spectra of events
// ---------------------------------------------------------------------------

/// The counts of a channel after the first `n` records of a frame have been
/// counted: every physics event of the channel whose amplitude lies inside
/// the range raises the count of its bin.
pub open spec fn frame_counts(
    b: Binning,
    start: Option<Seq<u64>>,
    events: Seq<NumassEvent>,
    channel: u8,
    n: int,
) -> Option<Seq<u64>>
    decreases n,
{
    if n <= 0 {
        start
    } else {
        let before = frame_counts(b, start, events, channel, n - 1);
        match events[n - 1].1 {
            FrameEvent::Event { channel: c, amplitude, .. } => if c == channel && b.holds_inside(
                amplitude,
            ) {
                Some(bump(counts_or_zeros(before, b.bins), b.bin_of(amplitude)))
            } else {
                before
            },
            _ => before,
        }
    }
}

/// The counts of a channel after the first `k` frames have been counted.
pub open spec fn event_counts(
    b: Binning,
    frames: Seq<(u64, Seq<NumassEvent>)>,
    channel: u8,
    k: int,
) -> Option<Seq<u64>>
    decreases k,
{
    if k <= 0 {
        None
    } else {
        frame_counts(
            b,
            event_counts(b, frames, channel, k - 1),
            frames[k - 1].1,
            channel,
            frames[k - 1].1.len() as int,
        )
    }
}

/// The spectrum of the physics events of a point, by channel, over the
/// range in bins of equal width. Other records are not counted, nor
/// amplitudes on an edge of the range or outside it.
pub fn events_to_histogram(amplitudes: NumassEvents, histogram: HistogramParams) -> (h:
    PointHistogram)
    ensures
        h.wf(),
        h.binning() == even_binning(histogram.range, histogram.bins),
        forall|ch: u8|
            #[trigger] h.entry(ch) == event_counts(
                even_binning(histogram.range, histogram.bins),
                frames_view(amplitudes@),
                ch,
                amplitudes@.len() as int,
            ),
{
    let mut h = PointHistogram::from_params(histogram);
    let ghost b = h.binning();
    let ghost frames = frames_view(amplitudes@);
    proof {
        assert forall|ch: u8| #[trigger] h.entry(ch) == event_counts(b, frames, ch, 0) by {}
    }
    let mut k: usize = 0;
    while k < amplitudes.len()
        invariant
            k <= amplitudes@.len(),
            frames == frames_view(amplitudes@),
            h.wf(),
            h.binning() == b,
            forall|ch: u8| #[trigger] h.entry(ch) == event_counts(b, frames, ch, k as int),
        decreases amplitudes.len() - k,
    {
        let events = &amplitudes[k].1;
        let ghost start = h;
        proof {
            assert(frames[k as int].1 == events@);
        }
        let mut i: usize = 0;
        while i < events.len()
            invariant
                i <= events@.len(),
                h.wf(),
                h.binning() == b,
                forall|ch: u8|
                    #[trigger] h.entry(ch) == frame_counts(b, start.entry(ch), events@, ch, i as int),
            decreases events.len() - i,
        {
            let ghost before = h;
            if let FrameEvent::Event { channel, amplitude, .. } = events[i].1 {
                h.add(channel, amplitude);
                proof {
                    assert(counts_or_zeros(before.entry(channel), before.bins) =~= counts_or_zeros(
                        before.entry(channel),
                        b.bins,
                    ));
                }
            }
            proof {
                assert forall|ch: u8| #[trigger]
                    h.entry(ch) == frame_counts(b, start.entry(ch), events@, ch, i + 1) by {
                    assert(before.entry(ch) == frame_counts(
                        b,
                        start.entry(ch),
                        events@,
                        ch,
                        i as int,
                    ));
                }
            }
            i += 1;
        }
        proof {
            assert forall|ch: u8| #[trigger] h.entry(ch) == event_counts(b, frames, ch, k + 1) by {
                assert(start.entry(ch) == event_counts(b, frames, ch, k as int));
            }
        }
        k += 1;
    }
    h
}

/// Number of the physics events among the first `n` records of a frame
/// that belong to `channel` and lie inside the range, in bin `bin`.
pub open spec fn frame_hits(b: Binning, events: Seq<NumassEvent>, channel: u8, bin: int, n: int) -> int
    decreases n,
{
    if n <= 0 {
        0
    } else {
        frame_hits(b, events, channel, bin, n - 1) + (match events[n - 1].1 {
            FrameEvent::Event { channel: c, amplitude, .. } => if c == channel && b.holds_inside(
                amplitude,
            ) && b.bin_of(amplitude) == bin {
                1int
            } else {
                0int
            },
            _ => 0int,
        })
    }
}

/// Number of such events in the first `k` frames.
pub open spec fn event_hits(
    b: Binning,
    frames: Seq<(u64, Seq<NumassEvent>)>,
    channel: u8,
    bin: int,
    k: int,
) -> int
    decreases k,
{
    if k <= 0 {
        0
    } else {
        event_hits(b, frames, channel, bin, k - 1) + frame_hits(
            b,
            frames[k - 1].1,
            channel,
            bin,
            frames[k - 1].1.len() as int,
        )
    }
}

/// Counting the records of a frame adds to the count of a bin the number
/// of events that lie in it.
pub proof fn lemma_frame_counts(
    b: Binning,
    start: Option<Seq<u64>>,
    events: Seq<NumassEvent>,
    channel: u8,
    bin: int,
    n: int,
)
    requires
        0 <= bin < b.bins,
        start matches Some(counts) ==> counts.len() == b.bins,
    ensures
        frame_counts(b, start, events, channel, n) matches Some(counts) ==> counts.len() == b.bins,
        frame_hits(b, events, channel, bin, n) >= 0,
        counts_or_zeros(frame_counts(b, start, events, channel, n), b.bins)[bin] == capped64(
            counts_or_zeros(start, b.bins)[bin] + frame_hits(b, events, channel, bin, n),
        ),
    decreases n,
{
    if n > 0 {
        lemma_frame_counts(b, start, events, channel, bin, n - 1);
    }
}

/// The count of a bin of a channel in the spectrum of a point is the number
/// of physics events of the channel whose amplitude lies inside the range
/// in that bin, as far as 64 bits hold it.
pub proof fn lemma_event_counts(
    b: Binning,
    frames: Seq<(u64, Seq<NumassEvent>)>,
    channel: u8,
    bin: int,
    k: int,
)
    requires
        0 <= bin < b.bins,
    ensures
        event_counts(b, frames, channel, k) matches Some(counts) ==> counts.len() == b.bins,
        event_hits(b, frames, channel, bin, k) >= 0,
        counts_or_zeros(event_counts(b, frames, channel, k), b.bins)[bin] == capped64(
            event_hits(b, frames, channel, bin, k),
        ),
    decreases k,
{
    if k > 0 {
        lemma_event_counts(b, frames, channel, bin, k - 1);
        lemma_frame_counts(
            b,
            event_counts(b, frames, channel, k - 1),
            frames[k - 1].1,
            channel,
            bin,
            frames[k - 1].1.len() as int,
        );
    }
}

} // verus!
