//! Spectra: counts per channel in bins of equal width.
//!
//! Edges, centres and the values that are added are in millionths. A count
//! that has reached the largest 64-bit number stays there.

use std::ops::Range;

use vstd::prelude::*;

use crate::fixed::saturate;
use crate::sorted::{
    ascending, lemma_inserted, lemma_position, lemma_same_keys, moved, position, Ranked,
};

verus! {

/// `Range::clone` of std, which the derived `Clone` of the types below
/// calls. Nothing is claimed of its result.
pub assume_specification<Idx>[ <std::ops::Range<Idx> as std::clone::Clone>::clone ](
    r: &std::ops::Range<Idx>,
) -> std::ops::Range<Idx> where Idx: std::clone::Clone
;

/// Range and number of bins of a spectrum.
#[derive(PartialEq, Clone, Debug)]
pub struct HistogramParams {
    pub range: Range<i64>,
    pub bins: usize,
}

/// Counts per channel over a fixed range.
///
/// The width of a bin is the fraction `num / den`. A histogram with `num` or
/// `den` zero takes no value.
#[derive(Debug, Clone)]
pub struct PointHistogram {
    /// Centres of the bins.
    pub x: Vec<i64>,
    /// The channels that have an entry, ascending, each with its counts.
    pub channels: Vec<(u8, Vec<u64>)>,
    /// Width of a bin, rounded down.
    pub step: i64,
    pub bins: usize,
    pub range: Range<i64>,
    pub num: u64,
    pub den: u64,
}

/// Centre of bin `i`: half a bin behind its left edge, rounded down.
pub open spec fn center(start: i64, num: u64, den: u64, i: int) -> int {
    start + ((2 * i + 1) * num) / (2 * den)
}

/// A range cut into `bins` bins of equal width: each is the length of the
/// range over `bins` wide. A range without length gives bins that hold
/// nothing.
pub open spec fn even_binning(range: Range<i64>, bins: usize) -> Binning {
    Binning {
        start: range.start,
        end: range.end,
        bins,
        num: if range.end > range.start {
            (range.end - range.start) as u64
        } else {
            0
        },
        den: bins as u64,
    }
}

/// The counts of an entry, `bins` zeros if there is none.
pub open spec fn counts_or_zeros(entry: Option<Seq<u64>>, bins: usize) -> Seq<u64> {
    match entry {
        Some(counts) => counts,
        None => Seq::new(bins as nat, |i: int| 0u64),
    }
}

/// Width of a bin of `num / den`, rounded down; zero where `den` is zero.
pub open spec fn step_floor(num: u64, den: u64) -> i64 {
    if den == 0 {
        0
    } else if num / den > i64::MAX {
        i64::MAX
    } else {
        (num / den) as i64
    }
}

/// The counts with the one of `bin` raised by one, unless it is full.
pub open spec fn bump(counts: Seq<u64>, bin: int) -> Seq<u64> {
    if 0 <= bin < counts.len() && counts[bin] < u64::MAX {
        counts.update(bin, (counts[bin] + 1) as u64)
    } else {
        counts
    }
}

/// The counts of a channel in a list of entries.
pub open spec fn entry_in(channels: Seq<(u8, Vec<u64>)>, channel: u8) -> Option<Seq<u64>> {
    match position(channels, channel) {
        Some(k) => Some(channels[k].1@),
        None => None,
    }
}

impl PointHistogram {
    /// The parts of the histogram fit together: there is a centre and, in
    /// every entry, a count for each bin, and the entries ascend by channel.
    pub open spec fn wf(&self) -> bool {
        &&& self.x@.len() == self.bins
        &&& self.den == 0 ==> self.bins == 0
        &&& self.step == step_floor(self.num, self.den)
        &&& forall|i: int|
            0 <= i < self.bins ==> (#[trigger] self.x@[i]) == crate::fixed::clamp(
                center(self.range.start, self.num, self.den, i),
            )
        &&& ascending(self.channels@)
        &&& forall|k: int|
            0 <= k < self.channels@.len() ==> (#[trigger] self.channels@[k]).1@.len() == self.bins
    }

    /// The same range and bins.
    pub open spec fn same_bins(&self, other: &PointHistogram) -> bool {
        &&& self.x@ == other.x@
        &&& self.step == other.step
        &&& self.bins == other.bins
        &&& self.range == other.range
        &&& self.num == other.num
        &&& self.den == other.den
    }

    /// The counts of a channel, if it has an entry.
    pub open spec fn entry(&self, channel: u8) -> Option<Seq<u64>> {
        entry_in(self.channels@, channel)
    }

    /// The count of a bin of a channel; zero for a channel without entry.
    pub open spec fn count(&self, channel: u8, bin: int) -> int {
        match self.entry(channel) {
            Some(counts) => counts[bin] as int,
            None => 0,
        }
    }

    /// Range, number of bins and bin width of the histogram.
    pub open spec fn binning(&self) -> Binning {
        Binning {
            start: self.range.start,
            end: self.range.end,
            bins: self.bins,
            num: self.num,
            den: self.den,
        }
    }

    /// Bin of a value, see [`Binning::bin_of`].
    pub open spec fn bin_of(&self, value: i64) -> int {
        self.binning().bin_of(value)
    }

    /// The value lies in a bin, see [`Binning::holds`].
    pub open spec fn holds(&self, value: i64) -> bool {
        self.binning().holds(value)
    }

    /// The value lies in a bin and not on the left edge.
    pub open spec fn holds_inside(&self, value: i64) -> bool {
        self.binning().holds_inside(value)
    }

    /// The counts of a channel after a batch, see
    /// [`Binning::batch_counts`].
    pub open spec fn batch_counts(&self, counts: Seq<u64>, xs: Seq<i64>, n: int) -> Seq<u64> {
        self.binning().batch_counts(counts, xs, n)
    }
}

/// How a range is cut into bins: `bins` bins of width `num / den` from
/// `start` on, none of them reaching beyond `end`.
#[derive(Clone, Copy, Debug, PartialEq, Eq)]
pub struct Binning {
    pub start: i64,
    pub end: i64,
    pub bins: usize,
    pub num: u64,
    pub den: u64,
}

impl Binning {
    /// Bin of a value: the number of whole bin widths between the left edge
    /// and the value.
    pub open spec fn bin_of(self, value: i64) -> int {
        ((value - self.start) * self.den) / (self.num as int)
    }

    /// The value lies in a bin: it is not below the left edge, it is below
    /// the right edge, and its bin is one of the histogram.
    pub open spec fn holds(self, value: i64) -> bool {
        &&& self.num > 0
        &&& self.den > 0
        &&& self.start <= value < self.end
        &&& self.bin_of(value) < self.bins
    }

    /// The value lies in a bin and not on the left edge.
    pub open spec fn holds_inside(self, value: i64) -> bool {
        self.holds(value) && self.start < value
    }

    /// The counts of a channel after the values `xs[..n]` have been added
    /// to `counts`, the left edge admitted.
    pub open spec fn batch_counts(self, counts: Seq<u64>, xs: Seq<i64>, n: int) -> Seq<u64>
        decreases n,
    {
        if n <= 0 {
            counts
        } else {
            let before = self.batch_counts(counts, xs, n - 1);
            if self.holds(xs[n - 1]) {
                bump(before, self.bin_of(xs[n - 1]))
            } else {
                before
            }
        }
    }

}

/// Halving after doubling: the centre of a bin by parts that fit in 128
/// bits.
proof fn lemma_center_parts(a: int, num: int, den: int)
    requires
        0 <= a,
        0 <= num,
        0 < den,
    ensures
        (2 * a + num) / (2 * den) == a / den + (2 * (a % den) + num) / (2 * den),
{
    let q = a / den;
    let r = a % den;
    let y = 2 * r + num;
    vstd::arithmetic::div_mod::lemma_fundamental_div_mod(a, den);
    vstd::arithmetic::div_mod::lemma_fundamental_div_mod(y, 2 * den);
    let yq = y / (2 * den);
    let yr = y % (2 * den);
    assert(2 * a + num == (2 * den) * (q + yq) + yr) by (nonlinear_arith)
        requires
            a == den * q + r,
            y == 2 * r + num,
            y == (2 * den) * yq + yr,
    ;
    vstd::arithmetic::div_mod::lemma_fundamental_div_mod_converse(2 * a + num, 2 * den, q + yq, yr);
}

/// Centre of bin `i`.
fn center_of(start: i64, num: u64, den: u64, i: usize) -> (c: i64)
    requires
        den > 0,
    ensures
        c == crate::fixed::clamp(center(start, num, den, i as int)),
{
    assert(0 <= i * num <= 0xffff_ffff_ffff_ffff * 0xffff_ffff_ffff_ffff) by (nonlinear_arith)
        requires
            0 <= i <= 0xffff_ffff_ffff_ffff,
            0 <= num <= 0xffff_ffff_ffff_ffff,
    ;
    let a: u128 = i as u128 * num as u128;
    let q: u128 = a / den as u128;
    let r: u128 = a % den as u128;
    let half: u128 = (2 * r + num as u128) / (2 * den as u128);
    proof {
        lemma_center_parts(a as int, num as int, den as int);
        assert((2 * i + 1) * num == 2 * a + num) by (nonlinear_arith)
            requires
                a == i * num,
        ;
        vstd::arithmetic::div_mod::lemma_div_pos_is_pos(a as int, den as int);
        vstd::arithmetic::div_mod::lemma_div_is_ordered_by_denominator(a as int, 1, den as int);
        vstd::arithmetic::div_mod::lemma_div_basics(a as int);
    }
    assert(half <= 2 * r + num) by {
        vstd::arithmetic::div_mod::lemma_div_is_ordered_by_denominator(
            2 * r as int + num as int,
            1,
            2 * den as int,
        );
        vstd::arithmetic::div_mod::lemma_div_basics(2 * r as int + num as int);
    }
    if q > 0x2_0000_0000_0000_0000 {
        i64::MAX
    } else {
        saturate(start as i128 + q as i128 + half as i128)
    }
}

impl PointHistogram {
    /// An empty histogram over `range` in `bins` bins of equal width.
    pub fn new(range: Range<i64>, bins: usize) -> (h: Self)
        ensures
            h.wf(),
            h.binning() == even_binning(range, bins),
            h.range == range,
            h.bins == bins,
            h.channels@.len() == 0,
            h.den == bins,
            h.num == (if range.end > range.start {
                range.end - range.start
            } else {
                0
            }),
    {
        let num: u64 = if range.end > range.start {
            (range.end as i128 - range.start as i128) as u64
        } else {
            0
        };
        let den: u64 = bins as u64;
        Self::with_step(range, bins, num, den)
    }

    /// An empty histogram over `range` in bins of width `step`, as many as
    /// fit between the ends of the range; none where the step is not
    /// positive.
    pub fn new_step(range: Range<i64>, step: i64) -> (h: Self)
        ensures
            h.wf(),
            h.range == range,
            h.channels@.len() == 0,
            step <= 0 ==> h.bins == 0 && h.num == 0,
            step > 0 ==> h.num == step && h.den == 1 && h.bins == (if (if range.end >= range.start {
                range.end - range.start
            } else {
                range.start - range.end
            }) / (step as int) <= usize::MAX {
                (if range.end >= range.start {
                    range.end - range.start
                } else {
                    range.start - range.end
                }) / (step as int)
            } else {
                usize::MAX as int
            }),
    {
        if step <= 0 {
            return Self::with_step(range, 0, 0, 1);
        }
        let span: u64 = if range.end >= range.start {
            (range.end as i128 - range.start as i128) as u64
        } else {
            (range.start as i128 - range.end as i128) as u64
        };
        let fit: u64 = span / step as u64;
        let bins: usize = if fit > usize::MAX as u64 {
            usize::MAX
        } else {
            fit as usize
        };
        Self::with_step(range, bins, step as u64, 1)
    }

    /// An empty histogram with `bins` bins of width `num / den` from the
    /// begin of `range`.
    fn with_step(range: Range<i64>, bins: usize, num: u64, den: u64) -> (h: Self)
        requires
            den == 0 ==> bins == 0,
        ensures
            h.wf(),
            h.range == range,
            h.bins == bins,
            h.num == num,
            h.den == den,
            h.channels@.len() == 0,
    {
        let mut x: Vec<i64> = Vec::new();
        let mut i: usize = 0;
        while i < bins
            invariant
                i <= bins,
                den > 0 || bins == 0,
                x@.len() == i,
                forall|j: int|
                    0 <= j < i ==> (#[trigger] x@[j]) == crate::fixed::clamp(
                        center(range.start, num, den, j),
                    ),
            decreases bins - i,
        {
            x.push(center_of(range.start, num, den, i));
            i += 1;
        }
        let step: i64 = if den == 0 {
            0
        } else {
            let w = num / den;
            if w > i64::MAX as u64 {
                i64::MAX
            } else {
                w as i64
            }
        };
        PointHistogram { x, channels: Vec::new(), step, bins, range, num, den }
    }

    /// An empty histogram with the given range and bins.
    pub fn from_params(params: HistogramParams) -> (h: Self)
        ensures
            h.wf(),
            h.binning() == even_binning(params.range, params.bins),
            h.range == params.range,
            h.bins == params.bins,
            h.channels@.len() == 0,
            h.den == params.bins,
            h.num == (if params.range.end > params.range.start {
                params.range.end - params.range.start
            } else {
                0
            }),
    {
        Self::new(params.range, params.bins)
    }
}

/// A list in which the entry at `k` has new counts gives every other
/// channel what it gave before.
proof fn lemma_entry_changed(a: Seq<(u8, Vec<u64>)>, b: Seq<(u8, Vec<u64>)>, k: int)
    requires
        ascending(a),
        0 <= k < a.len(),
        b.len() == a.len(),
        forall|j: int| 0 <= j < a.len() ==> (#[trigger] b[j]).0 == a[j].0,
        forall|j: int| 0 <= j < a.len() && j != k ==> (#[trigger] b[j]).1@ == a[j].1@,
    ensures
        ascending(b),
        entry_in(b, a[k].0) == Some(b[k].1@),
        forall|c: u8| c != a[k].0 ==> entry_in(b, c) == entry_in(a, c),
{
    lemma_same_keys(a, b);
    lemma_position(b, k);
    assert forall|c: u8| c != a[k].0 implies entry_in(b, c) == entry_in(a, c) by {
        assert(position(b, c) == position(a, c));
        if let Some(j) = position(a, c) {
            assert(j != k);
        }
    }
}

/// A list with a new entry put in at `k` gives every other channel what it
/// gave before.
proof fn lemma_entry_inserted(a: Seq<(u8, Vec<u64>)>, b: Seq<(u8, Vec<u64>)>, k: int)
    requires
        ascending(a),
        0 <= k <= a.len(),
        b == a.insert(k, b[k]),
        b.len() == a.len() + 1,
        forall|j: int| 0 <= j < k ==> (#[trigger] a[j]).0 < b[k].0,
        forall|j: int| k <= j < a.len() ==> (#[trigger] a[j]).0 > b[k].0,
    ensures
        ascending(b),
        entry_in(a, b[k].0).is_none(),
        entry_in(b, b[k].0) == Some(b[k].1@),
        forall|c: u8| c != b[k].0 ==> entry_in(b, c) == entry_in(a, c),
{
    assert forall|j: int| 0 <= j < k implies (#[trigger] a[j]).0.rank() < b[k].0.rank() by {
        assert(a[j].0 < b[k].0);
    }
    assert forall|j: int| k <= j < a.len() implies (#[trigger] a[j]).0.rank() > b[k].0.rank() by {
        assert(a[j].0 > b[k].0);
    }
    lemma_inserted(a, b, k);
    assert forall|c: u8| c != b[k].0 implies entry_in(b, c) == entry_in(a, c) by {
        assert(position(b, c) == moved(position(a, c), k));
        if let Some(j) = position(a, c) {
            if j < k {
                assert(b[j] == a[j]);
            } else {
                assert(b[j + 1] == a[j]);
            }
        }
    }
}

impl PointHistogram {
    /// The bin of a value, if it lies in one.
    fn locate(&self, value: i64) -> (bin: Option<usize>)
        requires
            self.wf(),
        ensures
            match bin {
                Some(b) => self.holds(value) && b == self.bin_of(value),
                None => !self.holds(value),
            },
    {
        if self.num == 0 || self.den == 0 || value < self.range.start || value >= self.range.end {
            return None;
        }
        let d: u128 = (value as i128 - self.range.start as i128) as u128;
        assert(0 <= d * self.den <= 0xffff_ffff_ffff_ffff * 0xffff_ffff_ffff_ffff)
            by (nonlinear_arith)
            requires
                0 <= d <= 0xffff_ffff_ffff_ffff,
                0 <= self.den <= 0xffff_ffff_ffff_ffff,
        ;
        let b: u128 = d * self.den as u128 / self.num as u128;
        if b >= self.bins as u128 {
            None
        } else {
            Some(b as usize)
        }
    }

    /// The place of the entry of a channel; an entry without counts is made
    /// where there is none.
    fn slot(&mut self, channel: u8) -> (k: usize)
        requires
            old(self).wf(),
        ensures
            final(self).wf(),
            final(self).same_bins(old(self)),
            k < final(self).channels@.len(),
            final(self).channels@[k as int].0 == channel,
            final(self).channels@[k as int].1@ == counts_or_zeros(old(self).entry(channel), old(self).bins),
            final(self).entry(channel) == Some(counts_or_zeros(old(self).entry(channel), old(self).bins)),
            forall|c: u8| c != channel ==> final(self).entry(c) == old(self).entry(c),
    {
        let mut k: usize = 0;
        while k < self.channels.len() && self.channels[k].0 < channel
            invariant
                k <= self.channels@.len(),
                *self == *old(self),
                forall|j: int| 0 <= j < k ==> (#[trigger] self.channels@[j]).0 < channel,
            decreases self.channels@.len() - k,
        {
            k += 1;
        }
        if k < self.channels.len() && self.channels[k].0 == channel {
            proof {
                lemma_position(self.channels@, k as int);
            }
            return k;
        }
        let mut zeros: Vec<u64> = Vec::new();
        let mut i: usize = 0;
        while i < self.bins
            invariant
                i <= self.bins,
                *self == *old(self),
                zeros@ == Seq::new(i as nat, |j: int| 0u64),
            decreases self.bins - i,
        {
            zeros.push(0);
            proof {
                assert(zeros@ =~= Seq::new((i + 1) as nat, |j: int| 0u64));
            }
            i += 1;
        }
        proof {
            assert forall|j: int| k <= j < self.channels@.len() implies (
            #[trigger] self.channels@[j]).0 > channel by {
                if j > k {
                    assert(self.channels@[k as int].0 < self.channels@[j].0);
                }
            }
        }
        self.channels.insert(k, (channel, zeros));
        proof {
            lemma_entry_inserted(old(self).channels@, self.channels@, k as int);
        }
        k
    }

    /// Raises the count of `bin` in the entry at `k` by one, unless it is
    /// full.
    fn bump_at(&mut self, k: usize, bin: usize)
        requires
            old(self).wf(),
            k < old(self).channels@.len(),
            bin < old(self).bins,
        ensures
            final(self).wf(),
            final(self).same_bins(old(self)),
            final(self).channels@.len() == old(self).channels@.len(),
            final(self).channels@[k as int].0 == old(self).channels@[k as int].0,
            final(self).channels@[k as int].1@ == bump(old(self).channels@[k as int].1@, bin as int),
            final(self).entry(old(self).channels@[k as int].0) == Some(
                bump(old(self).channels@[k as int].1@, bin as int),
            ),
            forall|c: u8|
                c != old(self).channels@[k as int].0 ==> final(self).entry(c) == old(self).entry(c),
    {
        let (channel, mut counts) = self.channels.remove(k);
        let n = counts[bin];
        if n < u64::MAX {
            counts.set(bin, n + 1);
        }
        self.channels.insert(k, (channel, counts));
        proof {
            lemma_entry_changed(old(self).channels@, self.channels@, k as int);
        }
    }

    /// Counts a value for a channel. A value on an edge of the range or
    /// outside it is dropped.
    pub fn add(&mut self, ch_num: u8, amplitude: i64)
        requires
            old(self).wf(),
        ensures
            final(self).wf(),
            final(self).same_bins(old(self)),
            forall|c: u8| c != ch_num ==> final(self).entry(c) == old(self).entry(c),
            final(self).entry(ch_num) == old(self).after_add(ch_num, amplitude),
    {
        if amplitude > self.range.start {
            if let Some(bin) = self.locate(amplitude) {
                let k = self.slot(ch_num);
                self.bump_at(k, bin);
                return ;
            }
        }
        assert forall|c: u8| self.entry(c) == old(self).entry(c) by {}
    }

    /// Counts a batch of values for a channel. Unlike [`PointHistogram::add`]
    /// it counts a value on the left edge of the range, and it gives the
    /// channel an entry even if no value is counted.
    pub fn add_batch(&mut self, ch_num: u8, amplitudes: Vec<i64>)
        requires
            old(self).wf(),
        ensures
            final(self).wf(),
            final(self).same_bins(old(self)),
            forall|c: u8| c != ch_num ==> final(self).entry(c) == old(self).entry(c),
            final(self).entry(ch_num) == old(self).after_batch(ch_num, amplitudes@),
    {
        let k = self.slot(ch_num);
        let ghost start = counts_or_zeros(old(self).entry(ch_num), old(self).bins);
        let mut i: usize = 0;
        while i < amplitudes.len()
            invariant
                i <= amplitudes@.len(),
                self.wf(),
                self.same_bins(old(self)),
                k < self.channels@.len(),
                self.channels@[k as int].0 == ch_num,
                forall|c: u8| c != ch_num ==> self.entry(c) == old(self).entry(c),
                self.channels@[k as int].1@ == old(self).batch_counts(start, amplitudes@, i as int),
                self.entry(ch_num) == Some(old(self).batch_counts(start, amplitudes@, i as int)),
            decreases amplitudes.len() - i,
        {
            let ghost before = *self;
            if let Some(bin) = self.locate(amplitudes[i]) {
                self.bump_at(k, bin);
            }
            proof {
                assert(before.holds(amplitudes@[i as int]) == old(self).holds(amplitudes@[i as int]));
                assert(before.bin_of(amplitudes@[i as int]) == old(self).bin_of(
                    amplitudes@[i as int],
                ));
            }
            i += 1;
        }
    }
}

// ---------------------------------------------------------------------------
// The two ways of adding
// ---------------------------------------------------------------------------

impl PointHistogram {
    /// The entry of a channel after one value has been added for it with
    /// [`PointHistogram::add`].
    pub open spec fn after_add(&self, channel: u8, value: i64) -> Option<Seq<u64>> {
        if self.holds_inside(value) {
            Some(bump(counts_or_zeros(self.entry(channel), self.bins), self.bin_of(value)))
        } else {
            self.entry(channel)
        }
    }

    /// The entry of a channel after values have been added for it with
    /// [`PointHistogram::add_batch`].
    pub open spec fn after_batch(&self, channel: u8, values: Seq<i64>) -> Option<Seq<u64>> {
        Some(self.batch_counts(counts_or_zeros(self.entry(channel), self.bins), values, values.len() as int))
    }

    /// The two ways of adding differ at the left edge of the range only:
    /// any other value gives the same counts whether it is added by itself
    /// or as a batch of one; the left edge is dropped by itself and counted
    /// in the first bin as a batch.
    pub proof fn lemma_add_or_batch(&self, channel: u8, value: i64)
        requires
            self.wf(),
        ensures
            value != self.range.start ==> counts_or_zeros(self.after_add(channel, value), self.bins)
                == counts_or_zeros(self.after_batch(channel, seq![value]), self.bins),
            value == self.range.start ==> self.after_add(channel, value) == self.entry(channel),
            value == self.range.start && self.holds(value) ==> self.after_batch(
                channel,
                seq![value],
            ) == Some(bump(counts_or_zeros(self.entry(channel), self.bins), 0)),
    {
        let b = self.binning();
        let start = counts_or_zeros(self.entry(channel), self.bins);
        assert(b.batch_counts(start, seq![value], 0) == start);
        assert(seq![value][0] == value);
        if value == self.range.start && self.holds(value) {
            assert(self.bin_of(value) == 0) by {
                assert((value - self.range.start) * self.den == 0);
                vstd::arithmetic::div_mod::lemma_div_basics(self.num as int);
            }
        }
    }
}

// ---------------------------------------------------------------------------
// Reading a spectrum
// ---------------------------------------------------------------------------

/// Sum of the first `n` counts whose bin centre lies strictly between
/// `left` and `right`.
pub open spec fn window_total(x: Seq<i64>, counts: Seq<u64>, left: i64, right: i64, n: int) -> int
    decreases n,
{
    if n <= 0 {
        0
    } else {
        window_total(x, counts, left, right, n - 1) + (if left < x[n - 1] < right {
            counts[n - 1] as int
        } else {
            0
        })
    }
}

/// A count limited to what `usize` holds.
pub open spec fn capped(n: int) -> usize {
    if n > usize::MAX {
        usize::MAX
    } else {
        n as usize
    }
}

/// Sum of the capped window totals of the first `k` entries.
pub open spec fn window_total_all(
    x: Seq<i64>,
    channels: Seq<(u8, Vec<u64>)>,
    left: i64,
    right: i64,
    k: int,
) -> int
    decreases k,
{
    if k <= 0 {
        0
    } else {
        window_total_all(x, channels, left, right, k - 1) + capped(
            window_total(x, channels[k - 1].1@, left, right, x.len() as int),
        )
    }
}

/// Sum of the counts of bin `bin` over the first `k` entries.
pub open spec fn bin_total(channels: Seq<(u8, Vec<u64>)>, bin: int, k: int) -> int
    decreases k,
{
    if k <= 0 {
        0
    } else {
        bin_total(channels, bin, k - 1) + channels[k - 1].1@[bin]
    }
}

/// A count limited to 64 bits.
pub open spec fn capped64(n: int) -> u64 {
    if n > u64::MAX {
        u64::MAX
    } else {
        n as u64
    }
}

/// The ends of a window, or of the whole range without one.
pub open spec fn window_ends(range: Range<i64>, window: Option<Range<i64>>) -> (i64, i64) {
    match window {
        Some(w) => (w.start, w.end),
        None => (range.start, range.end),
    }
}

impl PointHistogram {
    /// The sum of the counts of the bins of one entry whose centre lies
    /// strictly within the window.
    fn window_count(&self, k: usize, left: i64, right: i64) -> (n: usize)
        requires
            self.wf(),
            k < self.channels@.len(),
        ensures
            n == capped(window_total(self.x@, self.channels@[k as int].1@, left, right, self.bins as int)),
    {
        let counts = &self.channels[k].1;
        let mut total: u128 = 0;
        let mut i: usize = 0;
        while i < self.bins
            invariant
                i <= self.bins,
                self.wf(),
                k < self.channels@.len(),
                *counts == self.channels@[k as int].1,
                total == window_total(self.x@, counts@, left, right, i as int),
                total <= i * 0xffff_ffff_ffff_ffff,
            decreases self.bins - i,
        {
            assert((i + 1) * 0xffff_ffff_ffff_ffff <= 0xffff_ffff_ffff_ffff * 0xffff_ffff_ffff_ffff)
                by (nonlinear_arith)
                requires
                    i + 1 <= 0xffff_ffff_ffff_ffff,
            ;
            if left < self.x[i] && self.x[i] < right {
                total = total + counts[i] as u128;
            }
            i += 1;
        }
        if total > usize::MAX as u128 {
            usize::MAX
        } else {
            total as usize
        }
    }

    /// For every channel with an entry, the number of counts in the bins
    /// whose centre lies strictly within the window; without a window,
    /// within the range.
    pub fn events(&self, window: Option<Range<i64>>) -> (r: Vec<(u8, usize)>)
        requires
            self.wf(),
        ensures
            r@.len() == self.channels@.len(),
            forall|k: int|
                0 <= k < r@.len() ==> (#[trigger] r@[k]).0 == self.channels@[k].0 && r@[k].1 == capped(
                    window_total(
                        self.x@,
                        self.channels@[k].1@,
                        window_ends(self.range, window).0,
                        window_ends(self.range, window).1,
                        self.bins as int,
                    ),
                ),
    {
        let (left, right) = match window {
            Some(w) => (w.start, w.end),
            None => (self.range.start, self.range.end),
        };
        let mut r: Vec<(u8, usize)> = Vec::new();
        let mut k: usize = 0;
        while k < self.channels.len()
            invariant
                k <= self.channels@.len(),
                self.wf(),
                r@.len() == k,
                forall|j: int|
                    0 <= j < k ==> (#[trigger] r@[j]).0 == self.channels@[j].0 && r@[j].1 == capped(
                        window_total(self.x@, self.channels@[j].1@, left, right, self.bins as int),
                    ),
            decreases self.channels.len() - k,
        {
            let n = self.window_count(k, left, right);
            r.push((self.channels[k].0, n));
            k += 1;
        }
        r
    }

    /// The number of counts of all channels in the bins whose centre lies
    /// strictly within the window.
    pub fn events_all(&self, window: Option<Range<i64>>) -> (n: usize)
        requires
            self.wf(),
        ensures
            n == capped(
                window_total_all(
                    self.x@,
                    self.channels@,
                    window_ends(self.range, window).0,
                    window_ends(self.range, window).1,
                    self.channels@.len() as int,
                ),
            ),
    {
        let (left, right) = match window {
            Some(w) => (w.start, w.end),
            None => (self.range.start, self.range.end),
        };
        let mut total: u128 = 0;
        let mut k: usize = 0;
        while k < self.channels.len()
            invariant
                k <= self.channels@.len(),
                self.wf(),
                total == window_total_all(self.x@, self.channels@, left, right, k as int),
                total <= k * 0xffff_ffff_ffff_ffff,
            decreases self.channels.len() - k,
        {
            assert((k + 1) * 0xffff_ffff_ffff_ffff <= 0xffff_ffff_ffff_ffff * 0xffff_ffff_ffff_ffff)
                by (nonlinear_arith)
                requires
                    k + 1 <= 0xffff_ffff_ffff_ffff,
            ;
            let n = self.window_count(k, left, right);
            total = total + n as u128;
            k += 1;
        }
        if total > usize::MAX as u128 {
            usize::MAX
        } else {
            total as usize
        }
    }

    /// For every bin the sum of its counts over all channels.
    pub fn merge_channels(&self) -> (y: Vec<u64>)
        requires
            self.wf(),
        ensures
            y@.len() == self.bins,
            forall|bin: int|
                0 <= bin < self.bins ==> #[trigger] y@[bin] == capped64(
                    bin_total(self.channels@, bin, self.channels@.len() as int),
                ),
    {
        let mut y: Vec<u64> = Vec::new();
        let mut bin: usize = 0;
        while bin < self.bins
            invariant
                bin <= self.bins,
                self.wf(),
                y@.len() == bin,
                forall|b: int|
                    0 <= b < bin ==> #[trigger] y@[b] == capped64(
                        bin_total(self.channels@, b, self.channels@.len() as int),
                    ),
            decreases self.bins - bin,
        {
            let mut total: u128 = 0;
            let mut k: usize = 0;
            while k < self.channels.len()
                invariant
                    k <= self.channels@.len(),
                    bin < self.bins,
                    self.wf(),
                    total == bin_total(self.channels@, bin as int, k as int),
                    total <= k * 0xffff_ffff_ffff_ffff,
                decreases self.channels.len() - k,
            {
                assert((k + 1) * 0xffff_ffff_ffff_ffff <= 0xffff_ffff_ffff_ffff
                    * 0xffff_ffff_ffff_ffff) by (nonlinear_arith)
                    requires
                        k + 1 <= 0xffff_ffff_ffff_ffff,
                ;
                total = total + self.channels[k].1[bin] as u128;
                k += 1;
            }
            y.push(if total > u64::MAX as u128 {
                u64::MAX
            } else {
                total as u64
            });
            bin += 1;
        }
        y
    }
}

// ---------------------------------------------------------------------------
// A spectrum as text
// ---------------------------------------------------------------------------

/// The character of a decimal digit.
pub open spec fn digit(d: int) -> char {
    if d == 0 {
        '0'
    } else if d == 1 {
        '1'
    } else if d == 2 {
        '2'
    } else if d == 3 {
        '3'
    } else if d == 4 {
        '4'
    } else if d == 5 {
        '5'
    } else if d == 6 {
        '6'
    } else if d == 7 {
        '7'
    } else if d == 8 {
        '8'
    } else {
        '9'
    }
}

/// A number in decimal digits, without leading zeros.
pub open spec fn decimal(n: nat) -> Seq<char>
    decreases n,
{
    if n < 10 {
        seq![digit(n as int)]
    } else {
        decimal(n / 10).push(digit((n % 10) as int))
    }
}

/// A value in millionths as a decimal number with four digits behind the
/// point, rounded to the nearest ten-thousandth, halves away from zero. The
/// sign is written where what is written is below zero.
pub open spec fn fixed4(value: i64) -> Seq<char> {
    let magnitude: int = if value < 0 {
        -value
    } else {
        value as int
    };
    let t: int = (magnitude + 50) / 100;
    let sign: Seq<char> = if value < 0 && t > 0 {
        seq!['-']
    } else {
        Seq::empty()
    };
    sign + decimal((t / 10000) as nat) + seq![
        '.',
        digit((t / 1000) % 10),
        digit((t / 100) % 10),
        digit((t / 10) % 10),
        digit(t % 10),
    ]
}

/// The head of the table up to entry `k`: `bin`, then a column for each
/// channel, the channels counted from one.
pub open spec fn csv_head(channels: Seq<(u8, Vec<u64>)>, separator: char, k: int) -> Seq<char>
    decreases k,
{
    if k <= 0 {
        seq!['b', 'i', 'n']
    } else {
        csv_head(channels, separator, k - 1) + seq![separator, 'c', 'h', ' '] + decimal(
            (channels[k - 1].0 + 1) as nat,
        )
    }
}

/// The row of bin `i` up to entry `k`: the centre of the bin, then the
/// count of each channel.
pub open spec fn csv_row(
    x: Seq<i64>,
    channels: Seq<(u8, Vec<u64>)>,
    separator: char,
    i: int,
    k: int,
) -> Seq<char>
    decreases k,
{
    if k <= 0 {
        fixed4(x[i])
    } else {
        csv_row(x, channels, separator, i, k - 1) + seq![separator] + decimal(
            channels[k - 1].1@[i] as nat,
        )
    }
}

/// The table up to row `n`: the head and a row for each bin, every line
/// closed by a line feed. The separator stands between the fields of a
/// line.
pub open spec fn csv_text(x: Seq<i64>, channels: Seq<(u8, Vec<u64>)>, separator: char, n: int) -> Seq<
    char,
>
    decreases n,
{
    if n <= 0 {
        csv_head(channels, separator, channels.len() as int) + seq!['\n']
    } else {
        csv_text(x, channels, separator, n - 1) + csv_row(
            x,
            channels,
            separator,
            n - 1,
            channels.len() as int,
        ) + seq!['\n']
    }
}

/// The character of a digit.
fn digit_char(d: u64) -> (c: char)
    requires
        d < 10,
    ensures
        c == digit(d as int),
{
    if d == 0 {
        '0'
    } else if d == 1 {
        '1'
    } else if d == 2 {
        '2'
    } else if d == 3 {
        '3'
    } else if d == 4 {
        '4'
    } else if d == 5 {
        '5'
    } else if d == 6 {
        '6'
    } else if d == 7 {
        '7'
    } else if d == 8 {
        '8'
    } else {
        '9'
    }
}

/// Appends a number in decimal digits.
fn push_decimal(out: &mut Vec<char>, n: u64)
    ensures
        final(out)@ == old(out)@ + decimal(n as nat),
    decreases n,
{
    if n >= 10 {
        push_decimal(out, n / 10);
    }
    out.push(digit_char(n % 10));
    proof {
        if n >= 10 {
            assert(out@ =~= old(out)@ + decimal((n / 10) as nat).push(digit((n % 10) as int)));
        } else {
            assert(out@ =~= old(out)@ + seq![digit(n as int)]);
        }
    }
}

/// Appends a value in millionths with four digits behind the point.
fn push_fixed4(out: &mut Vec<char>, value: i64)
    ensures
        final(out)@ == old(out)@ + fixed4(value),
{
    let magnitude: u64 = if value < 0 {
        (-(value as i128)) as u64
    } else {
        value as u64
    };
    let t: u64 = (magnitude + 50) / 100;
    if value < 0 && t > 0 {
        out.push('-');
    }
    push_decimal(out, t / 10000);
    out.push('.');
    out.push(digit_char((t / 1000) % 10));
    out.push(digit_char((t / 100) % 10));
    out.push(digit_char((t / 10) % 10));
    out.push(digit_char(t % 10));
    proof {
        assert(out@ =~= old(out)@ + fixed4(value));
    }
}

/// `String::from_iter` of std on the characters of `chars`: the text made
/// of these characters in their order.
#[verifier::external_body]
fn text_of(chars: &Vec<char>) -> (text: String)
    ensures
        text@ == chars@,
{
    chars.iter().collect()
}

impl PointHistogram {
    /// The spectrum as a table in text: a head line `bin`, `ch 1`, and so
    /// on for the channels that have an entry, then a line for each bin with
    /// its centre and the counts. `separator` stands between the fields.
    pub fn to_csv(&self, separator: char) -> (data: String)
        requires
            self.wf(),
        ensures
            data@ == csv_text(self.x@, self.channels@, separator, self.bins as int),
    {
        let mut out: Vec<char> = Vec::new();
        out.push('b');
        out.push('i');
        out.push('n');
        let mut k: usize = 0;
        proof {
            assert(out@ =~= csv_head(self.channels@, separator, 0));
        }
        while k < self.channels.len()
            invariant
                k <= self.channels@.len(),
                out@ == csv_head(self.channels@, separator, k as int),
            decreases self.channels.len() - k,
        {
            let ghost before = out@;
            out.push(separator);
            out.push('c');
            out.push('h');
            out.push(' ');
            push_decimal(&mut out, self.channels[k].0 as u64 + 1);
            proof {
                assert(out@ =~= before + seq![separator, 'c', 'h', ' '] + decimal(
                    (self.channels@[k as int].0 + 1) as nat,
                ));
            }
            k += 1;
        }
        out.push('\n');
        let mut i: usize = 0;
        proof {
            assert(out@ =~= csv_text(self.x@, self.channels@, separator, 0));
        }
        while i < self.bins
            invariant
                i <= self.bins,
                self.wf(),
                out@ == csv_text(self.x@, self.channels@, separator, i as int),
            decreases self.bins - i,
        {
            let ghost start = out@;
            push_fixed4(&mut out, self.x[i]);
            let mut k: usize = 0;
            proof {
                assert(out@ =~= start + csv_row(self.x@, self.channels@, separator, i as int, 0));
            }
            while k < self.channels.len()
                invariant
                    k <= self.channels@.len(),
                    i < self.bins,
                    self.wf(),
                    out@ == start + csv_row(self.x@, self.channels@, separator, i as int, k as int),
                decreases self.channels.len() - k,
            {
                out.push(separator);
                push_decimal(&mut out, self.channels[k].1[i]);
                proof {
                    assert(out@ =~= start + (csv_row(
                        self.x@,
                        self.channels@,
                        separator,
                        i as int,
                        k as int,
                    ) + seq![separator] + decimal(self.channels@[k as int].1@[i as int] as nat)));
                }
                k += 1;
            }
            out.push('\n');
            proof {
                assert(out@ =~= start + csv_row(
                    self.x@,
                    self.channels@,
                    separator,
                    i as int,
                    self.channels@.len() as int,
                ) + seq!['\n']);
            }
            i += 1;
        }
        text_of(&out)
    }
}

// ---------------------------------------------------------------------------
// Counts are numbers of values
// ---------------------------------------------------------------------------

impl Binning {
    /// Number of the values `xs[..n]` that lie in bin `bin`.
    pub open spec fn hits(self, xs: Seq<i64>, n: int, bin: int) -> int
        decreases n,
    {
        if n <= 0 {
            0
        } else {
            self.hits(xs, n - 1, bin) + (if self.holds(xs[n - 1]) && self.bin_of(xs[n - 1]) == bin {
                1int
            } else {
                0int
            })
        }
    }

    /// After a batch the count of a bin is what it was and the number of
    /// values of the batch that lie in the bin, as far as 64 bits hold it.
    pub proof fn lemma_batch_counts(self, counts: Seq<u64>, xs: Seq<i64>, n: int, bin: int)
        requires
            0 <= bin < counts.len(),
        ensures
            self.batch_counts(counts, xs, n).len() == counts.len(),
            self.hits(xs, n, bin) >= 0,
            self.batch_counts(counts, xs, n)[bin] == capped64(counts[bin] + self.hits(xs, n, bin)),
        decreases n,
    {
        if n > 0 {
            self.lemma_batch_counts(counts, xs, n - 1, bin);
        }
    }
}

} // verus!
