//! Tables of the detector.

use vstd::prelude::*;

verus! {

/// Number of the central pixel. It collects charge that is shared with any
/// other pixel.
pub const CENTRAL_CHANNEL: u8 = 5;

/// The pairs of pixels that share an edge, smaller number first.
pub const DETECTOR_BORDERS: [[u8; 2]; 8] = [
    [1, 3],
    [1, 4],
    [1, 7],
    [2, 3],
    [2, 5],
    [2, 7],
    [3, 4],
    [4, 5],
];

/// The pair `(lo, hi)` stands in [`DETECTOR_BORDERS`].
pub open spec fn shares_border(lo: u8, hi: u8) -> bool {
    ||| (lo == 1 && hi == 3)
    ||| (lo == 1 && hi == 4)
    ||| (lo == 1 && hi == 7)
    ||| (lo == 2 && hi == 3)
    ||| (lo == 2 && hi == 5)
    ||| (lo == 2 && hi == 7)
    ||| (lo == 3 && hi == 4)
    ||| (lo == 4 && hi == 5)
}

/// [`shares_border`] holds of exactly the rows of [`DETECTOR_BORDERS`].
pub proof fn lemma_borders_table(lo: u8, hi: u8)
    ensures
        shares_border(lo, hi) <==> exists|k: int|
            0 <= k < 8 && (#[trigger] DETECTOR_BORDERS[k])[0] == lo && DETECTOR_BORDERS[k][1] == hi,
{
    if shares_border(lo, hi) {
        let k: int = if lo == 1 && hi == 3 {
            0
        } else if lo == 1 && hi == 4 {
            1
        } else if lo == 1 && hi == 7 {
            2
        } else if lo == 2 && hi == 3 {
            3
        } else if lo == 2 && hi == 5 {
            4
        } else if lo == 2 && hi == 7 {
            5
        } else if lo == 3 && hi == 4 {
            6
        } else {
            7
        };
        assert(DETECTOR_BORDERS[k][0] == lo && DETECTOR_BORDERS[k][1] == hi);
    }
}

/// Number of steps of a calibration coefficient per unit.
pub const COEFF_SCALE: i64 = 10_000_000_000;

/// Calibration of the Max algorithm. For each channel the slope and the offset of the
/// line that turns an amplitude into kiloelectronvolts, in units of
/// [`COEFF_SCALE`].
pub const KEV_COEFF_MAX: [[i64; 2]; 7] = [
    [593_792_870, 3_150_997_200],
    [605_577_680, 2_677_297_600],
    [631_773_400, 2_302_799_200],
    [623_339_380, 2_605_018_600],
    [621_864_830, 2_595_443_700],
    [675_178_800, 2_222_414_000],
    [580_680_300, 1_451_902_400],
];

/// Calibration of the Likhovid algorithm. For each channel the slope and the offset of the
/// line that turns an amplitude into kiloelectronvolts, in units of
/// [`COEFF_SCALE`].
pub const KEV_COEFF_LIKHOVID: [[i64; 2]; 7] = [
    [3_175_972_000, 715_103_150],
    [2_723_175_000, 807_495_100],
    [2_869_933_000, 822_896_960],
    [2_942_409_500, -75_092_316],
    [2_959_819_700, 641_679_800],
    [2_869_933_000, 822_896_960],
    [2_600_775_400, -174_636_840],
];

/// Calibration of the FirstPeak algorithm. For each channel the slope and the offset of the
/// line that turns an amplitude into kiloelectronvolts, in units of
/// [`COEFF_SCALE`].
pub const KEV_COEFF_FIRST_PEAK: [[i64; 2]; 7] = [
    [2_996_580_000, -5_440_850],
    [2_574_710_000, 11_513_300],
    [2_720_170_000, -13_688_000],
    [2_726_880_000, -7_545_530],
    [2_836_670_000, 38_002_900],
    [2_703_790_000, 3_002_770],
    [2_429_010_000, 5_929_000],
];

/// Calibration of the trapezoid algorithm. Channels that have not been
/// calibrated keep their amplitude. For each channel the slope and the offset of the
/// line that turns an amplitude into kiloelectronvolts, in units of
/// [`COEFF_SCALE`].
pub const KEV_COEFF_TRAPEZIOD: [[i64; 2]; 7] = [
    [10_000_000_000, 0],
    [1_266_983_900, 6_464_157_000],
    [1_272_432_800, 5_693_121_000],
    [10_000_000_000, 0],
    [1_273_699_700, 6_286_917_000],
    [1_290_213_200, 6_389_560_700],
    [1_290_213_200, 6_389_560_700],
];

/// Calibration of the LongDiff algorithm: none yet, amplitudes stay as they
/// are. For each channel the slope and the offset of the
/// line that turns an amplitude into kiloelectronvolts, in units of
/// [`COEFF_SCALE`].
pub const KEV_COEFF_LONGDIFF: [[i64; 2]; 7] = [
    [10_000_000_000, 0],
    [10_000_000_000, 0],
    [10_000_000_000, 0],
    [10_000_000_000, 0],
    [10_000_000_000, 0],
    [10_000_000_000, 0],
    [10_000_000_000, 0],
];

/// Times in nanoseconds at which the baselines of the run of March 2024
/// were measured.
pub const BASELINE_TIMES: [u64; 18] = [
    1_711_317_108_386_830_736,
    1_711_360_670_893_782_872,
    1_711_545_489_473_656_016,
    1_711_566_484_845_656_048,
    1_711_586_624_318_707_280,
    1_711_670_437_758_368_480,
    1_711_741_174_694_678_576,
    1_711_827_604_635_200_456,
    1_711_827_604_635_200_456,
    1_711_911_668_527_591_712,
    1_712_010_402_813_050_312,
    1_712_081_950_822_779_920,
    1_712_195_913_038_798_528,
    1_712_273_043_300_465_992,
    1_712_384_266_593_392_328,
    1_712_466_632_900_589_048,
    1_712_549_828_134_914_720,
    1_712_623_401_464_114_520,
];

/// Baselines of channel 1 in millionths at the times of [`BASELINE_TIMES`].
pub const BASELINE_CH2: [i64; 18] = [
    30_250_000,
    27_250_000,
    23_250_000,
    23_250_000,
    22_250_000,
    21_250_000,
    20_750_000,
    20_750_000,
    20_750_000,
    20_750_000,
    20_750_000,
    21_250_000,
    18_750_000,
    17_250_000,
    16_250_000,
    15_750_000,
    15_250_000,
    15_750_000,
];

/// Baselines of channel 2 in millionths at the times of [`BASELINE_TIMES`].
pub const BASELINE_CH3: [i64; 18] = [
    26_750_000,
    25_250_000,
    21_250_000,
    20_750_000,
    20_250_000,
    19_250_000,
    18_750_000,
    18_750_000,
    18_750_000,
    18_750_000,
    18_750_000,
    19_250_000,
    17_250_000,
    15_750_000,
    14_750_000,
    14_250_000,
    13_750_000,
    14_250_000,
];

/// Baselines of channel 4 in millionths at the times of [`BASELINE_TIMES`].
pub const BASELINE_CH5: [i64; 18] = [
    26_250_000,
    25_250_000,
    21_250_000,
    21_250_000,
    20_250_000,
    19_250_000,
    19_250_000,
    18_750_000,
    18_750_000,
    18_750_000,
    18_750_000,
    19_250_000,
    17_250_000,
    15_750_000,
    14_750_000,
    14_250_000,
    13_750_000,
    14_250_000,
];

/// Baselines of channel 5 in millionths at the times of [`BASELINE_TIMES`].
pub const BASELINE_CH6: [i64; 18] = [
    28_750_000,
    26_250_000,
    23_250_000,
    22_750_000,
    21_750_000,
    20_750_000,
    20_250_000,
    20_250_000,
    20_250_000,
    20_250_000,
    20_250_000,
    20_750_000,
    18_250_000,
    16_750_000,
    15_750_000,
    15_250_000,
    14_750_000,
    15_250_000,
];

/// Baselines of channel 6 in millionths at the times of [`BASELINE_TIMES`].
pub const BASELINE_CH7: [i64; 18] = [
    25_750_000,
    23_750_000,
    20_250_000,
    20_250_000,
    19_250_000,
    18_250_000,
    18_250_000,
    17_750_000,
    17_750_000,
    18_250_000,
    17_750_000,
    18_250_000,
    16_250_000,
    14_750_000,
    13_750_000,
    13_250_000,
    13_250_000,
    13_750_000,
];

/// The measured baseline of a channel at measurement `i`; zero for the
/// channels that were not measured.
pub open spec fn measured_baseline(channel: u8, i: int) -> int {
    if channel == 1 {
        BASELINE_CH2[i] as int
    } else if channel == 2 {
        BASELINE_CH3[i] as int
    } else if channel == 4 {
        BASELINE_CH5[i] as int
    } else if channel == 5 {
        BASELINE_CH6[i] as int
    } else if channel == 6 {
        BASELINE_CH7[i] as int
    } else {
        0
    }
}

/// The first measurement from `i` on that `time` is not before and whose
/// successor it is before; the first of all if there is none.
pub open spec fn baseline_sector(time: u64, i: int) -> int
    decreases 17 - i,
{
    if i < 0 || i >= 17 {
        0
    } else if BASELINE_TIMES[i] <= time < BASELINE_TIMES[i + 1] {
        i
    } else {
        baseline_sector(time, i + 1)
    }
}

/// The baseline of a channel at a time, in millionths: before the first
/// measurement that of the first, behind the last that of the last, and
/// between two measurements on the line through them, rounded down.
pub open spec fn baseline_at(time: u64, channel: u8) -> int {
    if time < BASELINE_TIMES[0] {
        measured_baseline(channel, 0)
    } else if time > BASELINE_TIMES[17] {
        measured_baseline(channel, 17)
    } else {
        let s = baseline_sector(time, 0);
        let y1 = measured_baseline(channel, s);
        let y2 = measured_baseline(channel, s + 1);
        y1 + ((y2 - y1) * (time - BASELINE_TIMES[s])) / (BASELINE_TIMES[s + 1] - BASELINE_TIMES[s])
    }
}

/// The measured baseline of a channel at measurement `i`.
fn measured(channel: u8, i: usize) -> (y: i64)
    requires
        i < 18,
    ensures
        y == measured_baseline(channel, i as int),
        0 <= y <= 31_000_000,
{
    if channel == 1 {
        BASELINE_CH2[i]
    } else if channel == 2 {
        BASELINE_CH3[i]
    } else if channel == 4 {
        BASELINE_CH5[i]
    } else if channel == 5 {
        BASELINE_CH6[i]
    } else if channel == 6 {
        BASELINE_CH7[i]
    } else {
        0
    }
}

/// The baseline of a channel at a time during the run of March 2024, from
/// the measurements of [`BASELINE_TIMES`].
pub fn baseline_2024_03(time: u64, ch_id: u8) -> (y: i64)
    ensures
        y == crate::fixed::clamp(baseline_at(time, ch_id)),
{
    if time < BASELINE_TIMES[0] {
        return measured(ch_id, 0);
    }
    if time > BASELINE_TIMES[17] {
        return measured(ch_id, 17);
    }
    let sector = find_sector(time);
    let x1 = BASELINE_TIMES[sector];
    let x2 = BASELINE_TIMES[sector + 1];
    let y1 = measured(ch_id, sector);
    let y2 = measured(ch_id, sector + 1);
    assert(x2 > x1) by {
        lemma_sector_grows(time, 0);
    }
    assert(-0x1_0000_0000_0000_0000_0000_0000 <= (y2 - y1) * (time - x1)
        <= 0x1_0000_0000_0000_0000_0000_0000) by (nonlinear_arith)
        requires
            -0x1_0000_0000 <= y2 - y1 <= 0x1_0000_0000,
            -0xffff_ffff_ffff_ffff <= time - x1 <= 0xffff_ffff_ffff_ffff,
    ;
    let rise: i128 = (y2 as i128 - y1 as i128) * (time as i128 - x1 as i128);
    let step = crate::fixed::div_floor(rise, x2 as i128 - x1 as i128);
    proof {
        let d: int = x2 - x1;
        vstd::arithmetic::div_mod::lemma_div_is_ordered(
            rise as int,
            0x1_0000_0000_0000_0000_0000_0000,
            d,
        );
        vstd::arithmetic::div_mod::lemma_div_is_ordered(
            -0x1_0000_0000_0000_0000_0000_0000,
            rise as int,
            d,
        );
        vstd::arithmetic::div_mod::lemma_div_is_ordered_by_denominator(
            0x1_0000_0000_0000_0000_0000_0000,
            1,
            d,
        );
        vstd::arithmetic::div_mod::lemma_div_basics(0x1_0000_0000_0000_0000_0000_0000);
        vstd::arithmetic::div_mod::lemma_div_basics(-0x1_0000_0000_0000_0000_0000_0000);
        vstd::arithmetic::div_mod::lemma_fundamental_div_mod(
            -0x1_0000_0000_0000_0000_0000_0000,
            d,
        );
        assert((-0x1_0000_0000_0000_0000_0000_0000int) / d >= -0x1_0000_0000_0000_0000_0000_0000)
            by (nonlinear_arith)
            requires
                d >= 1,
                -0x1_0000_0000_0000_0000_0000_0000 == d * ((-0x1_0000_0000_0000_0000_0000_0000int)
                    / d) + (-0x1_0000_0000_0000_0000_0000_0000int) % d,
                0 <= (-0x1_0000_0000_0000_0000_0000_0000int) % d < d,
        ;
    }
    crate::fixed::saturate(y1 as i128 + step)
}

/// The measurement between which and its successor `time` lies.
fn find_sector(time: u64) -> (s: usize)
    ensures
        s == baseline_sector(time, 0),
        s < 17,
{
    let mut i: usize = 0;
    while i < 17
        invariant
            i <= 17,
            baseline_sector(time, 0) == baseline_sector(time, i as int),
        decreases 17 - i,
    {
        if time >= BASELINE_TIMES[i] && time < BASELINE_TIMES[i + 1] {
            return i;
        }
        i += 1;
    }
    0
}

/// The measurement that [`baseline_sector`] gives is earlier than the one
/// behind it.
pub proof fn lemma_sector_grows(time: u64, i: int)
    requires
        0 <= i,
    ensures
        0 <= baseline_sector(time, i) < 17,
        BASELINE_TIMES[baseline_sector(time, i)] < BASELINE_TIMES[baseline_sector(time, i) + 1],
    decreases 17 - i,
{
    if i < 17 && !(BASELINE_TIMES[i] <= time < BASELINE_TIMES[i + 1]) {
        lemma_sector_grows(time, i + 1);
    }
}

} // verus!
