use numass_processing::preprocess::{emulate_fir, Preprocess};
use numass_processing::process::{
    convert_to_kev, find_first_peak, frame_to_events, sort_events, Algorithm, HWResetParams,
    ProcessParams, SkipOption,
};
use numass_processing::types::{frame_is_valid, FrameEvent, NumassEvent, NumassFrame};
use std::collections::BTreeSet;

fn no_reset() -> HWResetParams {
    HWResetParams { window: 10, treshold: 800, size: 110 }
}

fn trapezoid(threshold: i16, min_length: usize, skip: SkipOption) -> Algorithm {
    Algorithm::Trapezoid {
        left: 4,
        center: 2,
        right: 4,
        treshold: threshold,
        min_length,
        skip,
        reset_detection: no_reset(),
    }
}

fn step_waveform() -> Vec<i16> {
    let mut w = vec![0i16; 10];
    w.extend(vec![100i16; 30]);
    w
}

fn preprocess_with_baseline(baseline: [i64; 7]) -> Preprocess {
    Preprocess {
        baseline: Some(baseline),
        hv: 14_000_000_000,
        start_time: chrono::NaiveDateTime::default(),
        acquisition_time: 30_000_000_000,
        frame_len: 320,
        bad_blocks: BTreeSet::new(),
    }
}

#[test]
fn max_on_a_triangle() {
    let frame: NumassFrame = vec![(0, vec![0, 10, 20, 10, 0])];
    let events = frame_to_events(&frame, &Algorithm::Max, None);
    assert_eq!(
        events,
        vec![(16, FrameEvent::Event { channel: 0, amplitude: 20_000_000, size: 1 })]
    );
}

#[test]
fn max_takes_the_last_of_equal_samples() {
    let frame: NumassFrame = vec![(2, vec![5, 7, 1, 7, 0])];
    let events = frame_to_events(&frame, &Algorithm::Max, None);
    assert_eq!(
        events,
        vec![(24, FrameEvent::Event { channel: 2, amplitude: 7_000_000, size: 1 })]
    );
}

#[test]
fn max_of_an_empty_waveform_gives_nothing() {
    let frame: NumassFrame = vec![(0, vec![]), (1, vec![-3, -1, -2])];
    let events = frame_to_events(&frame, &Algorithm::Max, None);
    assert_eq!(
        events,
        vec![(8, FrameEvent::Event { channel: 1, amplitude: -1_000_000, size: 1 })]
    );
}

#[test]
fn first_peak_with_threshold_five() {
    let frame: NumassFrame = vec![(0, vec![0, 3, 5, 6, 5, 2, 7, 1])];
    let algorithm = Algorithm::FirstPeak { threshold: 5, left: 2 };
    let events = frame_to_events(&frame, &algorithm, None);
    assert_eq!(
        events,
        vec![(24, FrameEvent::Event { channel: 0, amplitude: 580_000, size: 1 })]
    );
    let amplitude = match events[0].1 {
        FrameEvent::Event { amplitude, .. } => amplitude as f64 / 1e6,
        _ => panic!("an event was expected"),
    };
    assert!((amplitude - 0.58).abs() < 1e-9);
}

#[test]
fn first_peak_without_a_peak_gives_nothing() {
    let frame: NumassFrame = vec![(0, vec![0, 3, 5, 4, 1])];
    let algorithm = Algorithm::FirstPeak { threshold: 5, left: 2 };
    assert_eq!(frame_to_events(&frame, &algorithm, None), vec![]);
}

#[test]
fn find_first_peak_positions() {
    assert_eq!(find_first_peak(&[0, 3, 5, 6, 5, 2, 7, 1], 5), Some(3));
    assert_eq!(find_first_peak(&[9, 3, 5], 5), Some(0));
    assert_eq!(find_first_peak(&[1, 3, 8], 5), Some(2));
    assert_eq!(find_first_peak(&[6, 7, 8, 9], 5), Some(3));
    assert_eq!(find_first_peak(&[1, 2, 3], 5), None);
    assert_eq!(find_first_peak(&[], 5), None);
    // a plateau: the first sample of it is not exceeded by a neighbour
    assert_eq!(find_first_peak(&[0, 7, 7, 0], 5), Some(1));
}

#[test]
fn likhovid_averages_around_the_maximum() {
    // maximum at index 3; window from 3 - 2 to 3 + 2, the end not included
    let frame: NumassFrame = vec![(4, vec![0, 1, 2, 9, 4, 5, 6])];
    let algorithm = Algorithm::Likhovid { left: 2, right: 2 };
    let events = frame_to_events(&frame, &algorithm, None);
    // (1 + 2 + 9 + 4) / 4 = 4
    assert_eq!(
        events,
        vec![(24, FrameEvent::Event { channel: 4, amplitude: 4_000_000, size: 1 })]
    );
}

#[test]
fn likhovid_window_is_clipped_and_rounds_down() {
    let frame: NumassFrame = vec![(0, vec![9, 1, 1])];
    let algorithm = Algorithm::Likhovid { left: 15, right: 36 };
    let events = frame_to_events(&frame, &algorithm, None);
    // (9 + 1 + 1) / 3 = 3.666666...
    assert_eq!(
        events,
        vec![(0, FrameEvent::Event { channel: 0, amplitude: 3_666_666, size: 1 })]
    );
    // a negative mean is rounded down as well: (-1 - 1 + 0) / 3 = -0.666...
    let frame: NumassFrame = vec![(0, vec![-1, -1, 0])];
    let events = frame_to_events(&frame, &algorithm, None);
    assert_eq!(
        events,
        vec![(16, FrameEvent::Event { channel: 0, amplitude: -666_667, size: 1 })]
    );
}

#[test]
fn likhovid_with_an_empty_window_gives_zero() {
    let frame: NumassFrame = vec![(0, vec![1, 5, 2])];
    let algorithm = Algorithm::Likhovid { left: 0, right: 0 };
    let events = frame_to_events(&frame, &algorithm, None);
    assert_eq!(
        events,
        vec![(8, FrameEvent::Event { channel: 0, amplitude: 0, size: 1 })]
    );
}

#[test]
fn shaper_of_a_step() {
    let shaped = emulate_fir(&step_waveform(), 4, 2, 4);
    assert_eq!(shaped.len(), 31);
    let expected_head: Vec<i64> = vec![0, 25, 50, 75, 100, 100, 100, 75, 50, 25, 0, 0]
        .into_iter()
        .map(|v| v * 1_000_000)
        .collect();
    assert_eq!(&shaped[..12], &expected_head[..]);
    assert!(shaped[12..].iter().all(|v| *v == 0));
}

#[test]
fn shaper_is_zero_on_a_ramp_and_empty_when_nothing_fits() {
    let ramp: Vec<i16> = (0..20).map(|i| 3 * i).collect();
    // the two arms are six samples apart: the means differ by 18
    let shaped = emulate_fir(&ramp, 4, 2, 4);
    assert_eq!(shaped, vec![18_000_000; 11]);
    assert_eq!(emulate_fir(&ramp, 4, 20, 4), Vec::<i64>::new());
    assert_eq!(emulate_fir(&[], 1, 0, 1), Vec::<i64>::new());
    assert_eq!(emulate_fir(&ramp, 0, 0, 0), Vec::<i64>::new());
    // a window as long as the waveform gives one sample
    assert_eq!(emulate_fir(&ramp, 8, 4, 8), vec![36_000_000]);
}

#[test]
fn shaper_with_an_arm_without_samples() {
    let w = [10i16, 20, 30, 40, 50, 61];
    // no right arm: the mean of the left arm of two samples, taken off zero
    assert_eq!(
        emulate_fir(&w, 0, 1, 2),
        vec![-15_000_000, -25_000_000, -35_000_000, -45_000_000]
    );
    // no left arm: the mean of the right arm of two samples behind a gap of one
    assert_eq!(
        emulate_fir(&w, 2, 1, 0),
        vec![25_000_000, 35_000_000, 45_000_000, 55_500_000]
    );
    // no arm at all: a window of the gap alone gives zeros
    assert_eq!(emulate_fir(&w, 0, 2, 0), vec![0; 5]);
    // the events of such a shaper are found like any others
    let algorithm = Algorithm::Trapezoid {
        left: 0,
        center: 1,
        right: 2,
        treshold: 40,
        min_length: 1,
        skip: SkipOption::Nothing,
        reset_detection: HWResetParams { window: 10, treshold: 800, size: 110 },
    };
    let frame: NumassFrame = vec![(2, w.to_vec())];
    // 45 and 55.5 reach the threshold: two samples from shaped sample 2 on
    assert_eq!(
        frame_to_events(&frame, &algorithm, None),
        vec![(40, FrameEvent::Event { channel: 2, amplitude: 33_500_000, size: 2 })]
    );
}

#[test]
fn shaper_rounds_down() {
    // right arm mean 1/3, left arm mean 0
    assert_eq!(emulate_fir(&[0, 0, 0, 0, 0, 1], 3, 0, 3), vec![333_333]);
    // right arm mean 0, left arm mean 1/3
    assert_eq!(emulate_fir(&[0, 0, 1, 0, 0, 0], 3, 0, 3), vec![-333_334]);
}

#[test]
fn trapezoid_on_a_single_step() {
    let frame: NumassFrame = vec![(0, step_waveform())];
    let events = frame_to_events(&frame, &trapezoid(20, 3, SkipOption::Nothing), None);
    // the shaped trace is 25, 50, 75, 100, 100, 100, 75, 50, 25 from sample 1 on
    assert_eq!(
        events,
        vec![(88, FrameEvent::Event { channel: 0, amplitude: 60_000_000, size: 9 })]
    );
}

#[test]
fn trapezoid_drops_short_events() {
    let frame: NumassFrame = vec![(0, step_waveform())];
    assert_eq!(frame_to_events(&frame, &trapezoid(20, 10, SkipOption::Nothing), None), vec![]);
    // with a threshold of 100 only the plateau of three samples is left
    let events = frame_to_events(&frame, &trapezoid(100, 3, SkipOption::Nothing), None);
    assert_eq!(
        events,
        vec![(112, FrameEvent::Event { channel: 0, amplitude: 30_000_000, size: 3 })]
    );
    assert_eq!(frame_to_events(&frame, &trapezoid(100, 4, SkipOption::Nothing), None), vec![]);
}

#[test]
fn trapezoid_takes_the_baseline_off() {
    let frame: NumassFrame = vec![(3, step_waveform())];
    let preprocess = preprocess_with_baseline([0, 0, 0, 30_000_000, 0, 0, 0]);
    // 25 - 30 is below the threshold of 20; 50, 75, 100, 100, 100, 75, 50 stay, less 30
    let events =
        frame_to_events(&frame, &trapezoid(20, 3, SkipOption::Nothing), Some(&preprocess));
    assert_eq!(
        events,
        vec![(96, FrameEvent::Event { channel: 3, amplitude: 34_000_000, size: 7 })]
    );
    // the baseline of another channel does not matter
    let preprocess = preprocess_with_baseline([30_000_000, 0, 0, 0, 0, 0, 0]);
    let events =
        frame_to_events(&frame, &trapezoid(20, 3, SkipOption::Nothing), Some(&preprocess));
    assert_eq!(
        events,
        vec![(88, FrameEvent::Event { channel: 3, amplitude: 60_000_000, size: 9 })]
    );
}

#[test]
fn trapezoid_on_a_short_waveform_gives_nothing() {
    let frame: NumassFrame = vec![(0, vec![100; 9]), (1, vec![])];
    assert_eq!(frame_to_events(&frame, &trapezoid(20, 1, SkipOption::Nothing), None), vec![]);
}

fn reset_frame() -> NumassFrame {
    let mut first = vec![0i16; 300];
    first[50] = 900;
    let mut second = vec![0i16; 300];
    for j in 80..100 {
        second[j] = 100;
    }
    for j in 200..220 {
        second[j] = 100;
    }
    vec![(0, first), (1, second)]
}

#[test]
fn reset_is_recorded_once_and_hides_what_it_covers() {
    let events = frame_to_events(&reset_frame(), &trapezoid(20, 3, SkipOption::Nothing), None);
    assert_eq!(
        events,
        vec![
            (400, FrameEvent::Reset { size: 110 }),
            (1608, FrameEvent::Event { channel: 1, amplitude: 60_000_000, size: 9 }),
        ]
    );
    let resets = events.iter().filter(|e| matches!(e.1, FrameEvent::Reset { .. })).count();
    assert_eq!(resets, 1);
}

#[test]
fn resets_of_two_channels_are_one_interval() {
    let mut first = vec![0i16; 300];
    first[50] = 900;
    let mut second = vec![0i16; 300];
    second[70] = 901;
    let frame: NumassFrame = vec![(0, first), (3, second)];
    let events = frame_to_events(&frame, &trapezoid(20, 3, SkipOption::Nothing), None);
    // from sample 50 to sample 70 + 110
    assert_eq!(events, vec![(400, FrameEvent::Reset { size: 130 })]);
}

#[test]
fn skip_options() {
    let bad = reset_frame();
    let good: NumassFrame = vec![(0, step_waveform())];
    assert_eq!(frame_to_events(&bad, &trapezoid(20, 3, SkipOption::Bad), None), vec![]);
    assert_eq!(frame_to_events(&bad, &trapezoid(20, 3, SkipOption::Good), None).len(), 2);
    assert_eq!(frame_to_events(&good, &trapezoid(20, 3, SkipOption::Bad), None).len(), 1);
    assert_eq!(frame_to_events(&good, &trapezoid(20, 3, SkipOption::Good), None), vec![]);
}

fn trapezoid_without_reset(skip: SkipOption) -> Algorithm {
    Algorithm::Trapezoid {
        left: 4,
        center: 2,
        right: 4,
        treshold: 20000,
        min_length: 3,
        skip,
        reset_detection: HWResetParams { window: 10, treshold: 30000, size: 110 },
    }
}

#[test]
fn overflow_is_recorded_for_channels_one_and_five() {
    let mut w = vec![0i16; 40];
    w[12] = 8189;
    w[13] = 8189;
    let frame: NumassFrame = vec![(1, w.clone())];
    let events = frame_to_events(&frame, &trapezoid_without_reset(SkipOption::Nothing), None);
    assert_eq!(events, vec![(96, FrameEvent::Overflow { channel: 1, size: 28 })]);
    // the same code on another channel is no overflow
    let frame: NumassFrame = vec![(2, w.clone())];
    assert_eq!(
        frame_to_events(&frame, &trapezoid_without_reset(SkipOption::Nothing), None),
        vec![]
    );
    let mut w = vec![0i16; 40];
    w[30] = 8081;
    let frame: NumassFrame = vec![(5, w)];
    let events = frame_to_events(&frame, &trapezoid_without_reset(SkipOption::Good), None);
    assert_eq!(events, vec![(240, FrameEvent::Overflow { channel: 5, size: 10 })]);
    let events = frame_to_events(&frame, &trapezoid_without_reset(SkipOption::Bad), None);
    assert_eq!(events, vec![]);
}

#[test]
fn overflow_ends_where_the_reset_begins() {
    let mut w = vec![0i16; 40];
    w[12] = 8189;
    w[13] = 8189;
    // the fall behind sample 12 is a reset that begins there
    let frame: NumassFrame = vec![(1, w)];
    let events = frame_to_events(&frame, &trapezoid(20000, 3, SkipOption::Nothing), None);
    assert_eq!(
        events,
        vec![
            (96, FrameEvent::Overflow { channel: 1, size: 0 }),
            (96, FrameEvent::Reset { size: 110 }),
        ]
    );
}

#[test]
fn long_diff_measures_the_rise() {
    let mut w = vec![10i16; 12];
    w.extend(vec![50i16; 12]);
    let frame: NumassFrame = vec![(6, w)];
    let algorithm = Algorithm::LongDiff { reset_detection: no_reset() };
    let events = frame_to_events(&frame, &algorithm, None);
    // (50 - 10) / 4 = 10
    assert_eq!(
        events,
        vec![(0, FrameEvent::Event { channel: 6, amplitude: 10_000_000, size: 24 })]
    );
    // with a baseline of 10.916667 the waveform is expected to rise by 24
    let preprocess = preprocess_with_baseline([0, 0, 0, 0, 0, 0, 10_916_667]);
    let events = frame_to_events(&frame, &algorithm, Some(&preprocess));
    assert_eq!(
        events,
        vec![(0, FrameEvent::Event { channel: 6, amplitude: 4_000_000, size: 24 })]
    );
}

#[test]
fn long_diff_with_a_reset_gives_the_reset_only() {
    let algorithm = Algorithm::LongDiff { reset_detection: no_reset() };
    let events = frame_to_events(&reset_frame(), &algorithm, None);
    assert_eq!(events, vec![(400, FrameEvent::Reset { size: 110 })]);
    let short: NumassFrame = vec![(0, vec![1; 11])];
    assert_eq!(frame_to_events(&short, &algorithm, None), vec![]);
}

#[test]
fn events_of_a_frame_are_sorted_and_stand_on_samples() {
    let frame: NumassFrame = vec![(0, vec![0, 1, 9, 1]), (1, vec![9, 1, 0, 0]), (2, vec![0, 9, 0, 0])];
    let events = frame_to_events(&frame, &Algorithm::Max, None);
    let offsets: Vec<u16> = events.iter().map(|e| e.0).collect();
    assert_eq!(offsets, vec![0, 8, 16]);
    for e in &events {
        assert_eq!(e.0 % 8, 0);
        assert!((e.0 as usize) < 4 * 8);
    }
}

#[test]
fn sorting_keeps_the_order_of_equal_offsets() {
    let events: Vec<NumassEvent> = vec![
        (16, FrameEvent::Reset { size: 1 }),
        (8, FrameEvent::Frame { size: 2 }),
        (16, FrameEvent::Frame { size: 3 }),
        (8, FrameEvent::Reset { size: 4 }),
        (0, FrameEvent::Overflow { channel: 1, size: 5 }),
    ];
    assert_eq!(
        sort_events(&events),
        vec![
            (0, FrameEvent::Overflow { channel: 1, size: 5 }),
            (8, FrameEvent::Frame { size: 2 }),
            (8, FrameEvent::Reset { size: 4 }),
            (16, FrameEvent::Reset { size: 1 }),
            (16, FrameEvent::Frame { size: 3 }),
        ]
    );
}

#[test]
fn calibration_is_a_line_per_channel() {
    // 0.059379287 * 100 + 0.31509972 = 6.2530284
    assert_eq!(convert_to_kev(&100_000_000, 0, &Algorithm::Max), 6_253_028);
    // an identity row
    assert_eq!(convert_to_kev(&12_345_678, 0, &trapezoid(1, 1, SkipOption::Nothing)), 12_345_678);
    assert_eq!(
        convert_to_kev(&-5, 3, &Algorithm::LongDiff { reset_detection: no_reset() }),
        -5
    );
    // 0.12669839 * 60 + 0.6464157 = 8.2483191
    assert_eq!(convert_to_kev(&60_000_000, 1, &trapezoid(1, 1, SkipOption::Nothing)), 8_248_319);
    // 0.29424095 * 2 - 0.0075092316 = 0.5809726684
    assert_eq!(
        convert_to_kev(&2_000_000, 3, &Algorithm::Likhovid { left: 1, right: 1 }),
        580_972
    );
    // 0.272688 * (-1) - 0.000754553 = -0.273442553, rounded down
    assert_eq!(
        convert_to_kev(&-1_000_000, 3, &Algorithm::FirstPeak { threshold: 1, left: 1 }),
        -273_443
    );
    // a channel without a row keeps its amplitude
    assert_eq!(convert_to_kev(&77, 9, &Algorithm::Max), 77);
}

#[test]
fn defaults_and_validity() {
    let params = ProcessParams::default();
    assert!(params.convert_to_kev);
    assert_eq!(params.algorithm, Algorithm::default());
    assert_eq!(
        Algorithm::default(),
        Algorithm::Trapezoid {
            left: 6,
            center: 15,
            right: 6,
            treshold: 16,
            min_length: 10,
            skip: SkipOption::Nothing,
            reset_detection: HWResetParams { window: 10, treshold: 800, size: 110 },
        }
    );
    assert_eq!(Algorithm::likhovid_default(), Algorithm::Likhovid { left: 15, right: 36 });
    assert_eq!(Algorithm::firstpeak_default(), Algorithm::FirstPeak { threshold: 10, left: 8 });
    assert!(Algorithm::longdiff_default().is_valid());
    assert!(Algorithm::default().is_valid());
    let wide = Algorithm::LongDiff {
        reset_detection: HWResetParams { window: 10, treshold: 800, size: 57345 },
    };
    assert!(!wide.is_valid());
    assert!(frame_is_valid(&vec![(0, vec![0; 8191]), (6, vec![])]));
    assert!(!frame_is_valid(&vec![(0, vec![0; 8192])]));
    assert!(!frame_is_valid(&vec![(1, vec![]), (1, vec![])]));
    assert!(!frame_is_valid(&vec![(2, vec![]), (1, vec![])]));
}

#[test]
fn an_event_at_the_last_shaped_sample_stands_at_the_end_of_the_waveform() {
    let mut w = vec![0i16; 12];
    w[11] = 100;
    let algorithm = Algorithm::Trapezoid {
        left: 1,
        center: 0,
        right: 1,
        treshold: 20,
        min_length: 1,
        skip: SkipOption::Nothing,
        reset_detection: HWResetParams { window: 10, treshold: 800, size: 110 },
    };
    let frame: NumassFrame = vec![(0, w.clone())];
    let events = frame_to_events(&frame, &algorithm, None);
    // the shaped trace is the difference of neighbours; its last sample is the eleventh
    assert_eq!(
        events,
        vec![(96, FrameEvent::Event { channel: 0, amplitude: 50_000_000, size: 1 })]
    );
    // with events of two samples at least there is none
    let algorithm = Algorithm::Trapezoid {
        left: 1,
        center: 0,
        right: 1,
        treshold: 20,
        min_length: 2,
        skip: SkipOption::Nothing,
        reset_detection: HWResetParams { window: 10, treshold: 800, size: 110 },
    };
    assert_eq!(frame_to_events(&frame, &algorithm, None), vec![]);
}
