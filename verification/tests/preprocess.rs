use numass_processing::constants::baseline_2024_03;
use numass_processing::postprocess::{post_process, PostProcessParams};
use numass_processing::preprocess::{
    extract_waveforms, frame_to_waveform, point_to_amp_hist, waveforms_fast_copy, PointError,
    PointMeta, Preprocess,
};
use numass_processing::process::{extract_events, Algorithm, HWResetParams, ProcessParams, SkipOption};
use numass_processing::types::{
    Block, Channel, Frame, FrameEvent, NumassWaveformsFast, Point, ProcessedWaveform, RawWaveform,
};
use numass_processing::utils::correct_frame_time;

fn bytes(samples: &[i16]) -> Vec<u8> {
    samples.iter().flat_map(|s| s.to_le_bytes()).collect()
}

fn frame(time: u64, samples: &[i16]) -> Frame {
    Frame { time, data: bytes(samples) }
}

fn channel(id: u64, frames: Vec<Frame>) -> Channel {
    Channel { id, blocks: vec![Block { frames }] }
}

fn meta(seconds: u64, volts: i64) -> PointMeta {
    PointMeta {
        acquisition_time: seconds * 1_000_000_000,
        start_time: chrono::NaiveDateTime::default(),
        hv: volts * 1_000_000,
    }
}

fn trapezoid() -> Algorithm {
    Algorithm::Trapezoid {
        left: 4,
        center: 2,
        right: 4,
        treshold: 20,
        min_length: 3,
        skip: SkipOption::Nothing,
        reset_detection: HWResetParams { window: 10, treshold: 800, size: 110 },
    }
}

fn step() -> Vec<i16> {
    let mut w = vec![0i16; 10];
    w.extend(vec![100i16; 30]);
    w
}

#[test]
fn trigger_time_is_corrected() {
    assert_eq!(correct_frame_time(0), 0);
    assert_eq!(correct_frame_time(123_456), 123_456);
    assert_eq!(correct_frame_time(0xf000_0000_0000_0000), 0xf000_0000_0000_0000);
    assert_eq!(correct_frame_time(0xffff_fff9_03da_0000), 0);
    assert_eq!(correct_frame_time(0xffff_fff9_03da_0000 + 1_500_000_000), 1_500_000_000);
    assert_eq!(correct_frame_time(u64::MAX), u64::MAX - 0xffff_fff9_03da_0000);
    // between the mark and the fault the difference wraps
    assert_eq!(
        correct_frame_time(0xf000_0000_0000_0001),
        0xf000_0000_0000_0001u64.wrapping_sub(0xffff_fff9_03da_0000)
    );
}

#[test]
fn samples_are_decoded_low_byte_first() {
    let f = Frame { time: 0, data: vec![0x01, 0x00, 0xff, 0xff, 0x00, 0x80, 0xff, 0x7f, 0x34, 0x12] };
    assert_eq!(frame_to_waveform(&f), Ok(vec![1, -1, -32768, 32767, 0x1234]));
    assert_eq!(frame_to_waveform(&Frame { time: 0, data: vec![] }), Ok(vec![]));
    assert_eq!(
        frame_to_waveform(&Frame { time: 0, data: vec![1, 2, 3] }),
        Err(PointError::OddLength)
    );
}

#[test]
fn waveforms_are_ordered_by_time_and_channel() {
    let point = Point {
        channels: vec![
            channel(4, vec![frame(300, &[1, 2]), frame(100, &[3])]),
            channel(
                1,
                vec![
                    frame(100, &[4, 5, 6]),
                    frame(0xffff_fff9_03da_0000 + 200, &[7]),
                    frame(100, &[8]),
                ],
            ),
        ],
    };
    let waveforms = extract_waveforms(&point).unwrap();
    assert_eq!(
        waveforms,
        vec![
            (100, vec![(1, vec![8]), (4, vec![3])]),
            (200, vec![(1, vec![7])]),
            (300, vec![(4, vec![1, 2])]),
        ]
    );
    assert_eq!(extract_waveforms(&Point { channels: vec![] }), Ok(vec![]));
}

#[test]
fn faulty_frames_are_refused() {
    let odd = Point { channels: vec![channel(0, vec![Frame { time: 1, data: vec![1, 2, 3] }])] };
    assert_eq!(extract_waveforms(&odd), Err(PointError::OddLength));
    let far = Point { channels: vec![channel(7, vec![frame(1, &[1])])] };
    assert_eq!(extract_waveforms(&far), Err(PointError::ChannelOutOfRange));
    let long = Point { channels: vec![channel(6, vec![frame(1, &vec![0i16; 8192])])] };
    assert_eq!(extract_waveforms(&long), Err(PointError::FrameTooLong));
    let fits = Point { channels: vec![channel(6, vec![frame(1, &vec![0i16; 8191])])] };
    assert!(extract_waveforms(&fits).is_ok());
    // the first fault decides
    let both = Point {
        channels: vec![
            channel(0, vec![frame(1, &[1]), Frame { time: 2, data: vec![1] }]),
            channel(9, vec![frame(1, &[1])]),
        ],
    };
    assert_eq!(extract_waveforms(&both), Err(PointError::OddLength));
    // a channel without frames is no fault
    let empty = Point { channels: vec![Channel { id: 9, blocks: vec![] }] };
    assert_eq!(extract_waveforms(&empty), Ok(vec![]));
}

#[test]
fn preprocessing_needs_metadata_and_a_first_frame() {
    let point = Point { channels: vec![channel(0, vec![frame(1, &[1, 2, 3])])] };
    assert_eq!(
        Preprocess::from_point(None, &point, &Algorithm::Max).err(),
        Some(PointError::MissingMeta)
    );
    let empty = Point { channels: vec![] };
    assert_eq!(
        Preprocess::from_point(Some(meta(3, 14_000)), &empty, &Algorithm::Max).err(),
        Some(PointError::NoFrames)
    );
    assert_eq!(
        Preprocess::from_point(None, &empty, &Algorithm::Max).err(),
        Some(PointError::MissingMeta)
    );
    let hollow = Point {
        channels: vec![Channel { id: 0, blocks: vec![] }, channel(1, vec![frame(1, &[1])])],
    };
    assert_eq!(
        Preprocess::from_point(Some(meta(3, 14_000)), &hollow, &Algorithm::Max).err(),
        Some(PointError::NoFrames)
    );
    let odd = Point { channels: vec![channel(0, vec![Frame { time: 1, data: vec![1, 2, 3] }])] };
    assert_eq!(
        Preprocess::from_point(Some(meta(3, 14_000)), &odd, &Algorithm::Max).err(),
        Some(PointError::OddLength)
    );
    let p = Preprocess::from_point(Some(meta(3, 17_000)), &point, &Algorithm::Max).unwrap();
    assert_eq!(p.acquisition_time, 3_000_000_000);
    assert_eq!(p.hv, 17_000_000_000);
    assert_eq!(p.start_time, chrono::NaiveDateTime::default());
    assert_eq!(p.frame_len, 24);
    assert_eq!(p.baseline, None);
    assert!(p.bad_blocks.is_empty());
}

fn clustered_point() -> Point {
    // a trigger in every interval of ten milliseconds of the first second
    let frames: Vec<Frame> = (0..100u64).map(|i| frame(i * 10_000_000 + 5_000_000, &[0; 40])).collect();
    Point { channels: vec![channel(0, frames)] }
}

#[test]
fn bad_blocks_of_a_clustered_acquisition() {
    let p = Preprocess::from_point(Some(meta(3, 14_000)), &clustered_point(), &Algorithm::Max)
        .unwrap();
    assert_eq!(p.bad_blocks.iter().copied().collect::<Vec<usize>>(), vec![1, 2]);
    assert!(p.has_effective_time());
    assert_eq!(p.effective_time(), 1_000_000_000);
    assert_eq!(p.frame_len, 320);
    // above the threshold of the voltage nothing is looked for
    let p = Preprocess::from_point(Some(meta(3, 16_001)), &clustered_point(), &Algorithm::Max)
        .unwrap();
    assert!(p.bad_blocks.is_empty());
    assert_eq!(p.effective_time(), 3_000_000_000);
    // at the threshold it is
    let p = Preprocess::from_point(Some(meta(3, 16_000)), &clustered_point(), &Algorithm::Max)
        .unwrap();
    assert_eq!(p.bad_blocks.len(), 2);
}

#[test]
fn bad_blocks_are_cut_after_extraction() {
    let mut point = clustered_point();
    let mut late = vec![0i16; 40];
    late[20] = 50;
    point.channels.push(channel(1, vec![frame(1_500_000_000, &late), frame(5_000_000, &late)]));
    let params = ProcessParams { algorithm: Algorithm::Max, convert_to_kev: false };
    let (events, pre) = extract_events(Some(meta(3, 14_000)), point, &params).unwrap();
    assert_eq!(events.len(), 101);
    assert!(events.iter().any(|f| f.0 == 1_500_000_000));
    let (events, pre) = post_process((events, pre), &PostProcessParams::default());
    assert_eq!(pre.effective_time(), 1_000_000_000);
    assert_eq!(events.len(), 100);
    assert!(events.iter().all(|f| f.0 < 1_000_000_000));
}

#[test]
fn a_gap_at_the_begin_or_in_a_part_of_a_second() {
    // no trigger in the first interval: a trigger at time zero does not count
    let mut frames: Vec<Frame> =
        (1..100u64).map(|i| frame(i * 10_000_000 + 5, &[0; 4])).collect();
    frames.push(frame(0, &[0; 4]));
    let point = Point { channels: vec![channel(0, frames)] };
    let p = Preprocess::from_point(Some(meta(1, 14_000)), &point, &Algorithm::Max).unwrap();
    assert_eq!(p.bad_blocks.iter().copied().collect::<Vec<usize>>(), vec![0]);
    assert_eq!(p.effective_time(), 0);
    // an acquisition of a second and a half has two blocks with gaps
    let m = PointMeta {
        acquisition_time: 1_500_000_000,
        start_time: chrono::NaiveDateTime::default(),
        hv: 14_000_000_000,
    };
    let p = Preprocess::from_point(Some(m), &point, &Algorithm::Max).unwrap();
    assert_eq!(p.bad_blocks.iter().copied().collect::<Vec<usize>>(), vec![0, 1]);
    assert!(!p.has_effective_time());
}

#[test]
fn bad_blocks_of_an_acquisition_with_a_part_of_a_second() {
    // triggers all through the second second and the half of the third, none in the first
    let frames: Vec<Frame> =
        (100..250u64).map(|i| frame(i * 10_000_000 + 5, &[0; 4])).collect();
    let point = Point { channels: vec![channel(0, frames)] };
    let m = PointMeta {
        acquisition_time: 2_500_000_000,
        start_time: chrono::NaiveDateTime::default(),
        hv: 14_000_000_000,
    };
    let p = Preprocess::from_point(Some(m), &point, &Algorithm::Max).unwrap();
    assert_eq!(p.bad_blocks.iter().copied().collect::<Vec<usize>>(), vec![0]);
    assert!(p.bad_blocks.len() as u64 * 1_000_000_000 <= p.acquisition_time);
    assert_eq!(p.effective_time(), 1_500_000_000);
    // one trigger at 5 ms in a second and a half: both blocks are bad
    let point = Point { channels: vec![channel(0, vec![frame(5_000_000, &[0; 4])])] };
    let m = PointMeta {
        acquisition_time: 1_500_000_000,
        start_time: chrono::NaiveDateTime::default(),
        hv: 14_000_000_000,
    };
    let p = Preprocess::from_point(Some(m), &point, &Algorithm::Max).unwrap();
    assert_eq!(p.bad_blocks.iter().copied().collect::<Vec<usize>>(), vec![0, 1]);
    assert!((p.bad_blocks.len() as u64 - 1) * 1_000_000_000 < p.acquisition_time);
    assert!(p.bad_blocks.iter().all(|b| (*b as u64) * 1_000_000_000 < p.acquisition_time));
}

#[test]
fn baseline_is_the_fullest_bin_of_the_shaped_trace() {
    // a ramp of 3 per sample: every shaped sample is 18, in the bin from 18 to 18.5
    let ramp: Vec<i16> = (0..40).map(|i| 3 * i).collect();
    let point = Point {
        channels: vec![
            channel(2, vec![frame(10, &ramp), frame(20, &ramp)]),
            channel(5, vec![frame(10, &step())]),
        ],
    };
    let h = point_to_amp_hist(&point, &trapezoid()).unwrap();
    let channels: Vec<u8> = h.channels.iter().map(|c| c.0).collect();
    assert_eq!(channels, vec![2, 5]);
    assert_eq!(h.channels[0].1[46], 62);
    assert_eq!(h.channels[0].1.iter().sum::<u64>(), 62);
    // the step: 22 zeros in the bin from 0 to 0.5, three times 100, and twice 25, 50 and 75
    assert_eq!(h.channels[1].1[10], 22);
    assert_eq!(h.channels[1].1[210], 3);
    assert_eq!(h.channels[1].1[60], 2);
    let p = Preprocess::from_point(Some(meta(3, 17_000)), &point, &trapezoid()).unwrap();
    assert_eq!(p.baseline, Some([0, 0, 18_250_000, 0, 0, 250_000, 0]));
    assert_eq!(p.frame_len, 320);
}

#[test]
fn events_of_a_point() {
    let point = Point {
        channels: vec![
            channel(0, vec![frame(2000, &step()), frame(1000, &[0; 40])]),
            channel(1, vec![frame(0xffff_fff9_03da_0000 + 2000, &step())]),
        ],
    };
    let raw = ProcessParams { algorithm: trapezoid(), convert_to_kev: false };
    let (events, pre) = extract_events(Some(meta(3, 17_000)), point.clone(), &raw).unwrap();
    // the baseline of both channels is the centre of the bin from 0 to 0.5
    assert_eq!(pre.baseline, Some([250_000, 250_000, 0, 0, 0, 0, 0]));
    // the frame at 1000 holds nothing and is left out
    assert_eq!(
        events,
        vec![(
            2000,
            vec![
                (88, FrameEvent::Event { channel: 0, amplitude: 59_775_000, size: 9 }),
                (88, FrameEvent::Event { channel: 1, amplitude: 59_775_000, size: 9 }),
            ]
        )]
    );
    let kev = ProcessParams { algorithm: trapezoid(), convert_to_kev: true };
    let (events, _) = extract_events(Some(meta(3, 17_000)), point.clone(), &kev).unwrap();
    // channel 0 keeps its amplitude; channel 1: 0.12669839 * 59.775 + 0.6464157
    assert_eq!(
        events,
        vec![(
            2000,
            vec![
                (88, FrameEvent::Event { channel: 0, amplitude: 59_775_000, size: 9 }),
                (88, FrameEvent::Event { channel: 1, amplitude: 8_219_811, size: 9 }),
            ]
        )]
    );
    assert_eq!(extract_events(None, point, &kev).err(), Some(PointError::MissingMeta));
    let far = Point { channels: vec![channel(7, vec![frame(1, &[1])])] };
    let max = ProcessParams { algorithm: Algorithm::Max, convert_to_kev: true };
    assert_eq!(
        extract_events(Some(meta(3, 17_000)), far, &max).err(),
        Some(PointError::ChannelOutOfRange)
    );
}

#[test]
fn borrowed_waveforms_are_copied() {
    let a = [1i16, 2, 3];
    let b = [4i16];
    let fast: NumassWaveformsFast = vec![(10, vec![(0, &a[..]), (3, &b[..])]), (20, vec![])];
    assert_eq!(
        waveforms_fast_copy(fast),
        vec![(10, vec![(0, vec![1, 2, 3]), (3, vec![4])]), (20, vec![])]
    );
}

#[test]
fn raw_waveform_of_a_frame() {
    let f = Frame { time: 0, data: vec![0x01, 0x00, 0xfe, 0xff, 0x07] };
    assert_eq!(RawWaveform::from_frame(&f).0, vec![1, -2]);
}

#[test]
fn raw_samples_at_the_scale_of_shaped_ones() {
    let processed = ProcessedWaveform::from_raw(&RawWaveform(vec![1, -2, 32767]));
    assert_eq!(processed.0, vec![1_000_000, -2_000_000, 32_767_000_000]);
}

#[test]
fn preprocess_can_be_cloned() {
    let p = Preprocess::from_point(Some(meta(3, 14_000)), &clustered_point(), &trapezoid())
        .unwrap();
    let q = p.clone();
    assert_eq!(q.start_time, p.start_time);
    assert_eq!(q.bad_blocks, p.bad_blocks);
    assert_eq!(q.baseline, p.baseline);
}

#[test]
fn baselines_of_the_run_of_march() {
    let first: u64 = 1711317108386830736;
    let second: u64 = 1711360670893782872;
    let last: u64 = 1712623401464114520;
    // before the first measurement and behind the last
    assert_eq!(baseline_2024_03(0, 1), 30_250_000);
    assert_eq!(baseline_2024_03(first - 1, 6), 25_750_000);
    assert_eq!(baseline_2024_03(last + 1, 1), 15_750_000);
    assert_eq!(baseline_2024_03(u64::MAX, 5), 15_250_000);
    // channels that were not measured
    for time in [0, first, first + 1000, last + 1] {
        assert_eq!(baseline_2024_03(time, 0), 0);
        assert_eq!(baseline_2024_03(time, 3), 0);
        assert_eq!(baseline_2024_03(time, 7), 0);
    }
    // at a measurement and half way to the next
    assert_eq!(baseline_2024_03(first, 1), 30_250_000);
    assert_eq!(baseline_2024_03(first + (second - first) / 2, 1), 28_750_000);
    assert_eq!(baseline_2024_03(second, 1), 27_250_000);
    assert_eq!(baseline_2024_03(second, 2), 25_250_000);
    // rounded down
    assert_eq!(baseline_2024_03(1711566484845656048 + 12345678901, 1), 23_249_386);
    assert_eq!(baseline_2024_03(1711586624318707280 + 1000, 1), 22_249_999);
    // two measurements were taken at the same time
    assert_eq!(baseline_2024_03(1711827604635200456, 1), 20_750_000);
    // the last measurement itself lies on the line through the first two
    assert_eq!(baseline_2024_03(last, 1), -59_709_911);
}
