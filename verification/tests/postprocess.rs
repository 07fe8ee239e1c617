use numass_processing::postprocess::{
    cut_bad_frames, is_neighbour, post_process, post_process_frame, times_are_ascending,
    ChannelIgnore, PostProcessParams,
};
use numass_processing::preprocess::Preprocess;
use numass_processing::types::{FrameEvent, NumassEvent, NumassEvents};
use std::collections::BTreeSet;

fn event(offset: u16, channel: u8, amplitude: i64) -> NumassEvent {
    (offset, FrameEvent::Event { channel, amplitude, size: 3 })
}

fn preprocess(bad_blocks: &[usize], frame_len: u64) -> Preprocess {
    Preprocess {
        baseline: None,
        hv: 14_000_000_000,
        start_time: chrono::NaiveDateTime::default(),
        acquisition_time: 3_000_000_000,
        frame_len,
        bad_blocks: bad_blocks.iter().copied().collect::<BTreeSet<usize>>(),
    }
}

fn total(events: &[NumassEvent]) -> i64 {
    events
        .iter()
        .map(|e| match e.1 {
            FrameEvent::Event { amplitude, .. } => amplitude,
            _ => 0,
        })
        .sum()
}

#[test]
fn neighbour_merge_of_three_events() {
    let events = vec![event(8, 1, 3_000_000), event(16, 5, 2_000_000), event(24, 3, 5_000_000)];
    let params = PostProcessParams::default();
    assert!(params.merge_close_events && !params.ignore_borders);
    let merged = post_process_frame(events, &params);
    assert_eq!(merged, vec![event(8, 1, 10_000_000)]);
}

#[test]
fn neighbours_are_the_central_pixel_the_same_pixel_and_the_borders() {
    for c in 0..=7u8 {
        assert!(is_neighbour(c, c));
        assert!(is_neighbour(c, 5));
        assert!(is_neighbour(5, c));
    }
    let borders = [(1u8, 3u8), (1, 4), (1, 7), (2, 3), (2, 5), (2, 7), (3, 4), (4, 5)];
    for a in 0..=8u8 {
        for b in 0..=8u8 {
            let listed = borders.contains(&(a.min(b), a.max(b)));
            assert_eq!(is_neighbour(a, b), a == b || a == 5 || b == 5 || listed);
            assert_eq!(is_neighbour(a, b), is_neighbour(b, a));
        }
    }
    assert!(!is_neighbour(0, 1));
    assert!(!is_neighbour(1, 2));
    assert!(is_neighbour(3, 1));
}

#[test]
fn events_that_are_no_neighbours_stay() {
    let events = vec![event(8, 1, 3), event(16, 2, 4), event(24, 6, 5), event(32, 3, 6)];
    let merged = post_process_frame(events, &PostProcessParams::default());
    // 1 takes 3; 2 and 6 are neighbours of neither
    assert_eq!(merged, vec![event(8, 1, 9), event(16, 2, 4), event(24, 6, 5)]);
    assert_eq!(total(&merged), 18);
}

#[test]
fn borders_can_be_ignored() {
    let events = vec![event(8, 1, 3), event(16, 2, 4), event(24, 6, 5)];
    let params = PostProcessParams { ignore_borders: true, ..PostProcessParams::default() };
    assert_eq!(post_process_frame(events, &params), vec![event(8, 1, 12)]);
}

#[test]
fn other_records_pass_through_merging() {
    let events = vec![
        (0, FrameEvent::Overflow { channel: 1, size: 4 }),
        event(8, 1, 3),
        (16, FrameEvent::Reset { size: 110 }),
        event(24, 1, 4),
        (32, FrameEvent::Frame { size: 1 }),
    ];
    let merged = post_process_frame(events, &PostProcessParams::default());
    assert_eq!(
        merged,
        vec![
            (0, FrameEvent::Overflow { channel: 1, size: 4 }),
            event(8, 1, 7),
            (16, FrameEvent::Reset { size: 110 }),
            (32, FrameEvent::Frame { size: 1 }),
        ]
    );
}

#[test]
fn without_merging_a_frame_stays_as_it_is() {
    let events = vec![event(8, 1, 3), event(16, 5, 2)];
    let params = PostProcessParams {
        merge_close_events: false,
        merge_splits_first: true,
        ..PostProcessParams::default()
    };
    assert_eq!(post_process_frame(events.clone(), &params), events);
}

#[test]
fn merging_is_idempotent_and_conserves_amplitude() {
    let events = vec![
        event(0, 0, 11),
        event(8, 2, -7),
        event(16, 4, 5),
        event(24, 6, 3),
        event(32, 1, 2),
        event(40, 3, 1),
        event(48, 0, 9),
    ];
    for ignore_borders in [false, true] {
        let params = PostProcessParams { ignore_borders, ..PostProcessParams::default() };
        let once = post_process_frame(events.clone(), &params);
        let twice = post_process_frame(once.clone(), &params);
        assert_eq!(once, twice);
        assert_eq!(total(&once), total(&events));
    }
}

#[test]
fn merged_amplitudes_stop_at_the_end_of_the_range() {
    let events = vec![event(0, 1, i64::MAX), event(8, 1, i64::MAX), event(16, 1, -5)];
    let merged = post_process_frame(events, &PostProcessParams::default());
    assert_eq!(merged, vec![event(0, 1, i64::MAX)]);
}

#[test]
fn central_pixel_collects_what_is_near() {
    let events = vec![
        event(0, 1, 1),
        event(104, 2, 2),
        event(200, 5, 10),
        event(296, 3, 4),
        event(400, 4, 8),
    ];
    let params = PostProcessParams { merge_splits_first: true, ..PostProcessParams::default() };
    let merged = post_process_frame(events, &params);
    // the central event at 200 takes the events at 104 and 296; the first and the last
    // are 200 away and stay, with their size set to zero; then 1 takes the central event
    assert_eq!(
        merged,
        vec![
            (0, FrameEvent::Event { channel: 1, amplitude: 25, size: 0 }),
        ]
    );
}

#[test]
fn central_pixel_sets_sizes_to_zero() {
    let events = vec![event(0, 0, 1), event(400, 1, 2), (800, FrameEvent::Reset { size: 7 })];
    let params = PostProcessParams {
        merge_splits_first: true,
        merge_close_events: true,
        ..PostProcessParams::default()
    };
    let merged = post_process_frame(events, &params);
    assert_eq!(
        merged,
        vec![
            (0, FrameEvent::Event { channel: 0, amplitude: 1, size: 0 }),
            (400, FrameEvent::Event { channel: 1, amplitude: 2, size: 0 }),
            (800, FrameEvent::Reset { size: 7 }),
        ]
    );
}

#[test]
fn an_event_between_two_central_events_is_taken_twice() {
    let events = vec![event(0, 5, 100), event(152, 0, 1), event(304, 5, 1000)];
    let params = PostProcessParams { merge_splits_first: true, ..PostProcessParams::default() };
    let merged = post_process_frame(events, &params);
    assert_eq!(
        merged,
        vec![(0, FrameEvent::Event { channel: 5, amplitude: 1102, size: 0 })]
    );
}

fn three_frames() -> NumassEvents {
    vec![
        (500_000_000, vec![event(8, 1, 3)]),
        (1_500_000_000, vec![event(16, 2, 4)]),
        (2_999_999_999, vec![event(24, 6, 5)]),
    ]
}

#[test]
fn bad_block_cut_drops_the_frames_of_bad_blocks() {
    let pre = preprocess(&[1, 2], 320);
    let params = PostProcessParams::default();
    assert!(params.cut_bad_blocks);
    let (events, after) = post_process((three_frames(), pre.clone()), &params);
    assert_eq!(events, vec![(500_000_000, vec![event(8, 1, 3)])]);
    assert_eq!(after.bad_blocks, pre.bad_blocks);
    assert_eq!(after.effective_time(), 1_000_000_000);
    let pre = preprocess(&[1], 320);
    let (events, _) = post_process((three_frames(), pre), &params);
    assert_eq!(
        events,
        vec![(500_000_000, vec![event(8, 1, 3)]), (2_999_999_999, vec![event(24, 6, 5)])]
    );
    let pre = preprocess(&[0], 320);
    assert_eq!(cut_bad_frames(three_frames(), &pre).len(), 2);
    let pre = preprocess(&[], 320);
    assert_eq!(cut_bad_frames(three_frames(), &pre), three_frames());
}

#[test]
fn bad_blocks_are_kept_without_the_cut() {
    let pre = preprocess(&[1, 2], 320);
    let params = PostProcessParams { cut_bad_blocks: false, ..PostProcessParams::default() };
    let (events, _) = post_process((three_frames(), pre), &params);
    assert_eq!(events, three_frames());
}

#[test]
fn without_merging_bad_blocks_are_not_cut() {
    let pre = preprocess(&[1, 2], 320);
    let params = PostProcessParams { merge_close_events: false, ..PostProcessParams::default() };
    let (events, _) = post_process((three_frames(), pre), &params);
    assert_eq!(events, three_frames());
}

#[test]
fn masked_channels_lose_their_events_only() {
    let frames: NumassEvents = vec![(
        10,
        vec![
            event(8, 0, 3),
            (16, FrameEvent::Overflow { channel: 0, size: 4 }),
            event(24, 2, 4),
            (32, FrameEvent::Reset { size: 5 }),
        ],
    )];
    let mask = ChannelIgnore { ch1: true, ..ChannelIgnore::default() };
    for merge_close_events in [false, true] {
        let params = PostProcessParams {
            merge_close_events,
            ignore_channels: mask,
            ..PostProcessParams::default()
        };
        let (events, _) = post_process((frames.clone(), preprocess(&[], 320)), &params);
        assert_eq!(
            events,
            vec![(
                10,
                vec![
                    (16, FrameEvent::Overflow { channel: 0, size: 4 }),
                    event(24, 2, 4),
                    (32, FrameEvent::Reset { size: 5 }),
                ]
            )]
        );
    }
}

#[test]
fn masking_comes_after_merging() {
    // the event of channel 3 is taken up by channel 1 before channel 1 is dropped
    let frames: NumassEvents = vec![(10, vec![event(8, 1, 3), event(24, 3, 4)])];
    let mask = ChannelIgnore { ch2: true, ..ChannelIgnore::default() };
    let params = PostProcessParams { ignore_channels: mask, ..PostProcessParams::default() };
    let (events, _) = post_process((frames, preprocess(&[], 320)), &params);
    assert_eq!(events, vec![(10, vec![])]);
}

#[test]
fn channel_mask_and_array() {
    let mask = ChannelIgnore::from_array([true, false, false, true, false, false, true]);
    assert!(mask.ch1 && mask.ch4 && mask.ch7);
    assert!(!mask.ch2 && !mask.ch3 && !mask.ch5 && !mask.ch6);
    assert_eq!(mask.to_array(), [true, false, false, true, false, false, true]);
    assert!(mask.is_masked(0) && mask.is_masked(3) && mask.is_masked(6));
    assert!(!mask.is_masked(1) && !mask.is_masked(7) && !mask.is_masked(255));
    assert_eq!(ChannelIgnore::default().to_array(), [false; 7]);
}

#[test]
fn close_frames_are_joined() {
    let frames: NumassEvents = vec![
        (1000, vec![event(8, 1, 3)]),
        (1400, vec![event(16, 2, 4)]),
        (1900, vec![event(0, 6, 5)]),
        (10_000, vec![event(24, 0, 6)]),
    ];
    let params = PostProcessParams {
        merge_frames: Some(600),
        merge_close_events: false,
        ..PostProcessParams::default()
    };
    let (events, _) = post_process((frames.clone(), preprocess(&[], 320)), &params);
    // 1900 is joined to 1400 with a shift of 500 - 320, and both to 1000 with 400 - 320
    assert_eq!(
        events,
        vec![
            (1000, vec![event(8, 1, 3), event(96, 2, 4), event(260, 6, 5)]),
            (10_000, vec![event(24, 0, 6)]),
        ]
    );
    // a second time nothing is left to join
    let (again, _) = post_process((events.clone(), preprocess(&[], 320)), &params);
    assert_eq!(again, events);
    let params = PostProcessParams { merge_frames: Some(400), ..params };
    let (events, _) = post_process((frames.clone(), preprocess(&[], 320)), &params);
    assert_eq!(events, frames);
    let params = PostProcessParams { merge_frames: Some(401), ..params };
    let (events, _) = post_process((frames, preprocess(&[], 320)), &params);
    assert_eq!(events.len(), 3);
    assert_eq!(events[0], (1000, vec![event(8, 1, 3), event(96, 2, 4)]));
}

#[test]
fn joined_offsets_wrap_in_sixteen_bits() {
    let frames: NumassEvents = vec![(1000, vec![]), (1100, vec![event(8, 1, 3), event(65528, 2, 4)])];
    let params = PostProcessParams {
        merge_frames: Some(200),
        merge_close_events: false,
        ..PostProcessParams::default()
    };
    // the shift is 100 - 320 = -220
    let (events, _) = post_process((frames, preprocess(&[], 320)), &params);
    assert_eq!(events, vec![(1000, vec![event(65324, 1, 3), event(65308, 2, 4)])]);
}

#[test]
fn postprocessing_twice_changes_nothing() {
    let frames: NumassEvents = vec![
        (500_000_000, vec![event(8, 1, 3), event(16, 3, 4), event(24, 0, 5), event(32, 6, 1)]),
        (500_000_400, vec![event(0, 4, 2), event(8, 1, 3)]),
        (1_500_000_000, vec![event(16, 2, 4)]),
        (2_000_000_000, vec![event(24, 6, 5), event(32, 2, 7)]),
    ];
    let mask = ChannelIgnore { ch7: true, ..ChannelIgnore::default() };
    for merge_frames in [None, Some(500u16)] {
        for cut_bad_blocks in [false, true] {
            for merge_close_events in [false, true] {
                for merge_splits_first in [false, true] {
                    let params = PostProcessParams {
                        cut_bad_blocks,
                        merge_frames,
                        merge_splits_first,
                        merge_close_events,
                        ignore_borders: false,
                        ignore_channels: mask,
                    };
                    let once = post_process((frames.clone(), preprocess(&[1], 320)), &params);
                    assert!(times_are_ascending(&once.0));
                    let twice = post_process((once.0.clone(), once.1.clone()), &params);
                    assert_eq!(once.0, twice.0);
                }
            }
        }
    }
}

#[test]
fn collecting_twice_changes_nothing() {
    let events = vec![
        event(0, 5, 100),
        event(152, 0, 1),
        event(304, 5, 1000),
        (400, FrameEvent::Reset { size: 3 }),
        event(800, 2, 7),
        event(808, 6, 9),
    ];
    let params = PostProcessParams { merge_splits_first: true, ..PostProcessParams::default() };
    let once = post_process_frame(events, &params);
    assert_eq!(post_process_frame(once.clone(), &params), once);
}

#[test]
fn amplitude_of_a_point_is_conserved() {
    let frames: NumassEvents = vec![
        (1000, vec![event(8, 1, 3), event(16, 3, -4)]),
        (1400, vec![event(16, 2, 4), event(24, 5, 6)]),
        (9000, vec![event(0, 6, 5)]),
    ];
    let before: i64 = frames.iter().map(|f| total(&f.1)).sum();
    for merge_frames in [None, Some(500u16)] {
        for merge_close_events in [false, true] {
            let params = PostProcessParams {
                cut_bad_blocks: false,
                merge_frames,
                merge_splits_first: false,
                merge_close_events,
                ignore_borders: false,
                ignore_channels: ChannelIgnore::default(),
            };
            let (events, _) = post_process((frames.clone(), preprocess(&[0], 320)), &params);
            let after: i64 = events.iter().map(|f| total(&f.1)).sum();
            assert_eq!(after, before);
        }
    }
}

#[test]
fn collection_conserves_amplitude_where_events_are_taken_once() {
    // one central event with events around it, and a second one far from all of them
    let events = vec![
        event(0, 1, 7),
        event(104, 2, -2),
        event(200, 5, 10),
        event(296, 3, 4),
        (300, FrameEvent::Reset { size: 1 }),
        event(1000, 5, 100),
        event(1104, 0, 1),
    ];
    let params = PostProcessParams { merge_splits_first: true, ..PostProcessParams::default() };
    let merged = post_process_frame(events.clone(), &params);
    assert_eq!(total(&merged), total(&events));
    assert_eq!(total(&merged), 120);
    // two central events near each other take each other up once
    let events = vec![event(0, 5, 100), event(104, 5, 1000), event(400, 1, 1)];
    let merged = post_process_frame(events.clone(), &params);
    assert_eq!(total(&merged), 1101);
}

#[test]
fn ascending_times_are_told() {
    assert!(times_are_ascending(&vec![]));
    assert!(times_are_ascending(&three_frames()));
    assert!(!times_are_ascending(&vec![(5, vec![]), (5, vec![])]));
    assert!(!times_are_ascending(&vec![(5, vec![]), (7, vec![]), (6, vec![])]));
}

#[test]
fn default_parameters() {
    let params = PostProcessParams::default();
    assert!(params.cut_bad_blocks);
    assert_eq!(params.merge_frames, None);
    assert!(!params.merge_splits_first);
    assert!(params.merge_close_events);
    assert!(!params.ignore_borders);
    assert_eq!(params.ignore_channels, ChannelIgnore::default());
}

#[test]
fn channel_mask_from_and_into_an_array() {
    let flags = [false, true, false, false, true, false, false];
    let mask = ChannelIgnore::from(flags);
    assert!(mask.ch2 && mask.ch5 && !mask.ch1 && !mask.ch7);
    let back: [bool; 7] = mask.into();
    assert_eq!(back, flags);
}
