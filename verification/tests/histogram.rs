use numass_processing::histogram::{HistogramParams, PointHistogram};
use numass_processing::types::{FrameEvent, NumassEvents};
use numass_processing::utils::events_to_histogram;

fn counts(h: &PointHistogram, channel: u8) -> Option<Vec<u64>> {
    h.channels.iter().find(|c| c.0 == channel).map(|c| c.1.clone())
}

#[test]
fn bins_and_centres() {
    let h = PointHistogram::new(0..40_000_000, 400);
    assert_eq!(h.bins, 400);
    assert_eq!(h.step, 100_000);
    assert_eq!(h.x.len(), 400);
    assert_eq!(h.x[0], 50_000);
    assert_eq!(h.x[1], 150_000);
    assert_eq!(h.x[399], 39_950_000);
    assert!(h.channels.is_empty());
    let h = PointHistogram::new_step(-5_000_000..120_000_000, 500_000);
    assert_eq!(h.bins, 250);
    assert_eq!(h.x[0], -4_750_000);
    assert_eq!(h.x[249], 119_750_000);
    // a width that is no whole number of millionths: centres are rounded down
    let h = PointHistogram::new(0..10, 3);
    assert_eq!(h.x, vec![1, 5, 8]);
    assert_eq!(h.step, 3);
    // the bins of a step that does not fit end before the range
    let h = PointHistogram::new_step(0..1_050_000, 500_000);
    assert_eq!(h.bins, 2);
    assert_eq!(PointHistogram::new_step(0..10, 0).bins, 0);
    assert_eq!(PointHistogram::new_step(0..10, -1).bins, 0);
    assert_eq!(PointHistogram::new(0..10, 0).x, Vec::<i64>::new());
    let h = PointHistogram::from_params(HistogramParams { range: 5..25, bins: 2 });
    assert_eq!(h.x, vec![10, 20]);
}

#[test]
fn add_counts_inside_the_range_only() {
    let mut h = PointHistogram::new(0..100, 10);
    h.add(3, 0);
    h.add(3, 100);
    h.add(3, -1);
    h.add(3, 101);
    assert_eq!(counts(&h, 3), None);
    h.add(3, 1);
    h.add(3, 9);
    h.add(3, 10);
    h.add(3, 99);
    assert_eq!(counts(&h, 3), Some(vec![2, 1, 0, 0, 0, 0, 0, 0, 0, 1]));
    h.add(1, 55);
    assert_eq!(counts(&h, 1), Some(vec![0, 0, 0, 0, 0, 1, 0, 0, 0, 0]));
    let channels: Vec<u8> = h.channels.iter().map(|c| c.0).collect();
    assert_eq!(channels, vec![1, 3]);
}

#[test]
fn add_and_add_batch_differ_at_the_left_edge_only() {
    for x in [-5i64, 1, 7, 10, 50, 99, 100, 250] {
        let mut one = PointHistogram::new(0..100, 10);
        let mut batch = PointHistogram::new(0..100, 10);
        one.add(2, x);
        batch.add_batch(2, vec![x]);
        let zeros = Some(vec![0u64; 10]);
        assert_eq!(counts(&one, 2).or(zeros.clone()), counts(&batch, 2));
    }
    let mut one = PointHistogram::new(0..100, 10);
    let mut batch = PointHistogram::new(0..100, 10);
    one.add(2, 0);
    batch.add_batch(2, vec![0]);
    assert_eq!(counts(&one, 2), None);
    assert_eq!(counts(&batch, 2), Some(vec![1, 0, 0, 0, 0, 0, 0, 0, 0, 0]));
}

#[test]
fn add_batch_makes_an_entry_and_counts_every_value() {
    let mut h = PointHistogram::new_step(-5_000_000..120_000_000, 500_000);
    h.add_batch(4, vec![]);
    assert_eq!(counts(&h, 4), Some(vec![0; 250]));
    h.add_batch(4, vec![-5_000_000, -4_500_001, -4_500_000, 119_999_999, 120_000_000, 0, 0]);
    let c = counts(&h, 4).unwrap();
    assert_eq!(c[0], 2);
    assert_eq!(c[1], 1);
    assert_eq!(c[10], 2);
    assert_eq!(c[249], 1);
    assert_eq!(c.iter().sum::<u64>(), 6);
}

#[test]
fn values_behind_the_last_bin_are_dropped() {
    let mut h = PointHistogram::new_step(0..1_050_000, 500_000);
    h.add(0, 1_020_000);
    assert_eq!(counts(&h, 0), None);
    h.add_batch(0, vec![1_020_000, 999_999]);
    assert_eq!(counts(&h, 0), Some(vec![0, 1]));
}

#[test]
fn a_full_count_stays() {
    let mut h = PointHistogram::new(0..100, 2);
    h.add(0, 10);
    h.channels[0].1[0] = u64::MAX;
    h.add(0, 10);
    h.add_batch(0, vec![10, 60]);
    assert_eq!(counts(&h, 0), Some(vec![u64::MAX, 1]));
    assert_eq!(h.merge_channels(), vec![u64::MAX, 1]);
    h.add(1, 20);
    assert_eq!(h.merge_channels(), vec![u64::MAX, 1]);
}

#[test]
fn events_in_a_window() {
    let mut h = PointHistogram::new(0..100, 10);
    h.add_batch(0, vec![5, 15, 15, 95]);
    h.add_batch(6, vec![25, 35]);
    // centres are 5, 15, ..., 95
    assert_eq!(h.events(None), vec![(0, 4), (6, 2)]);
    assert_eq!(h.events_all(None), 6);
    assert_eq!(h.events(Some(5..25)), vec![(0, 2), (6, 0)]);
    assert_eq!(h.events(Some(4..26)), vec![(0, 3), (6, 1)]);
    assert_eq!(h.events_all(Some(4..26)), 4);
    assert_eq!(h.events(Some(30..20)), vec![(0, 0), (6, 0)]);
    assert_eq!(PointHistogram::new(0..100, 10).events(None), vec![]);
    assert_eq!(PointHistogram::new(0..100, 10).events_all(None), 0);
}

#[test]
fn channels_are_merged_bin_by_bin() {
    let mut h = PointHistogram::new(0..30, 3);
    assert_eq!(h.merge_channels(), vec![0, 0, 0]);
    h.add_batch(0, vec![5, 15, 15]);
    h.add_batch(6, vec![15, 25]);
    h.add_batch(2, vec![]);
    assert_eq!(h.merge_channels(), vec![1, 3, 1]);
}

#[test]
fn table_in_text() {
    let mut h = PointHistogram::new(-1_000_000..2_000_000, 3);
    h.add_batch(0, vec![-500_000, 1_500_000, 1_600_000]);
    h.add_batch(6, vec![0]);
    assert_eq!(
        h.to_csv(','),
        "bin,ch 1,ch 7\n-0.5000,1,0\n0.5000,0,1\n1.5000,2,0\n"
    );
    let h = PointHistogram::new(0..30, 2);
    assert_eq!(h.to_csv('\t'), "bin\n0.0000\n0.0000\n");
    let mut h = PointHistogram::new(0..123_456_789, 1);
    h.add(254, 5);
    h.channels[0].1[0] = 1234567890123;
    assert_eq!(h.to_csv(';'), "bin;ch 255\n61.7284;1234567890123\n");
    // halves are rounded away from zero, and a value that is written as zero has no sign
    let h = PointHistogram::new(-150..50, 2);
    assert_eq!(h.x, vec![-100, 0]);
    assert_eq!(h.to_csv(','), "bin\n-0.0001\n0.0000\n");
    let h = PointHistogram::new(-98..2, 1);
    assert_eq!(h.x, vec![-48]);
    assert_eq!(h.to_csv(','), "bin\n0.0000\n");
    let h = PointHistogram::new(-100..0, 1);
    assert_eq!(h.x, vec![-50]);
    assert_eq!(h.to_csv(','), "bin\n-0.0001\n");
}

#[test]
fn table_of_one_channel() {
    let mut h = PointHistogram::new(0..2_000_000, 2);
    h.add(0, 500_000);
    assert_eq!(h.to_csv(','), "bin,ch 1\n0.5000,1\n1.5000,0\n");
}

#[test]
fn spectrum_of_events() {
    let events: NumassEvents = vec![
        (
            10,
            vec![
                (0, FrameEvent::Event { channel: 0, amplitude: 1_500_000, size: 1 }),
                (8, FrameEvent::Overflow { channel: 0, size: 4 }),
                (16, FrameEvent::Event { channel: 2, amplitude: 39_999_999, size: 1 }),
                (24, FrameEvent::Reset { size: 110 }),
            ],
        ),
        (
            20,
            vec![
                (0, FrameEvent::Event { channel: 0, amplitude: 1_599_999, size: 1 }),
                (8, FrameEvent::Event { channel: 0, amplitude: 40_000_000, size: 1 }),
                (16, FrameEvent::Event { channel: 1, amplitude: 0, size: 1 }),
                (24, FrameEvent::Frame { size: 1 }),
            ],
        ),
    ];
    let h = events_to_histogram(events, HistogramParams { range: 0..40_000_000, bins: 400 });
    let channels: Vec<u8> = h.channels.iter().map(|c| c.0).collect();
    assert_eq!(channels, vec![0, 2]);
    let first = counts(&h, 0).unwrap();
    assert_eq!(first[15], 2);
    assert_eq!(first.iter().sum::<u64>(), 2);
    let third = counts(&h, 2).unwrap();
    assert_eq!(third[399], 1);
    assert_eq!(h.events_all(None), 3);
}
