use numass_processing::postprocess::{is_neighbour, post_process_frame, PostProcessParams};
use numass_processing::preprocess::emulate_fir;
use numass_processing::process::{frame_to_events, Algorithm, HWResetParams, SkipOption};
use numass_processing::types::{FrameEvent, NumassEvent, NumassFrame};

/// A small generator of numbers that gives the same numbers every time.
struct Numbers(u64);

impl Numbers {
    fn next(&mut self) -> u64 {
        self.0 = self.0.wrapping_mul(6364136223846793005).wrapping_add(1442695040888963407);
        self.0 >> 33
    }

    fn below(&mut self, n: u64) -> u64 {
        self.next() % n
    }
}

fn amplitude(e: &NumassEvent) -> Option<i64> {
    match e.1 {
        FrameEvent::Event { amplitude, .. } => Some(amplitude),
        _ => None,
    }
}

/// Merging of neighbours as it is done in place: every later event that the
/// event at hand absorbs is looked for from the back and removed.
fn merge_in_place(mut events: Vec<NumassEvent>, ignore_borders: bool) -> Vec<NumassEvent> {
    let mut idx = 0;
    while idx < events.len() {
        if let (offset, FrameEvent::Event { channel, amplitude, size }) = events[idx] {
            let mut amplitude = amplitude as i128;
            let mut next = events.len() - 1;
            while next > idx {
                if let (_, FrameEvent::Event { channel: other, amplitude: part, .. }) = events[next]
                {
                    if ignore_borders || is_neighbour(channel, other) {
                        amplitude += part as i128;
                        events.remove(next);
                    }
                }
                next -= 1;
            }
            events[idx] =
                (offset, FrameEvent::Event { channel, amplitude: amplitude as i64, size });
        }
        idx += 1;
    }
    events
}

/// The collection by the central pixel as it is done with a list of marks.
fn collect_in_place(mut events: Vec<NumassEvent>) -> Vec<NumassEvent> {
    let mut marked = vec![false; events.len()];
    let mut idx = 0;
    while idx < events.len() {
        if marked[idx] {
            idx += 1;
            continue;
        }
        if let (offset, FrameEvent::Event { channel, amplitude, .. }) = events[idx] {
            let mut amplitude = amplitude as i128;
            if channel == 5 {
                let mut past = idx as isize - 1;
                while past >= 0 && events[past as usize].0.abs_diff(offset) < 200 {
                    if let Some(part) = amplitude_of(&events[past as usize]) {
                        amplitude += part as i128;
                        marked[past as usize] = true;
                    }
                    past -= 1;
                }
                let mut next = idx + 1;
                while next < events.len() && events[next].0.abs_diff(offset) < 200 {
                    if let Some(part) = amplitude_of(&events[next]) {
                        amplitude += part as i128;
                        marked[next] = true;
                    }
                    next += 1;
                }
            }
            events[idx] =
                (offset, FrameEvent::Event { channel, amplitude: amplitude as i64, size: 0 });
        }
        idx += 1;
    }
    events.into_iter().zip(marked).filter(|(_, m)| !m).map(|(e, _)| e).collect()
}

fn amplitude_of(e: &NumassEvent) -> Option<i64> {
    amplitude(e)
}

fn some_events(numbers: &mut Numbers) -> Vec<NumassEvent> {
    let n = numbers.below(9) as usize;
    let mut offset = 0u16;
    let mut events = vec![];
    for _ in 0..n {
        offset += 8 * numbers.below(30) as u16;
        let channel = numbers.below(7) as u8;
        let size = numbers.below(20) as u16;
        let kind = numbers.below(10);
        let record = if kind == 0 {
            FrameEvent::Reset { size }
        } else if kind == 1 {
            FrameEvent::Overflow { channel, size }
        } else if kind == 2 {
            FrameEvent::Frame { size }
        } else {
            FrameEvent::Event { channel, amplitude: numbers.below(2000) as i64 - 500, size }
        };
        events.push((offset, record));
    }
    events
}

#[test]
fn merging_agrees_with_merging_in_place() {
    let mut numbers = Numbers(7);
    for round in 0..3000 {
        let events = some_events(&mut numbers);
        let ignore_borders = round % 5 == 0;
        let params = PostProcessParams { ignore_borders, ..PostProcessParams::default() };
        assert_eq!(
            post_process_frame(events.clone(), &params),
            merge_in_place(events.clone(), ignore_borders)
        );
        let params = PostProcessParams { merge_splits_first: true, ..params };
        let expected = merge_in_place(collect_in_place(events.clone()), ignore_borders);
        let found = post_process_frame(events, &params);
        assert_eq!(found, expected);
        assert_eq!(post_process_frame(found.clone(), &params), found);
    }
}

/// The trapezoid algorithm on one channel in floating point.
fn trapezoid_in_floats(
    channel: u8,
    w: &[i16],
    left: usize,
    center: usize,
    right: usize,
    threshold: i16,
    min_length: usize,
    baseline: f64,
    reset: Option<(usize, usize)>,
) -> Vec<(u16, u8, f64, u16)> {
    let offset = left + center + right;
    let mut events = vec![];
    if offset == 0 || w.len() < offset {
        return events;
    }
    let mean = |s: &[i16]| {
        if s.is_empty() {
            0.0
        } else {
            s.iter().map(|v| *v as f64).sum::<f64>() / s.len() as f64
        }
    };
    let shaped: Vec<f64> = (0..=w.len() - offset)
        .map(|i| mean(&w[i + left + center..i + offset]) - mean(&w[i..i + left]) - baseline)
        .collect();
    let threshold = threshold as f64;
    let mut i = 0;
    while i < shaped.len() {
        if let Some((start, end)) = reset {
            if i + offset == start && end > start {
                i = end - offset;
                continue;
            }
        }
        if (i == 0 || shaped[i - 1] < threshold) && shaped[i] >= threshold {
            let mut energy = 0.0;
            let mut event_end = i;
            while event_end < shaped.len() && shaped[event_end] >= threshold {
                energy += shaped[event_end];
                event_end += 1;
                if let Some((start, _)) = reset {
                    if event_end + offset == start {
                        break;
                    }
                }
            }
            if event_end - i >= min_length {
                events.push((
                    ((i + offset) * 8) as u16,
                    channel,
                    energy / offset as f64,
                    (event_end - i) as u16,
                ));
            }
            i = event_end;
            continue;
        }
        i += 1;
    }
    events
}

fn first_fall(w: &[i16], window: usize, threshold: i16) -> Option<usize> {
    (0..w.len().saturating_sub(window))
        .find(|i| w[*i] as i32 - w[*i + window] as i32 > threshold as i32)
}

fn some_waveform(numbers: &mut Numbers) -> Vec<i16> {
    let n = 20 + numbers.below(120) as usize;
    let mut w = vec![0i16; n];
    let mut level = numbers.below(40) as i16;
    for v in w.iter_mut() {
        let roll = numbers.below(40);
        if roll == 0 {
            level += 60 + numbers.below(200) as i16;
        } else if roll == 1 {
            level -= 900;
        } else if roll == 2 {
            level = numbers.below(40) as i16;
        }
        *v = level + numbers.below(9) as i16 - 4;
    }
    w
}

#[test]
fn trapezoid_agrees_with_the_algorithm_in_floats() {
    let mut numbers = Numbers(11);
    let mut with_events = 0;
    let mut with_resets = 0;
    for _ in 0..2000 {
        let channels = 1 + numbers.below(3) as usize;
        let mut frame: NumassFrame = vec![];
        for c in 0..channels {
            frame.push((2 * c as u8, some_waveform(&mut numbers)));
        }
        // arms of no, one, two or four samples: the means are whole numbers of millionths
        let left = [0usize, 1, 2, 4][numbers.below(4) as usize];
        let right = [0usize, 1, 2, 4][numbers.below(4) as usize];
        let center = 1 + numbers.below(3) as usize;
        let threshold = 10 + numbers.below(40) as i16;
        let min_length = 1 + numbers.below(4) as usize;
        let size = 5 + numbers.below(30) as usize;
        let algorithm = Algorithm::Trapezoid {
            left,
            center,
            right,
            treshold: threshold,
            min_length,
            skip: SkipOption::Nothing,
            reset_detection: HWResetParams { window: 3, treshold: 800, size },
        };
        let mut reset: Option<(usize, usize)> = None;
        for (_, w) in &frame {
            if let Some(i) = first_fall(w, 3, 800) {
                reset = Some(match reset {
                    None => (i, i + size),
                    Some((a, b)) => (a.min(i), b.max(i + size)),
                });
            }
        }
        let mut expected: Vec<(u16, u8, f64, u16)> = vec![];
        for (channel, w) in &frame {
            expected.extend(trapezoid_in_floats(
                *channel, w, left, center, right, threshold, min_length, 0.0, reset,
            ));
        }
        let found = frame_to_events(&frame, &algorithm, None);
        let resets: Vec<&NumassEvent> =
            found.iter().filter(|e| matches!(e.1, FrameEvent::Reset { .. })).collect();
        match reset {
            Some((start, end)) => {
                with_resets += 1;
                assert_eq!(resets.len(), 1);
                assert_eq!(
                    *resets[0],
                    ((start * 8) as u16, FrameEvent::Reset { size: (end - start) as u16 })
                );
            }
            None => assert!(resets.is_empty()),
        }
        let mut events: Vec<(u16, u8, i64, u16)> = found
            .iter()
            .filter_map(|e| match e.1 {
                FrameEvent::Event { channel, amplitude, size } => {
                    Some((e.0, channel, amplitude, size))
                }
                _ => None,
            })
            .collect();
        assert!(found.windows(2).all(|p| p[0].0 <= p[1].0));
        events.sort_by_key(|e| (e.1, e.0));
        expected.sort_by(|a, b| (a.1, a.0).cmp(&(b.1, b.0)));
        assert_eq!(events.len(), expected.len());
        for (e, x) in events.iter().zip(&expected) {
            assert_eq!((e.0, e.1, e.3), (x.0, x.1, x.3));
            assert!((e.2 as f64 / 1e6 - x.2).abs() < 2e-6);
        }
        if !events.is_empty() {
            with_events += 1;
        }
    }
    assert!(with_events > 500);
    assert!(with_resets > 200);
}

#[test]
fn shaper_agrees_with_the_means_in_floats() {
    let mut numbers = Numbers(13);
    for _ in 0..500 {
        let w = some_waveform(&mut numbers);
        let left = numbers.below(8) as usize;
        let right = numbers.below(8) as usize;
        let center = 1 + numbers.below(5) as usize;
        let shaped = emulate_fir(&w, right, center, left);
        let offset = left + center + right;
        assert_eq!(shaped.len(), w.len() - offset + 1);
        let mean = |s: &[i16]| {
            if s.is_empty() {
                0.0
            } else {
                s.iter().map(|v| *v as f64).sum::<f64>() / s.len() as f64
            }
        };
        for (i, v) in shaped.iter().enumerate() {
            let x = mean(&w[i + left + center..i + offset]) - mean(&w[i..i + left]);
            assert!((*v as f64 / 1e6 - x).abs() < 1.5e-6);
            assert!(*v as f64 / 1e6 <= x + 1e-9);
        }
    }
}
