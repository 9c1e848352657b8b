use taskman::chart::{SampleAge, age_of, sample_age, sample_at_time, time_span};
use taskman::performance::{HistoryPoint, timestamps, visible_slice};

fn pt(t_ms: u64) -> HistoryPoint {
    HistoryPoint { t_ms }
}

#[test]
fn sample_age_reports_distance_from_the_newest_sample() {
    let ts: Vec<u64> = (0..=12).map(|i| i * 5_000).collect();
    assert_eq!(sample_age(Some(&ts), 12), SampleAge::Now);
    assert_eq!(sample_age(Some(&ts), 10), SampleAge::Seconds(10));
    assert_eq!(sample_age(Some(&ts), 0), SampleAge::Minutes(1, 0));
    assert_eq!(sample_age(None, 0), SampleAge::Unknown);
    assert_eq!(sample_age(Some(&ts), 99), SampleAge::Unknown);
}

#[test]
fn ages_round_to_whole_seconds() {
    assert_eq!(age_of(499), SampleAge::Now);
    assert_eq!(age_of(500), SampleAge::Seconds(1));
    assert_eq!(age_of(1_499), SampleAge::Seconds(1));
    assert_eq!(age_of(59_499), SampleAge::Seconds(59));
    assert_eq!(age_of(59_500), SampleAge::Minutes(1, 0));
    assert_eq!(age_of(125_000), SampleAge::Minutes(2, 5));
}

#[test]
fn pointer_time_maps_to_the_last_earlier_sample() {
    let ts = vec![1_000u64, 1_250, 1_500, 1_750];
    assert_eq!(time_span(&ts), Some((1_000, 750)));
    assert_eq!(time_span(&[]), None);
    assert_eq!(time_span(&[5, 5]), Some((5, 1)));
    assert_eq!(sample_at_time(&ts, 1_300, 4), 1);
    assert_eq!(sample_at_time(&ts, 1_250, 4), 0);
    assert_eq!(sample_at_time(&ts, 0, 4), 0);
    assert_eq!(sample_at_time(&ts, 9_999, 2), 1, "never past the series");
}

#[test]
fn graph_window_is_time_based_at_high_normal_low_intervals() {
    let fast: Vec<HistoryPoint> = (0..=120).map(|i| pt(i * 500)).collect();
    assert_eq!(visible_slice(&fast, 60).len(), 121);
    let normal: Vec<HistoryPoint> = (0..=60).map(|i| pt(i * 1000)).collect();
    assert_eq!(visible_slice(&normal, 60).len(), 61);
    let slow: Vec<HistoryPoint> = (0..=15).map(|i| pt(i * 4000)).collect();
    let slice = visible_slice(&slow, 60);
    let span_ms = slice.last().unwrap().t_ms - slice.first().unwrap().t_ms;
    assert!((56_000..=60_000).contains(&span_ms), "span {span_ms}");
}

#[test]
fn graph_window_handles_irregular_timestamps() {
    let irr: Vec<HistoryPoint> = [0u64, 2000, 40_000, 41_000].iter().map(|t| pt(*t)).collect();
    assert_eq!(visible_slice(&irr, 60).len(), 4);
    assert_eq!(visible_slice(&irr, 10).len(), 2);
}

#[test]
fn graph_window_of_an_empty_history_is_empty() {
    assert!(visible_slice(&[], 60).is_empty());
    let pts = vec![pt(10), pt(20)];
    assert_eq!(timestamps(visible_slice(&pts, 0)), vec![20]);
    assert_eq!(timestamps(&pts), vec![10, 20]);
}
