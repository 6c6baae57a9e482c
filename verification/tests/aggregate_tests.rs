use chrono::{DateTime, Utc};
use factorio_browser::aggregate::{aggregate, aggregate_chunks};
use factorio_browser::records::{HistoryEntry, ServerHistory};

fn rfc3339_at(epoch: i64) -> String {
    DateTime::<Utc>::from_timestamp(epoch, 0).unwrap().to_rfc3339()
}

fn sample_at(epoch: i64, player_count: usize) -> ServerHistory {
    ServerHistory { game_id: 1, player_count, recorded_at: rfc3339_at(epoch) }
}

const NOW: i64 = 1_700_000_000;

#[test]
fn no_samples_gives_zero_buckets_and_no_summary() {
    let (buckets, summary) = aggregate(&Vec::new(), NOW, 24);
    assert_eq!(buckets.len(), 24);
    for (i, b) in buckets.iter().enumerate() {
        assert_eq!(b.bucket_index, i);
        assert_eq!(b.average_player_count, 0);
    }
    assert!(summary.is_none());
}

#[test]
fn same_hour_samples_average() {
    let samples = vec![sample_at(NOW - 100, 10), sample_at(NOW - 200, 20)];
    let (buckets, summary) = aggregate(&samples, NOW, 24);
    assert_eq!(buckets[0].average_player_count, 15);
    for b in buckets.iter().skip(1) {
        assert_eq!(b.average_player_count, 0);
    }
    let s = summary.unwrap();
    assert_eq!(s.min, 0);
    assert_eq!(s.max, 15);
    assert_eq!(s.avg, 0); // 15 spread over 24 buckets rounds to zero
}

#[test]
fn samples_land_in_their_hour() {
    let samples = vec![
        sample_at(NOW - 30 * 60, 6),           // bucket 0
        sample_at(NOW - 90 * 60, 10),          // bucket 1
        sample_at(NOW - 90 * 60 - 10, 20),     // bucket 1 as well
        sample_at(NOW - 25 * 3600, 50),        // outside the 24 hour window
        sample_at(NOW + 3600, 70),             // in the future: discarded
    ];
    let (buckets, summary) = aggregate(&samples, NOW, 24);
    assert_eq!(buckets[0].average_player_count, 6);
    assert_eq!(buckets[1].average_player_count, 15);
    assert_eq!(buckets[2].average_player_count, 0);
    assert_eq!(summary.unwrap().max, 15);
}

#[test]
fn unparsable_timestamps_are_discarded() {
    let samples = vec![ServerHistory {
        game_id: 1,
        player_count: 9,
        recorded_at: "yesterday-ish".to_string(),
    }];
    let (buckets, summary) = aggregate(&samples, NOW, 24);
    assert!(buckets.iter().all(|b| b.average_player_count == 0));
    assert!(summary.is_none());
}

#[test]
fn mean_rounds_toward_zero() {
    let samples = vec![sample_at(NOW - 10, 1), sample_at(NOW - 20, 2)];
    let (buckets, _) = aggregate(&samples, NOW, 24);
    assert_eq!(buckets[0].average_player_count, 1); // (1 + 2) / 2
}

fn entries(counts: &[usize]) -> Vec<HistoryEntry> {
    counts
        .iter()
        .map(|&c| HistoryEntry { player_count: c, recorded_at: String::new() })
        .collect()
}

#[test]
fn chunked_aggregation_averages_contiguous_chunks() {
    let r = aggregate_chunks(&entries(&[4, 6, 10, 20]), 2);
    assert_eq!(r, vec![5, 15]);
}

#[test]
fn short_histories_get_one_bucket_per_entry() {
    let r = aggregate_chunks(&entries(&[3, 9]), 24);
    assert_eq!(r, vec![3, 9]);
}

#[test]
fn chunked_aggregation_caps_the_bucket_count() {
    let counts: Vec<usize> = (0..100).map(|i| i).collect();
    let r = aggregate_chunks(&entries(&counts), 24);
    assert_eq!(r.len(), 24);
    // chunk size is 100 / 24 == 4, so the first bucket is (0+1+2+3)/4
    assert_eq!(r[0], 1);
}

#[test]
fn empty_history_yields_no_chunks() {
    let r = aggregate_chunks(&entries(&[]), 24);
    assert!(r.is_empty());
}
