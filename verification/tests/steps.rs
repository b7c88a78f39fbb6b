use gigatrace::iforest::IForestIndex;
use gigatrace::index::{Aggregate, EventCount, EventSum, LongestEvent, TrackIndex};
use gigatrace::trace::{BlockPool, PackedNanos, TraceEvent, Track};
use gigatrace::{
    aggregate_by_steps, aggregate_by_steps_unindexed, aggregate_by_steps_unindexed_with_gate,
    aggregate_by_steps_with_gate, blocks_before, Trace, TrackInfo,
};

fn event(kind: u64, timestamp: u64, duration: u64) -> TraceEvent {
    TraceEvent {
        kind,
        timestamp: PackedNanos::new(timestamp),
        duration: PackedNanos::new(duration),
    }
}

fn track_at(timestamps: &[u64]) -> (BlockPool, Track) {
    let mut pool = BlockPool::new();
    let mut track = Track::new();
    for (i, ts) in timestamps.iter().enumerate() {
        track.push(&mut pool, event(i as u64, *ts, 0));
    }
    (pool, track)
}

fn sums(buckets: &[EventSum]) -> Vec<u64> {
    buckets.iter().map(|sum| sum.0).collect()
}

fn counts(buckets: &[EventCount]) -> Vec<u64> {
    buckets.iter().map(|count| count.0).collect()
}

const SPARSE: [u64; 7] = [10, 15, 20, 100, 101, 150, 170];

#[test]
fn gated_steps_leave_empty_buckets_out() {
    let (pool, track) = track_at(&SPARSE);
    let out = aggregate_by_steps_unindexed::<EventSum, _>(
        &pool,
        &track.block_locations,
        13..150,
        10,
        |_| true,
    );
    assert_eq!(sums(&out), vec![10, 35, 201, 150]);
}

#[test]
fn filter_decides_which_buckets_come_out() {
    let (pool, track) = track_at(&SPARSE);
    let large = aggregate_by_steps_unindexed::<EventSum, _>(
        &pool,
        &track.block_locations,
        13..150,
        10,
        |sum| sum.0 > 100,
    );
    assert_eq!(sums(&large), vec![201, 150]);

    let empty_only = aggregate_by_steps_unindexed_with_gate::<EventSum, _>(
        &pool,
        &track.block_locations,
        13..150,
        10,
        false,
        |sum| sum.0 == 0,
    );
    assert_eq!(sums(&empty_only), vec![0; 11]);

    let none = aggregate_by_steps_unindexed::<EventSum, _>(
        &pool,
        &track.block_locations,
        13..150,
        10,
        |_| false,
    );
    assert!(none.is_empty());
}

#[test]
fn gated_output_is_the_ungated_output_without_what_does_not_pass() {
    let (pool, track) = track_at(&SPARSE);
    let keep = |sum: &EventSum| sum.0 % 2 == 1;
    let full = aggregate_by_steps_unindexed_with_gate::<EventSum, _>(
        &pool,
        &track.block_locations,
        13..150,
        10,
        false,
        |_| true,
    );
    let thinned: Vec<EventSum> = full
        .iter()
        .filter(|sum| !sum.is_empty() && keep(sum))
        .cloned()
        .collect();
    let gated = aggregate_by_steps_unindexed::<EventSum, _>(
        &pool,
        &track.block_locations,
        13..150,
        10,
        keep,
    );
    assert_eq!(gated, thinned);
    assert_eq!(sums(&gated), vec![35, 201]);
}

#[test]
fn every_bucket_holds_the_events_of_its_step() {
    let (pool, track) = track_at(&SPARSE);
    let (start, step) = (13u64, 10u64);
    let out = aggregate_by_steps_unindexed_with_gate::<EventSum, _>(
        &pool,
        &track.block_locations,
        start..150,
        step,
        false,
        |_| true,
    );
    assert_eq!(out.len(), 15);
    for (k, bucket) in out.iter().enumerate() {
        let k = k as u64;
        let expected: u64 = SPARSE
            .iter()
            .filter(|ts| {
                if k == 0 {
                    **ts < start
                } else {
                    start + (k - 1) * step <= **ts && **ts < start + k * step
                }
            })
            .sum();
        assert_eq!(bucket.0, expected, "bucket {}", k);
    }
}

#[test]
fn window_that_ends_before_it_starts_gives_the_leading_bucket_only() {
    let (pool, track) = track_at(&[10, 20, 30]);
    let out = aggregate_by_steps_unindexed::<EventSum, _>(
        &pool,
        &track.block_locations,
        15..5,
        10,
        |_| true,
    );
    assert_eq!(sums(&out), vec![10]);

    let (pool, track) = track_at(&[20, 30]);
    let out = aggregate_by_steps_unindexed::<EventSum, _>(
        &pool,
        &track.block_locations,
        15..5,
        10,
        |_| true,
    );
    assert!(out.is_empty());
}

#[test]
fn track_without_events_gives_no_bucket_unless_ungated() {
    let pool = BlockPool::new();
    let track = Track::new();
    let index = IForestIndex::<EventSum>::build(&track, &pool);
    let gated = aggregate_by_steps(&pool, &track.block_locations, &index, 0..100, 10, |_| true);
    assert!(gated.is_empty());
    let ungated = aggregate_by_steps_with_gate(
        &pool,
        &track.block_locations,
        &index,
        0..100,
        10,
        false,
        |_| true,
    );
    assert_eq!(ungated, vec![EventSum(0)]);
}

#[test]
fn events_behind_the_window_are_dropped() {
    let (pool, track) = track_at(&[1, 2, 100, 200]);
    let out = aggregate_by_steps_unindexed::<EventCount, _>(
        &pool,
        &track.block_locations,
        0..50,
        25,
        |_| true,
    );
    assert_eq!(counts(&out), vec![2]);

    let (pool, track) = track_at(&[1, 60, 70]);
    let out = aggregate_by_steps_unindexed::<EventCount, _>(
        &pool,
        &track.block_locations,
        0..50,
        25,
        |_| true,
    );
    assert_eq!(counts(&out), vec![1]);
}

#[test]
fn step_wider_than_all_time_takes_everything_into_one_bucket() {
    let (pool, track) = track_at(&[5, 10, 0xffff_ffff_ffff]);
    let index = IForestIndex::<EventCount>::build(&track, &pool);
    for start in [0u64, 1, 5] {
        let out = aggregate_by_steps(
            &pool,
            &track.block_locations,
            &index,
            start..u64::MAX,
            u64::MAX,
            |_| true,
        );
        // What lies before `start` is one bucket, all the rest another.
        let before = [5u64, 10].iter().filter(|ts| **ts < start).count() as u64;
        let expected: Vec<u64> = [before, 3 - before].into_iter().filter(|n| *n > 0).collect();
        assert_eq!(counts(&out), expected, "start {}", start);
    }
}

#[test]
fn blocks_that_start_at_the_bucket_end_are_not_skipped() {
    // Block 0 holds sixteen events at 50, blocks 1 and 2 sixteen each at 100,
    // block 3 one at 200.
    let mut timestamps = vec![50u64; 16];
    timestamps.extend(vec![100u64; 32]);
    timestamps.push(200);
    let (pool, track) = track_at(&timestamps);
    assert_eq!(track.block_locations.len(), 4);
    let index = IForestIndex::<EventCount>::build(&track, &pool);
    let out = aggregate_by_steps(&pool, &track.block_locations, &index, 100..300, 50, |_| true);
    assert_eq!(counts(&out), vec![16, 32, 1]);
    let plain = aggregate_by_steps_unindexed::<EventCount, _>(
        &pool,
        &track.block_locations,
        100..300,
        50,
        |_| true,
    );
    assert_eq!(counts(&plain), vec![16, 32, 1]);
}

#[test]
fn drivers_agree_on_tracks_with_repeated_timestamps() {
    // Twenty events share each timestamp, so runs of equal times cross blocks.
    let timestamps: Vec<u64> = (0..400u64).map(|i| (i / 20) * 10).collect();
    let mut pool = BlockPool::new();
    let mut track = Track::new();
    for (i, ts) in timestamps.iter().enumerate() {
        track.push(&mut pool, event(i as u64, *ts, (i as u64 * 13) % 17));
    }
    let sums_index = IForestIndex::<EventSum>::build(&track, &pool);
    let longest_index = IForestIndex::<LongestEvent>::build(&track, &pool);
    for start in (0..=220u64).step_by(5) {
        for length in [0u64, 1, 10, 35, 200, 1_000] {
            for step in [1u64, 7, 10, 50, 1_000] {
                for gated in [true, false] {
                    let span = start..(start + length);
                    assert_eq!(
                        aggregate_by_steps_with_gate(
                            &pool,
                            &track.block_locations,
                            &sums_index,
                            span.clone(),
                            step,
                            gated,
                            |_| true,
                        ),
                        aggregate_by_steps_unindexed_with_gate::<EventSum, _>(
                            &pool,
                            &track.block_locations,
                            span.clone(),
                            step,
                            gated,
                            |_| true,
                        ),
                        "sums over {:?} by {}",
                        span,
                        step
                    );
                    assert_eq!(
                        aggregate_by_steps_with_gate(
                            &pool,
                            &track.block_locations,
                            &longest_index,
                            span.clone(),
                            step,
                            gated,
                            |_| true,
                        ),
                        aggregate_by_steps_unindexed_with_gate::<LongestEvent, _>(
                            &pool,
                            &track.block_locations,
                            span.clone(),
                            step,
                            gated,
                            |_| true,
                        ),
                        "longest over {:?} by {}",
                        span,
                        step
                    );
                }
            }
        }
    }
}

#[test]
fn blocks_before_counts_the_blocks_that_start_earlier() {
    // Event `i` is at time `i`, so block `b` starts at `16 b`.
    let timestamps: Vec<u64> = (0..80).collect();
    let (pool, track) = track_at(&timestamps);
    let locs = &track.block_locations;
    assert_eq!(locs.len(), 5);
    assert_eq!(blocks_before(&pool, locs, 0, 0), 0);
    assert_eq!(blocks_before(&pool, locs, 0, 1), 1);
    assert_eq!(blocks_before(&pool, locs, 0, 16), 1);
    assert_eq!(blocks_before(&pool, locs, 0, 17), 2);
    assert_eq!(blocks_before(&pool, locs, 1, 17), 1);
    assert_eq!(blocks_before(&pool, locs, 2, 17), 0);
    assert_eq!(blocks_before(&pool, locs, 0, u64::MAX), 5);
    assert_eq!(blocks_before(&pool, locs, 3, u64::MAX), 2);
    assert_eq!(blocks_before(&pool, locs, 5, u64::MAX), 0);
}

#[test]
fn trace_bounds_span_all_tracks() {
    let mut trace = Trace::new();
    assert_eq!(trace.time_bounds(), None);
    assert!(Trace::default().tracks.is_empty());

    let mut early = Track::new();
    early.push(&mut trace.pool, event(0, 3, 100));
    let mut late = Track::new();
    late.push(&mut trace.pool, event(1, 10, 5));
    late.push(&mut trace.pool, event(2, 40, 7));
    let idle = Track::new();
    for track in [late, idle, early] {
        let index = IForestIndex::<LongestEvent>::build(&track, &trace.pool);
        trace.tracks.push(TrackInfo::new(track, index));
    }
    assert_eq!(trace.time_bounds(), Some(3..103));
}

#[test]
fn trace_of_idle_tracks_has_no_bounds() {
    let mut trace = Trace::new();
    for _ in 0..3 {
        let track = Track::new();
        let index = IForestIndex::<LongestEvent>::build(&track, &trace.pool);
        trace.tracks.push(TrackInfo::new(track, index));
    }
    assert_eq!(trace.time_bounds(), None);
}
