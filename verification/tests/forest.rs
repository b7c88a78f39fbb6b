use gigatrace::iforest::IForestIndex;
use gigatrace::index::{Aggregate, EventCount, EventSum, LongestEvent, TrackIndex};
use gigatrace::trace::{BlockPool, PackedNanos, TraceEvent, Track};

fn event(kind: u64, timestamp: u64, duration: u64) -> TraceEvent {
    TraceEvent {
        kind,
        timestamp: PackedNanos::new(timestamp),
        duration: PackedNanos::new(duration),
    }
}

/// A track of `n` events: event `i` starts at `3i` and lasts `(7i) mod 11`.
fn sample_track(n: u64) -> (BlockPool, Track) {
    let mut pool = BlockPool::new();
    let mut track = Track::new();
    for i in 0..n {
        track.push(&mut pool, event(i, 3 * i, (7 * i) % 11));
    }
    (pool, track)
}

#[test]
fn aggregates_of_nothing_are_empty() {
    assert!(EventCount::empty().is_empty());
    assert!(EventSum::empty().is_empty());
    assert!(LongestEvent::empty().is_empty());
    assert_eq!(EventCount::empty().0, 0);
    assert_eq!(EventSum::empty(), EventSum(0));
    assert_eq!(LongestEvent::empty(), LongestEvent(None));
}

#[test]
fn aggregates_of_one_event() {
    let ev = event(4, 1_000, 25);
    assert_eq!(EventCount::from_event(&ev).0, 1);
    assert_eq!(EventSum::from_event(&ev), EventSum(1_000));
    assert_eq!(LongestEvent::from_event(&ev), LongestEvent(Some(ev)));
    assert!(!EventCount::from_event(&ev).is_empty());
    assert!(!LongestEvent::from_event(&ev).is_empty());
}

#[test]
fn count_and_sum_join_by_adding() {
    assert_eq!(EventCount(3).join(&EventCount(4)).0, 7);
    assert_eq!(EventSum(30).join(&EventSum(12)), EventSum(42));
    assert_eq!(EventSum(0).join(&EventSum(12)), EventSum(12));
    assert_eq!(EventSum(12).join(&EventSum(0)), EventSum(12));
    // Sums wrap around rather than stop.
    assert_eq!(EventSum(u64::MAX).join(&EventSum(2)), EventSum(1));
    assert_eq!(EventCount(u64::MAX).join(&EventCount(1)).0, 0);
}

#[test]
fn longest_event_join_prefers_the_longer_and_of_equals_the_later() {
    let short = LongestEvent(Some(event(1, 0, 5)));
    let long = LongestEvent(Some(event(2, 1, 9)));
    let also_long = LongestEvent(Some(event(3, 2, 9)));
    let none = LongestEvent(None);

    assert_eq!(short.join(&long), long);
    assert_eq!(long.join(&short), long);
    assert_eq!(long.join(&also_long), also_long);
    assert_eq!(also_long.join(&long), long);
    assert_eq!(none.join(&short), short);
    assert_eq!(short.join(&none), short);
    assert_eq!(none.join(&none), none);
}

#[test]
fn join_is_associative_on_samples() {
    let samples = [
        LongestEvent(None),
        LongestEvent(Some(event(1, 0, 5))),
        LongestEvent(Some(event(2, 1, 9))),
        LongestEvent(Some(event(3, 2, 9))),
        LongestEvent(Some(event(4, 3, 1))),
    ];
    for a in &samples {
        for b in &samples {
            for c in &samples {
                assert_eq!(a.join(b).join(c), a.join(&b.join(c)));
            }
        }
    }
}

#[test]
fn from_block_is_the_fold_over_the_events() {
    let (pool, track) = sample_track(40);
    for loc in &track.block_locations {
        let block = &pool.blocks[*loc as usize];
        let mut count = EventCount::empty();
        let mut sum = EventSum::empty();
        let mut longest = LongestEvent::empty();
        for ev in block.events() {
            count = count.join(&EventCount::from_event(ev));
            sum = sum.join(&EventSum::from_event(ev));
            longest = longest.join(&LongestEvent::from_event(ev));
        }
        assert_eq!(EventCount::from_block(block).0, count.0);
        assert_eq!(EventSum::from_block(block), sum);
        assert_eq!(LongestEvent::from_block(block), longest);
    }
}

#[test]
fn longest_of_a_block_with_a_tie_is_the_later_event() {
    let mut pool = BlockPool::new();
    let mut track = Track::new();
    for (i, duration) in [3u64, 7, 7, 1].iter().enumerate() {
        track.push(&mut pool, event(i as u64, i as u64, *duration));
    }
    let longest = LongestEvent::from_block(&pool.blocks[0]);
    assert_eq!(longest, LongestEvent(Some(event(2, 2, 7))));
}

#[test]
fn longest_event_in_one_block() {
    let mut pool = BlockPool::new();
    let mut track = Track::new();
    for (i, duration) in [5u64, 2, 9, 1, 7].iter().enumerate() {
        track.push(&mut pool, event(i as u64, i as u64, *duration));
    }
    let index = IForestIndex::<LongestEvent>::build(&track, &pool);
    assert_eq!(index.range_query(0..1), LongestEvent(Some(event(2, 2, 9))));

    // All five events lie before the window, so they make up its first bucket.
    let buckets = gigatrace::aggregate_by_steps(
        &pool,
        &track.block_locations,
        &index,
        100..200,
        10,
        |_| true,
    );
    assert_eq!(buckets, vec![LongestEvent(Some(event(2, 2, 9)))]);
}

#[test]
fn new_index_is_empty() {
    let index = IForestIndex::<EventCount>::new();
    assert!(index.values.is_empty());
    assert!(IForestIndex::<EventSum>::default().values.is_empty());
    assert_eq!(index.range_query(0..0).0, 0);
}

#[test]
fn leaves_sit_at_even_positions() {
    let (pool, track) = sample_track(16 * 9 + 3);
    let mut index = IForestIndex::<EventSum>::new();
    for (n, loc) in track.block_locations.iter().enumerate() {
        index.push(&pool.blocks[*loc as usize]);
        assert_eq!(index.values.len(), 2 * (n + 1));
        for (i, earlier) in track.block_locations[..=n].iter().enumerate() {
            assert_eq!(
                index.values[2 * i],
                EventSum::from_block(&pool.blocks[*earlier as usize])
            );
        }
    }
}

#[test]
fn forest_layout_after_four_blocks() {
    let (pool, track) = sample_track(64);
    let index = IForestIndex::<EventCount>::build(&track, &pool);
    let counts: Vec<u64> = index.values.iter().map(|count| count.0).collect();
    // Leaves at 0, 2, 4, 6; position 1 sums blocks 0..2, position 3 blocks
    // 0..4, position 5 blocks 2..4, and position 7 waits for blocks 4..8.
    assert_eq!(counts, vec![16, 32, 16, 64, 16, 32, 16, 64]);
}

#[test]
fn range_query_is_the_fold_over_the_leaves() {
    let (pool, track) = sample_track(16 * 20 + 5);
    let n = track.block_locations.len();
    assert_eq!(n, 21);
    let index = IForestIndex::<LongestEvent>::build(&track, &pool);
    let sums = IForestIndex::<EventSum>::build(&track, &pool);
    for lo in 0..=n {
        for hi in lo..=n {
            let mut longest = LongestEvent::empty();
            let mut sum = EventSum::empty();
            for loc in &track.block_locations[lo..hi] {
                let block = &pool.blocks[*loc as usize];
                longest = longest.join(&LongestEvent::from_block(block));
                sum = sum.join(&EventSum::from_block(block));
            }
            assert_eq!(index.range_query(lo..hi), longest, "longest of {}..{}", lo, hi);
            assert_eq!(sums.range_query(lo..hi), sum, "sum of {}..{}", lo, hi);
        }
    }
}

#[test]
fn empty_range_query_gives_nothing() {
    let (pool, track) = sample_track(100);
    let index = IForestIndex::<LongestEvent>::build(&track, &pool);
    for k in 0..=track.block_locations.len() {
        assert_eq!(index.range_query(k..k), LongestEvent(None));
    }
}

#[test]
fn range_query_splits_at_any_block() {
    let (pool, track) = sample_track(16 * 12 + 1);
    let n = track.block_locations.len();
    let index = IForestIndex::<LongestEvent>::build(&track, &pool);
    for a in 0..=n {
        for b in a..=n {
            for c in b..=n {
                assert_eq!(
                    index.range_query(a..c),
                    index.range_query(a..b).join(&index.range_query(b..c))
                );
            }
        }
    }
}

#[test]
fn count_over_a_range_is_the_number_of_events() {
    let (pool, track) = sample_track(16 * 6 + 9);
    let index = IForestIndex::<EventCount>::build(&track, &pool);
    assert_eq!(index.range_query(0..7).0, 105);
    assert_eq!(index.range_query(0..6).0, 96);
    assert_eq!(index.range_query(6..7).0, 9);
    assert_eq!(index.range_query(2..5).0, 48);
}

#[test]
fn sixteen_events_in_one_block() {
    let mut pool = BlockPool::new();
    let mut track = Track::new();
    for ts in 0..16 {
        track.push(&mut pool, event(0, ts, 0));
    }
    assert_eq!(track.block_locations.len(), 1);
    let counts = IForestIndex::<EventCount>::build(&track, &pool);
    let sums = IForestIndex::<EventSum>::build(&track, &pool);
    assert_eq!(counts.range_query(0..1).0, 16);
    assert_eq!(sums.range_query(0..1), EventSum(120));

    // One event per bucket: the bucket before the window is empty and is left
    // out, as is every bucket that holds nothing.
    let per_bucket = gigatrace::aggregate_by_steps(
        &pool,
        &track.block_locations,
        &counts,
        0..16,
        1,
        |_| true,
    );
    let per_bucket: Vec<u64> = per_bucket.iter().map(|count| count.0).collect();
    assert_eq!(per_bucket, vec![1; 16]);

    // Ungated, the bucket before the window comes out as well, empty as it is.
    let all = gigatrace::aggregate_by_steps_with_gate(
        &pool,
        &track.block_locations,
        &sums,
        0..16,
        1,
        false,
        |_| true,
    );
    let mut expected = vec![EventSum(0)];
    expected.extend((0..16).map(EventSum));
    assert_eq!(all, expected);
}
