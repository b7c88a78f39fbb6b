use fastrand::Rng;
use gigatrace::iforest::IForestIndex;
use gigatrace::index::{Aggregate, EventCount, EventSum, LongestEvent, TrackIndex};
use gigatrace::trace::{BlockPool, PackedNanos, TraceEvent, Track};

/// Pushes `n` events with rising timestamps and random durations.
fn add_dummy_events(track: &mut Track, pool: &mut BlockPool, rng: &Rng, n: usize) {
    let mut timestamp = 0;
    for i in 0..n {
        timestamp += rng.u64(0..1_000);
        track.push(
            pool,
            TraceEvent {
                kind: i as u64,
                timestamp: PackedNanos::new(timestamp),
                duration: PackedNanos::new(rng.u64(0..100_000)),
            },
        );
    }
}

#[test]
fn dummy_trace() {
    let mut pool = BlockPool::new();
    let mut track = Track::new();
    let rng = Rng::with_seed(0x51_7e);
    add_dummy_events(&mut track, &mut pool, &rng, 300);

    let mut maxes = vec![];
    for i in &track.block_locations {
        maxes.push(
            LongestEvent::from_block(&pool.blocks[*i as usize])
                .0
                .unwrap()
                .duration
                .unpack(),
        );
    }
    println!("maxes: {:?}", maxes);

    let index = IForestIndex::<LongestEvent>::build(&track, &pool);
    let index_vals = index
        .values
        .iter()
        .map(|x| x.0.unwrap().duration.unpack())
        .collect::<Vec<_>>();
    println!("index: {:?}", index_vals);

    assert_eq!(index_vals.len(), 2 * maxes.len());
    for (i, longest) in maxes.iter().enumerate() {
        assert_eq!(index_vals[2 * i], *longest);
    }
}

#[test]
fn block_count() {
    let mut pool = BlockPool::new();
    let mut track = Track::new();
    let rng = Rng::with_seed(7);
    add_dummy_events(&mut track, &mut pool, &rng, 325);

    let index = IForestIndex::<EventCount>::build(&track, &pool);
    let index_vals = index.values.iter().map(|x| x.0).collect::<Vec<_>>();
    println!("index: {:?}", index_vals);

    // 325 events fill 20 blocks and leave 5 in the last.
    assert_eq!(track.block_locations.len(), 21);
    assert_eq!(index_vals.len(), 42);
    assert_eq!(
        &index_vals[..8],
        &[16, 32, 16, 64, 16, 32, 16, 128],
    );
    assert_eq!(index_vals[40], 5);
}

#[test]
fn aggregate_by_steps_unindexed() {
    let mut pool = BlockPool::new();
    let mut track = Track::new();
    let ev_ts = &[10, 15, 20, 100, 101, 150, 170];
    for t in ev_ts {
        track.push(
            &mut pool,
            TraceEvent {
                kind: 0,
                timestamp: PackedNanos::new(*t),
                duration: PackedNanos::new(0),
            },
        );
    }

    let span = 13..150;
    let res = gigatrace::aggregate_by_steps_unindexed_with_gate::<EventSum, _>(
        &pool,
        &track.block_locations,
        span,
        10,
        false,
        |_| true,
    );
    let res_ts = res.iter().map(|x| x.0).collect::<Vec<_>>();
    assert_eq!(
        &res_ts[..],
        &[10, 35, 0, 0, 0, 0, 0, 0, 0, 201, 0, 0, 0, 0, 150]
    );
}

#[test]
fn prop_test_range_query() {
    let mut pool = BlockPool::new();
    let mut track = Track::new();
    let rng = Rng::with_seed(11);
    add_dummy_events(&mut track, &mut pool, &rng, 325);

    let index = IForestIndex::<EventCount>::build(&track, &pool);

    for _ in 0..100_000 {
        let start = rng.usize(..=track.block_locations.len());
        let end = rng.usize(start..=track.block_locations.len());
        let EventCount(count) = index.range_query(start..end);
        let correct: usize = track.block_locations[start..end]
            .iter()
            .map(|i| pool.blocks[*i as usize].len())
            .sum();
        assert_eq!(count as usize, correct, "failed for {}..{}", start, end);
    }
}

#[test]
fn prop_test_aggregate_by_steps() {
    let mut pool = BlockPool::new();
    let mut track = Track::new();
    let rng = Rng::with_seed(13);
    add_dummy_events(&mut track, &mut pool, &rng, 325);

    let index = IForestIndex::<EventSum>::build(&track, &pool);

    let time_bounds = 0..=(track.end_time(&pool).unwrap() + 100_000);
    for _ in 0..100_000 {
        let t1 = rng.u64(time_bounds.clone());
        let t2 = rng.u64(time_bounds.clone());
        let t_range = if t2 > t1 { t1..t2 } else { t2..t1 };
        let range_size = t_range.end - t_range.start;
        // A step of zero would never get past the first bucket.
        let step = ((range_size / rng.u64(1..10)) + rng.u64(0..100)).max(1);

        let res1 = gigatrace::aggregate_by_steps::<EventSum, _>(
            &pool,
            &track.block_locations,
            &index,
            t_range.clone(),
            step,
            |_| true,
        );

        let res2 = gigatrace::aggregate_by_steps_unindexed::<EventSum, _>(
            &pool,
            &track.block_locations,
            t_range.clone(),
            step,
            |_| true,
        );

        assert_eq!(res1, res2, "failed for {:?} - {}", t_range, step);
    }
}
