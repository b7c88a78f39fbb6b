use gigatrace::trace::{BlockPool, PackedNanos, TraceBlock, TraceEvent, Track, EVENTS_PER_BLOCK};

fn event(kind: u64, timestamp: u64, duration: u64) -> TraceEvent {
    TraceEvent {
        kind,
        timestamp: PackedNanos::new(timestamp),
        duration: PackedNanos::new(duration),
    }
}

#[test]
fn packed_nanos_round_trips_below_48_bits() {
    for ts in [0u64, 1, 255, 256, 65_535, 65_536, 0xffff_ffff_ffff] {
        assert_eq!(PackedNanos::new(ts).unpack(), ts);
    }
}

#[test]
fn packed_nanos_truncates_to_48_bits() {
    assert_eq!(PackedNanos::new(0x1_0000_0000_0000).unpack(), 0);
    assert_eq!(PackedNanos::new(0x1_0000_0000_0005).unpack(), 5);
    assert_eq!(PackedNanos::new(u64::MAX).unpack(), 0xffff_ffff_ffff);
}

#[test]
fn packed_nanos_orders_by_value_not_by_bytes() {
    // 256 is [0, 1, ..] in little-endian bytes, 255 is [255, 0, ..].
    assert!(PackedNanos::new(256) > PackedNanos::new(255));
    assert!(PackedNanos::new(255) < PackedNanos::new(256));
    assert!(PackedNanos::new(7) <= PackedNanos::new(7));
    assert_eq!(PackedNanos::new(7), PackedNanos::new(7));
    assert_ne!(PackedNanos::new(7), PackedNanos::new(8));
    assert_eq!(PackedNanos::default().unpack(), 0);
}

#[test]
fn new_block_is_empty() {
    let block = TraceBlock::new();
    assert_eq!(block.len(), 0);
    assert!(block.is_empty());
    assert!(!block.is_full());
    assert!(block.events().is_empty());
    assert_eq!(TraceBlock::default().len(), 0);
}

#[test]
fn block_keeps_events_in_push_order() {
    let mut block = TraceBlock::new();
    block.push(event(1, 30, 3));
    block.push(event(2, 10, 1));
    block.push(event(3, 20, 2));
    assert_eq!(block.len(), 3);
    assert!(!block.is_empty());
    assert_eq!(
        block.events(),
        &[event(1, 30, 3), event(2, 10, 1), event(3, 20, 2)][..]
    );
    assert_eq!(block.start_time(), 30);
}

#[test]
fn block_is_full_at_sixteen_events_only() {
    let mut block = TraceBlock::new();
    for i in 0..EVENTS_PER_BLOCK {
        assert!(!block.is_full());
        block.push(event(i as u64, i as u64, 0));
    }
    assert_eq!(block.len(), 16);
    assert!(block.is_full());
}

#[test]
fn pool_hands_out_consecutive_indices() {
    let mut pool = BlockPool::new();
    assert_eq!(pool.blocks.len(), 0);
    assert_eq!(pool.allocate(), 0);
    assert_eq!(pool.allocate(), 1);
    assert_eq!(pool.allocate(), 2);
    assert_eq!(pool.blocks.len(), 3);
    assert!(pool.blocks.iter().all(|block| block.is_empty()));
    assert_eq!(BlockPool::default().blocks.len(), 0);
}

#[test]
fn empty_track_has_no_times() {
    let pool = BlockPool::new();
    let track = Track::new();
    assert!(track.block_locations.is_empty());
    assert_eq!(track.start_time(&pool), None);
    assert_eq!(track.end_time(&pool), None);
    assert_eq!(track.after_last_time(&pool), None);
    assert!(track.events(&pool).is_empty());
    assert!(track.fits(&pool));
    assert!(track.is_ascending(&pool));
    assert!(Track::default().block_locations.is_empty());
}

#[test]
fn track_fills_a_block_before_taking_the_next() {
    let mut pool = BlockPool::new();
    let mut track = Track::new();
    for i in 0..16 {
        track.push(&mut pool, event(i, 100 + i, 1));
        assert_eq!(track.block_locations, vec![0]);
    }
    track.push(&mut pool, event(16, 116, 9));
    assert_eq!(track.block_locations, vec![0, 1]);
    assert_eq!(pool.blocks.len(), 2);
    assert_eq!(pool.blocks[0].len(), 16);
    assert_eq!(pool.blocks[1].len(), 1);

    assert_eq!(track.start_time(&pool), Some(100));
    assert_eq!(track.end_time(&pool), Some(116));
    assert_eq!(track.after_last_time(&pool), Some(125));

    let all = track.events(&pool);
    assert_eq!(all.len(), 17);
    for (i, ev) in all.iter().enumerate() {
        assert_eq!(*ev, event(i as u64, 100 + i as u64, if i == 16 { 9 } else { 1 }));
    }
}

#[test]
fn tracks_share_a_pool_without_touching_each_other() {
    let mut pool = BlockPool::new();
    let mut first = Track::new();
    let mut second = Track::new();
    for i in 0..20 {
        first.push(&mut pool, event(i, i, 0));
        second.push(&mut pool, event(1_000 + i, 2 * i, 0));
    }
    assert_eq!(first.block_locations, vec![0, 2]);
    assert_eq!(second.block_locations, vec![1, 3]);
    assert!(first.fits(&pool));
    assert!(second.fits(&pool));
    let kinds: Vec<u64> = first.events(&pool).iter().map(|ev| ev.kind).collect();
    assert_eq!(kinds, (0..20).collect::<Vec<u64>>());
    let kinds: Vec<u64> = second.events(&pool).iter().map(|ev| ev.kind).collect();
    assert_eq!(kinds, (1_000..1_020).collect::<Vec<u64>>());
}

#[test]
fn ascending_pushes_keep_the_track_ascending() {
    let mut pool = BlockPool::new();
    let mut track = Track::new();
    for ts in [3u64, 3, 4, 10, 10, 10, 11, 500] {
        track.push(&mut pool, event(0, ts, 0));
        assert!(track.is_ascending(&pool));
    }
    let all = track.events(&pool);
    for pair in all.windows(2) {
        assert!(pair[0].timestamp.unpack() <= pair[1].timestamp.unpack());
    }
    track.push(&mut pool, event(0, 499, 0));
    assert!(!track.is_ascending(&pool));
}

#[test]
fn track_that_names_a_missing_or_empty_block_does_not_fit() {
    let mut pool = BlockPool::new();
    let mut track = Track::new();
    track.push(&mut pool, event(0, 1, 0));
    assert!(track.fits(&pool));

    let stray = Track { block_locations: vec![5] };
    assert!(!stray.fits(&pool));

    pool.allocate();
    let hollow = Track { block_locations: vec![0, 1] };
    assert!(!hollow.fits(&pool));

    let twice = Track { block_locations: vec![0, 0] };
    assert!(!twice.fits(&pool));
}
