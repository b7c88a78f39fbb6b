//! Block-structured event traces with a per-track interval-forest index and
//! time-bucketed aggregation.
//!
//! Events are pushed onto tracks, which store them in fixed-size blocks of a
//! shared pool. An interval forest over a track's blocks answers "what is the
//! aggregate of blocks `lo..hi`" in logarithmic time, and the drivers of this
//! module turn a time window and a bucket width into one aggregate per bucket.

pub mod data;
pub mod iforest;
pub mod index;
pub mod sweep;
pub mod timeline;
pub mod trace;

use crate::iforest::IForestIndex;
use crate::index::{summaries, Aggregate, LongestEvent};
use crate::sweep::{
    decided_by, lemma_before_later_block, lemma_scan_concat, lemma_scan_done,
    lemma_scan_quiet_blocks, lemma_starts_ascend, scan_events, scan_start, steps_output, Scan,
    Sweep,
};
use crate::trace::{
    all_nonempty, ascending, blocks_at, located, BlockIndex, BlockPool, Nanos, TraceEvent, Track,
};
use std::ops::Range;
use vstd::prelude::*;
use vstd::seq_lib::lemma_flatten_concat;

verus! {

/// The buckets of the window `time_span`, cut into steps of `time_step`, over
/// the events of the blocks `block_locs`, found by looking at every event. A
/// bucket is emitted if `event_filter` passes it and, where `gated`, it is not
/// empty.
pub fn aggregate_by_steps_unindexed_with_gate<A, F>(
    pool: &BlockPool,
    block_locs: &[BlockIndex],
    time_span: Range<Nanos>,
    time_step: u64,
    gated: bool,
    event_filter: F,
) -> (out: Vec<A>) where A: Aggregate, F: Fn(&A) -> bool
    requires
        located(pool@, block_locs@),
        time_step > 0,
        forall|a: &A| #[trigger] event_filter.requires((a,)),
    ensures
        forall|keep: spec_fn(A) -> bool| #[trigger]
            decided_by(keep, event_filter) ==> out@ == steps_output::<A>(
                blocks_at(pool@, block_locs@).flatten(),
                time_span.start as int,
                time_span.end as int,
                time_step as int,
                gated,
                keep,
            ),
{
    let ghost blocks = blocks_at(pool@, block_locs@);
    let ghost begin = scan_start::<A>(time_span.start as int);
    let ghost end = time_span.end as int;
    let ghost step = time_step as int;
    let mut sweep = Sweep::<A>::begin(time_span.start);
    let mut b: usize = 0;
    assert(blocks.take(0) =~= Seq::<Seq<TraceEvent>>::empty());
    while b < block_locs.len() && !sweep.finished
        invariant
            located(pool@, block_locs@),
            blocks == blocks_at(pool@, block_locs@),
            b <= block_locs.len(),
            time_step > 0,
            end == time_span.end as int,
            step == time_step as int,
            sweep.wf(),
            forall|a: &A| #[trigger] event_filter.requires((a,)),
            forall|keep: spec_fn(A) -> bool| #[trigger]
                decided_by(keep, event_filter) ==> sweep.model() == scan_events(
                    blocks.take(b as int).flatten(),
                    begin,
                    end,
                    step,
                    gated,
                    keep,
                ),
        decreases block_locs.len() - b,
    {
        let block = &pool.blocks[block_locs[b] as usize];
        sweep.take_block(block.events(), time_span.end, time_step, gated, &event_filter);
        proof {
            let at = b as int;
            assert forall|keep: spec_fn(A) -> bool| #[trigger]
                decided_by(keep, event_filter) implies sweep.model() == scan_events(
                blocks.take(at + 1).flatten(),
                begin,
                end,
                step,
                gated,
                keep,
            ) by {
                assert(blocks.take(at + 1) =~= blocks.take(at).push(blocks[at]));
                blocks.take(at).lemma_flatten_push(blocks[at]);
                lemma_scan_concat(blocks.take(at).flatten(), blocks[at], begin, end, step, gated, keep);
            }
        }
        b += 1;
    }
    proof {
        let at = b as int;
        assert forall|keep: spec_fn(A) -> bool| #[trigger]
            decided_by(keep, event_filter) implies sweep.model() == scan_events(
            blocks.flatten(),
            begin,
            end,
            step,
            gated,
            keep,
        ) by {
            lemma_rest_is_dropped(blocks, at, sweep.model(), begin, end, step, gated, keep);
        }
    }
    sweep.finish(gated, &event_filter)
}

/// The buckets of the window that are not empty and that `event_filter` passes,
/// found by looking at every event.
pub fn aggregate_by_steps_unindexed<A, F>(
    pool: &BlockPool,
    block_locs: &[BlockIndex],
    time_span: Range<Nanos>,
    time_step: u64,
    event_filter: F,
) -> (out: Vec<A>) where A: Aggregate, F: Fn(&A) -> bool
    requires
        located(pool@, block_locs@),
        time_step > 0,
        forall|a: &A| #[trigger] event_filter.requires((a,)),
    ensures
        forall|keep: spec_fn(A) -> bool| #[trigger]
            decided_by(keep, event_filter) ==> out@ == steps_output::<A>(
                blocks_at(pool@, block_locs@).flatten(),
                time_span.start as int,
                time_span.end as int,
                time_step as int,
                true,
                keep,
            ),
{
    aggregate_by_steps_unindexed_with_gate(
        pool,
        block_locs,
        time_span,
        time_step,
        true,
        event_filter,
    )
}

/// A sweep that has taken the first `at` blocks and then either is finished or
/// has no block left has taken them all.
proof fn lemma_rest_is_dropped<A: Aggregate>(
    blocks: Seq<Seq<TraceEvent>>,
    at: int,
    state: Scan<A>,
    begin: Scan<A>,
    end: int,
    step: int,
    gated: bool,
    keep: spec_fn(A) -> bool,
)
    requires
        0 <= at <= blocks.len(),
        state == scan_events(blocks.take(at).flatten(), begin, end, step, gated, keep),
        state.done || at == blocks.len(),
    ensures
        state == scan_events(blocks.flatten(), begin, end, step, gated, keep),
{
    assert(blocks =~= blocks.take(at) + blocks.skip(at));
    lemma_flatten_concat(blocks.take(at), blocks.skip(at));
    lemma_scan_concat(
        blocks.take(at).flatten(),
        blocks.skip(at).flatten(),
        begin,
        end,
        step,
        gated,
        keep,
    );
    if state.done {
        lemma_scan_done(blocks.skip(at).flatten(), state, end, step, gated, keep);
    } else {
        assert(blocks.skip(at) =~= Seq::<Seq<TraceEvent>>::empty());
    }
}

/// How many of the blocks `block_locations[from..]` start before `target`: the
/// place of the first that does not among them.
pub fn blocks_before(
    pool: &BlockPool,
    block_locations: &[BlockIndex],
    from: usize,
    target: Nanos,
) -> (count: usize)
    requires
        located(pool@, block_locations@),
        all_nonempty(blocks_at(pool@, block_locations@)),
        ascending(blocks_at(pool@, block_locations@).flatten()),
        from <= block_locations@.len(),
    ensures
        from + count <= block_locations@.len(),
        forall|j: int|
            from <= j < from + count ==> (#[trigger] blocks_at(
                pool@,
                block_locations@,
            )[j])[0].time() < target,
        forall|j: int|
            from + count <= j < block_locations@.len() ==> (#[trigger] blocks_at(
                pool@,
                block_locations@,
            )[j])[0].time() >= target,
{
    let ghost blocks = blocks_at(pool@, block_locations@);
    let mut low = from;
    let mut high = block_locations.len();
    while low < high
        invariant
            located(pool@, block_locations@),
            blocks == blocks_at(pool@, block_locations@),
            all_nonempty(blocks),
            ascending(blocks.flatten()),
            from <= low <= high <= block_locations@.len(),
            forall|j: int| from <= j < low ==> (#[trigger] blocks[j])[0].time() < target,
            forall|j: int|
                high <= j < block_locations@.len() ==> (#[trigger] blocks[j])[0].time() >= target,
        decreases high - low,
    {
        let mid = low + (high - low) / 2;
        let idx = block_locations[mid];
        assert(blocks[mid as int] == pool@[idx as int]);
        let start = pool.blocks[idx as usize].start_time();
        if start < target {
            proof {
                assert forall|j: int| from <= j < mid + 1 implies (#[trigger] blocks[j])[0].time()
                    < target by {
                    lemma_starts_ascend(blocks, j, mid as int);
                }
            }
            low = mid + 1;
        } else {
            proof {
                assert forall|j: int| mid <= j < block_locations@.len() implies (
                #[trigger] blocks[j])[0].time() >= target by {
                    lemma_starts_ascend(blocks, mid as int, j);
                }
            }
            high = mid;
        }
    }
    low - from
}

/// The buckets of the window `time_span`, cut into steps of `time_step`, over
/// the events of the blocks `block_locations`: the same buckets as
/// [`aggregate_by_steps_unindexed_with_gate`] gives, found faster. Runs of whole
/// blocks that lie before the end of the open bucket are taken from `index`;
/// only the block that may reach that end is looked at event by event.
pub fn aggregate_by_steps_with_gate<A, F>(
    pool: &BlockPool,
    block_locations: &[BlockIndex],
    index: &IForestIndex<A>,
    time_span: Range<Nanos>,
    time_step: u64,
    gated: bool,
    event_filter: F,
) -> (out: Vec<A>) where A: Aggregate, F: Fn(&A) -> bool
    requires
        located(pool@, block_locations@),
        all_nonempty(blocks_at(pool@, block_locations@)),
        ascending(blocks_at(pool@, block_locations@).flatten()),
        index.wf(),
        index.leaves() == summaries::<A>(blocks_at(pool@, block_locations@)),
        time_step > 0,
        forall|a: &A| #[trigger] event_filter.requires((a,)),
    ensures
        forall|keep: spec_fn(A) -> bool| #[trigger]
            decided_by(keep, event_filter) ==> out@ == steps_output::<A>(
                blocks_at(pool@, block_locations@).flatten(),
                time_span.start as int,
                time_span.end as int,
                time_step as int,
                gated,
                keep,
            ),
{
    let ghost blocks = blocks_at(pool@, block_locations@);
    let ghost begin = scan_start::<A>(time_span.start as int);
    let ghost end = time_span.end as int;
    let ghost step = time_step as int;
    let mut sweep = Sweep::<A>::begin(time_span.start);
    let mut block_idx: usize = 0;
    assert(blocks.take(0) =~= Seq::<Seq<TraceEvent>>::empty());
    while block_idx < block_locations.len() && !sweep.finished
        invariant
            located(pool@, block_locations@),
            blocks == blocks_at(pool@, block_locations@),
            all_nonempty(blocks),
            ascending(blocks.flatten()),
            index.wf(),
            index.leaves() == summaries::<A>(blocks),
            block_idx <= block_locations.len(),
            time_step > 0,
            end == time_span.end as int,
            step == time_step as int,
            sweep.wf(),
            forall|a: &A| #[trigger] event_filter.requires((a,)),
            forall|keep: spec_fn(A) -> bool| #[trigger]
                decided_by(keep, event_filter) ==> sweep.model() == scan_events(
                    blocks.take(block_idx as int).flatten(),
                    begin,
                    end,
                    step,
                    gated,
                    keep,
                ),
        decreases block_locations.len() - block_idx,
    {
        // Skip to the last block that starts before the end of the open bucket.
        let search_result = blocks_before(pool, block_locations, block_idx, sweep.target_time);
        if search_result > 1 {
            let skip = search_result - 1;
            let ghost first = block_idx as int;
            let ghost skipped = blocks.subrange(first, first + skip);
            let ghost before = sweep.model();

            // Aggregate the skipped blocks using the index.
            sweep.combined =
            A::join(&sweep.combined, &index.range_query(block_idx..(block_idx + skip)));
            block_idx += skip;

            proof {
                // Every skipped block ends before the block behind it starts, and
                // that block starts before the end of the open bucket.
                assert forall|j: int, x: int|
                    0 <= j < skipped.len() && 0 <= x < skipped[j].len() implies (
                #[trigger] skipped[j][x]).time() < before.target by {
                    lemma_before_later_block(blocks, first + j, x, first + skip);
                    assert(blocks[first + skip][0].time() < sweep.target_time);
                    blocks[first + skip][0].timestamp.lemma_range();
                }
                assert(summaries::<A>(skipped) =~= index.leaves().subrange(first, first + skip));
                assert(blocks.take(first + skip) =~= blocks.take(first) + skipped);
                lemma_flatten_concat(blocks.take(first), skipped);
                assert forall|keep: spec_fn(A) -> bool| #[trigger]
                    decided_by(keep, event_filter) implies sweep.model() == scan_events(
                    blocks.take(first + skip).flatten(),
                    begin,
                    end,
                    step,
                    gated,
                    keep,
                ) by {
                    lemma_scan_quiet_blocks(skipped, before, end, step, gated, keep);
                    lemma_scan_concat(
                        blocks.take(first).flatten(),
                        skipped.flatten(),
                        begin,
                        end,
                        step,
                        gated,
                        keep,
                    );
                }
            }
        }
        let block = &pool.blocks[block_locations[block_idx] as usize];
        sweep.take_block(block.events(), time_span.end, time_step, gated, &event_filter);
        proof {
            let at = block_idx as int;
            assert forall|keep: spec_fn(A) -> bool| #[trigger]
                decided_by(keep, event_filter) implies sweep.model() == scan_events(
                blocks.take(at + 1).flatten(),
                begin,
                end,
                step,
                gated,
                keep,
            ) by {
                assert(blocks.take(at + 1) =~= blocks.take(at).push(blocks[at]));
                blocks.take(at).lemma_flatten_push(blocks[at]);
                lemma_scan_concat(blocks.take(at).flatten(), blocks[at], begin, end, step, gated, keep);
            }
        }

        block_idx += 1;
    }
    proof {
        let at = block_idx as int;
        assert forall|keep: spec_fn(A) -> bool| #[trigger]
            decided_by(keep, event_filter) implies sweep.model() == scan_events(
            blocks.flatten(),
            begin,
            end,
            step,
            gated,
            keep,
        ) by {
            lemma_rest_is_dropped(blocks, at, sweep.model(), begin, end, step, gated, keep);
        }
    }
    sweep.finish(gated, &event_filter)
}

/// The buckets of the window that are not empty and that `event_filter` passes:
/// the same as [`aggregate_by_steps_unindexed`] gives, found with the index.
pub fn aggregate_by_steps<A, F>(
    pool: &BlockPool,
    block_locations: &[BlockIndex],
    index: &IForestIndex<A>,
    time_span: Range<Nanos>,
    time_step: u64,
    event_filter: F,
) -> (out: Vec<A>) where A: Aggregate, F: Fn(&A) -> bool
    requires
        located(pool@, block_locations@),
        all_nonempty(blocks_at(pool@, block_locations@)),
        ascending(blocks_at(pool@, block_locations@).flatten()),
        index.wf(),
        index.leaves() == summaries::<A>(blocks_at(pool@, block_locations@)),
        time_step > 0,
        forall|a: &A| #[trigger] event_filter.requires((a,)),
    ensures
        forall|keep: spec_fn(A) -> bool| #[trigger]
            decided_by(keep, event_filter) ==> out@ == steps_output::<A>(
                blocks_at(pool@, block_locations@).flatten(),
                time_span.start as int,
                time_span.end as int,
                time_step as int,
                true,
                keep,
            ),
{
    aggregate_by_steps_with_gate(
        pool,
        block_locations,
        index,
        time_span,
        time_step,
        true,
        event_filter,
    )
}

/// The two drivers agree: whatever they return for one window, gate and filter
/// over the events of one track is the same sequence of buckets.
pub proof fn lemma_drivers_agree<A: Aggregate, F: Fn(&A) -> bool>(
    indexed: Seq<A>,
    unindexed: Seq<A>,
    events: Seq<TraceEvent>,
    start: int,
    end: int,
    step: int,
    gated: bool,
    event_filter: F,
    keep: spec_fn(A) -> bool,
)
    requires
        decided_by(keep, event_filter),
        forall|k: spec_fn(A) -> bool| #[trigger]
            decided_by(k, event_filter) ==> indexed == steps_output::<A>(
                events,
                start,
                end,
                step,
                gated,
                k,
            ),
        forall|k: spec_fn(A) -> bool| #[trigger]
            decided_by(k, event_filter) ==> unindexed == steps_output::<A>(
                events,
                start,
                end,
                step,
                gated,
                k,
            ),
    ensures
        indexed == unindexed,
{
}

/// A track together with the index that the timeline view zooms by.
#[derive(Debug)]
pub struct TrackInfo {
    pub track: Track,
    pub zoom_index: IForestIndex<LongestEvent>,
}

impl TrackInfo {
    pub fn new(track: Track, zoom_index: IForestIndex<LongestEvent>) -> (info: Self)
        ensures
            info.track == track,
            info.zoom_index == zoom_index,
    {
        Self { track, zoom_index }
    }
}

/// A whole trace: the pool of blocks and the tracks that share it.
#[derive(Debug)]
pub struct Trace {
    pub pool: BlockPool,
    pub tracks: Vec<TrackInfo>,
}

/// The earliest start among the tracks that have events.
pub open spec fn earliest_start(tracks: Seq<Seq<TraceEvent>>) -> Option<int>
    decreases tracks.len(),
{
    if tracks.len() == 0 {
        None
    } else {
        let before = earliest_start(tracks.drop_last());
        let track = tracks.last();
        if track.len() == 0 {
            before
        } else if before is Some && before->0 <= track.first().time() {
            before
        } else {
            Some(track.first().time())
        }
    }
}

/// The latest moment at which the last event of a track is over, among the
/// tracks that have events.
pub open spec fn latest_end(tracks: Seq<Seq<TraceEvent>>) -> Option<int>
    decreases tracks.len(),
{
    if tracks.len() == 0 {
        None
    } else {
        let before = latest_end(tracks.drop_last());
        let track = tracks.last();
        if track.len() == 0 {
            before
        } else if before is Some && before->0 >= track.last().end() {
            before
        } else {
            Some(track.last().end())
        }
    }
}

/// The earliest start is the start of a track with events, and no such track
/// starts earlier; there is none only if no track has events. The same holds
/// of the latest end.
pub proof fn lemma_bounds_are_extremes(tracks: Seq<Seq<TraceEvent>>)
    ensures
        earliest_start(tracks) is None <==> forall|i: int|
            0 <= i < tracks.len() ==> (#[trigger] tracks[i]).len() == 0,
        latest_end(tracks) is None <==> earliest_start(tracks) is None,
        earliest_start(tracks) is Some ==> {
            &&& exists|i: int|
                0 <= i < tracks.len() && (#[trigger] tracks[i]).len() > 0
                    && tracks[i].first().time() == earliest_start(tracks)->0
            &&& forall|i: int|
                0 <= i < tracks.len() && (#[trigger] tracks[i]).len() > 0 ==> earliest_start(
                    tracks,
                )->0 <= tracks[i].first().time()
        },
        latest_end(tracks) is Some ==> {
            &&& exists|i: int|
                0 <= i < tracks.len() && (#[trigger] tracks[i]).len() > 0
                    && tracks[i].last().end() == latest_end(tracks)->0
            &&& forall|i: int|
                0 <= i < tracks.len() && (#[trigger] tracks[i]).len() > 0 ==> latest_end(tracks)->0
                    >= tracks[i].last().end()
        },
    decreases tracks.len(),
{
    if tracks.len() > 0 {
        let front = tracks.drop_last();
        let n = tracks.len() - 1;
        lemma_bounds_are_extremes(front);
        assert forall|i: int| 0 <= i < n implies front[i] == tracks[i] by {}
        if earliest_start(front) is Some {
            let i = choose|i: int|
                0 <= i < front.len() && (#[trigger] front[i]).len() > 0 && front[i].first().time()
                    == earliest_start(front)->0;
            assert(tracks[i] == front[i]);
        }
        if latest_end(front) is Some {
            let i = choose|i: int|
                0 <= i < front.len() && (#[trigger] front[i]).len() > 0 && front[i].last().end()
                    == latest_end(front)->0;
            assert(tracks[i] == front[i]);
        }
        if tracks[n].len() > 0 {
            assert(tracks[n].first().time() == tracks.last().first().time());
        }
        assert forall|i: int| 0 <= i < tracks.len() && (#[trigger] tracks[i]).len() > 0
            && earliest_start(tracks) is Some implies earliest_start(tracks)->0
            <= tracks[i].first().time() by {
            if i < n {
                assert(front[i] == tracks[i]);
            }
        }
        assert forall|i: int| 0 <= i < tracks.len() && (#[trigger] tracks[i]).len() > 0
            && latest_end(tracks) is Some implies latest_end(tracks)->0
            >= tracks[i].last().end() by {
            if i < n {
                assert(front[i] == tracks[i]);
            }
        }
        if earliest_start(tracks) is None {
            assert forall|i: int| 0 <= i < tracks.len() implies (#[trigger] tracks[i]).len()
                == 0 by {
                if i < n {
                    assert(front[i] == tracks[i]);
                }
            }
        }
    }
}

impl Trace {
    /// The events of each track, in the order of the tracks.
    pub open spec fn track_events(&self) -> Seq<Seq<TraceEvent>> {
        Seq::new(self.tracks@.len(), |i: int| self.tracks@[i].track.event_seq(&self.pool))
    }

    /// Whether every track fits the pool.
    pub open spec fn wf(&self) -> bool {
        forall|i: int| 0 <= i < self.tracks@.len() ==> (#[trigger] self.tracks@[i]).track.wf(
            &self.pool,
        )
    }

    /// Whether the index of every track covers the blocks of the track.
    pub open spec fn indexed(&self) -> bool {
        forall|i: int|
            0 <= i < self.tracks@.len() ==> {
                &&& (#[trigger] self.tracks@[i]).zoom_index.wf()
                &&& self.tracks@[i].zoom_index.leaves() == summaries::<LongestEvent>(
                    self.tracks@[i].track.blocks(&self.pool),
                )
            }
    }

    /// A trace without blocks and tracks.
    pub fn new() -> (trace: Self)
        ensures
            trace.pool@ == Seq::<Seq<TraceEvent>>::empty(),
            trace.tracks@ == Seq::<TrackInfo>::empty(),
            trace.wf(),
            trace.indexed(),
    {
        Trace { pool: BlockPool::new(), tracks: Vec::new() }
    }

    /// The span of time that the trace covers: from the earliest start of a
    /// track to the latest end of one. There is none while no track has events.
    pub fn time_bounds(&self) -> (bounds: Option<Range<Nanos>>)
        requires
            self.wf(),
        ensures
            earliest_start(self.track_events()) is None ==> bounds is None,
            earliest_start(self.track_events()) is Some ==> bounds is Some && bounds->0.start
                == earliest_start(self.track_events())->0 && bounds->0.end == latest_end(
                self.track_events(),
            )->0,
    {
        let ghost all = self.track_events();
        let mut start: Option<Nanos> = None;
        let mut end: Option<Nanos> = None;
        let mut i: usize = 0;
        assert(all.take(0) =~= Seq::<Seq<TraceEvent>>::empty());
        while i < self.tracks.len()
            invariant
                self.wf(),
                all == self.track_events(),
                i <= self.tracks.len(),
                start is None <==> earliest_start(all.take(i as int)) is None,
                start is Some ==> start->0 == earliest_start(all.take(i as int))->0,
                end is None <==> latest_end(all.take(i as int)) is None,
                end is Some ==> end->0 == latest_end(all.take(i as int))->0,
            decreases self.tracks.len() - i,
        {
            let track = &self.tracks[i].track;
            proof {
                assert(self.tracks@[i as int].track.wf(&self.pool));
                assert(all.take(i + 1).drop_last() =~= all.take(i as int));
                assert(all.take(i + 1).last() == track.event_seq(&self.pool));
                if track.event_seq(&self.pool).len() > 0 {
                    track.event_seq(&self.pool).first().timestamp.lemma_range();
                    track.event_seq(&self.pool).last().timestamp.lemma_range();
                    track.event_seq(&self.pool).last().duration.lemma_range();
                }
            }
            match track.start_time(&self.pool) {
                Some(first) => {
                    start = match start {
                        Some(least) if least <= first => Some(least),
                        _ => Some(first),
                    };
                },
                None => {},
            }
            match track.after_last_time(&self.pool) {
                Some(last) => {
                    end = match end {
                        Some(most) if most >= last => Some(most),
                        _ => Some(last),
                    };
                },
                None => {},
            }
            i += 1;
        }
        proof {
            assert(all.take(i as int) =~= all);
            lemma_bounds_are_extremes(all);
        }
        match (start, end) {
            (Some(start), Some(end)) => Some(start..end),
            (_, _) => None,
        }
    }
}

impl Default for Trace {
    fn default() -> (trace: Self)
        ensures
            trace.wf(),
    {
        Self::new()
    }
}

} // verus!
