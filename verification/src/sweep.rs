//! What a sweep over the events of a track emits, bucket by bucket: the
//! mathematical model that the drivers are held to, and the running state that
//! they share.

use crate::index::{
    join_all, lemma_summary_concat, lemma_summary_of_blocks, summaries, summary, Aggregate,
    AggregateModel,
};
use crate::trace::{ascending, Nanos, TraceEvent};
use vstd::prelude::*;
use vstd::seq_lib::lemma_flatten_concat;

verus! {

/// Where a sweep over the events of a track stands.
pub ghost struct Scan<A> {
    /// The end of the bucket that is being filled.
    pub target: int,
    /// The aggregate of the events seen since the last bucket was closed.
    pub acc: A,
    /// The buckets emitted so far.
    pub out: Seq<A>,
    /// Whether the sweep has passed the end of the window.
    pub done: bool,
}

/// Whether a closed bucket with aggregate `produced` is emitted: `keep` has to
/// pass it and, where `gated`, it must not be empty.
pub open spec fn passes<A: AggregateModel>(
    produced: A,
    gated: bool,
    keep: spec_fn(A) -> bool,
) -> bool {
    (!gated || produced != A::nothing()) && keep(produced)
}

/// The output after a bucket with aggregate `produced` is closed.
pub open spec fn emitted<A: AggregateModel>(
    out: Seq<A>,
    produced: A,
    gated: bool,
    keep: spec_fn(A) -> bool,
) -> Seq<A> {
    if passes(produced, gated, keep) {
        out.push(produced)
    } else {
        out
    }
}

/// Closes every bucket that ends at or before `time`. The bucket that ends at or
/// after `end` is the last one: closing it finishes the sweep.
pub open spec fn close_buckets<A: AggregateModel>(
    s: Scan<A>,
    time: int,
    end: int,
    step: int,
    gated: bool,
    keep: spec_fn(A) -> bool,
) -> Scan<A>
    decreases
        (if time >= s.target {
            time - s.target + 1
        } else {
            0
        }),
{
    if s.done || time < s.target || step <= 0 {
        s
    } else {
        let out = emitted(s.out, s.acc, gated, keep);
        if s.target >= end {
            Scan { target: s.target, acc: A::nothing(), out, done: true }
        } else {
            close_buckets(
                Scan { target: s.target + step, acc: A::nothing(), out, done: false },
                time,
                end,
                step,
                gated,
                keep,
            )
        }
    }
}

/// Takes one event into the sweep: closes the buckets that end at or before it,
/// then adds it to the bucket that is open.
pub open spec fn take_event<A: AggregateModel>(
    s: Scan<A>,
    event: TraceEvent,
    end: int,
    step: int,
    gated: bool,
    keep: spec_fn(A) -> bool,
) -> Scan<A> {
    let closed = close_buckets(s, event.time(), end, step, gated, keep);
    if closed.done {
        closed
    } else {
        Scan { acc: closed.acc.joined(A::of_event(event)), ..closed }
    }
}

/// Takes `events` into the sweep, one after the other.
pub open spec fn scan_events<A: AggregateModel>(
    events: Seq<TraceEvent>,
    s: Scan<A>,
    end: int,
    step: int,
    gated: bool,
    keep: spec_fn(A) -> bool,
) -> Scan<A>
    decreases events.len(),
{
    if events.len() == 0 {
        s
    } else {
        take_event(
            scan_events(events.drop_last(), s, end, step, gated, keep),
            events.last(),
            end,
            step,
            gated,
            keep,
        )
    }
}

/// The state in which a sweep over the window that starts at `start` begins.
pub open spec fn scan_start<A: AggregateModel>(start: int) -> Scan<A> {
    Scan { target: start, acc: A::nothing(), out: Seq::empty(), done: false }
}

/// What is emitted when the events have run out: a sweep that is not finished
/// closes the bucket that is open.
pub open spec fn scan_result<A: AggregateModel>(
    s: Scan<A>,
    gated: bool,
    keep: spec_fn(A) -> bool,
) -> Seq<A> {
    if s.done {
        s.out
    } else {
        emitted(s.out, s.acc, gated, keep)
    }
}

/// The buckets that a sweep over `events` emits for the window `start..end` cut
/// into buckets of width `step`.
///
/// The first bucket holds what lies before `start`; each later bucket holds the
/// events of one step. A bucket is closed when an event at or after its end
/// arrives. The bucket whose end is at or after `end` is the last to be closed
/// that way; what follows it is dropped. If the events run out first, the open
/// bucket is closed as well.
pub open spec fn steps_output<A: AggregateModel>(
    events: Seq<TraceEvent>,
    start: int,
    end: int,
    step: int,
    gated: bool,
    keep: spec_fn(A) -> bool,
) -> Seq<A> {
    scan_result(scan_events(events, scan_start::<A>(start), end, step, gated, keep), gated, keep)
}

/// Whether `keep` is what `event_filter` computes: whatever the filter can
/// answer for an aggregate is what `keep` says of it.
///
/// The drivers state their result for every such `keep`. A caller names the
/// predicate that its filter was written to compute, and learns what comes out.
pub open spec fn decided_by<A, F: Fn(&A) -> bool>(keep: spec_fn(A) -> bool, event_filter: F) -> bool {
    forall|a: &A, answer: bool| #[trigger]
        event_filter.ensures((a,), answer) ==> answer == keep(*a)
}

/// A sweep that is finished takes no more events.
pub proof fn lemma_scan_done<A: AggregateModel>(
    events: Seq<TraceEvent>,
    s: Scan<A>,
    end: int,
    step: int,
    gated: bool,
    keep: spec_fn(A) -> bool,
)
    requires
        s.done,
    ensures
        scan_events(events, s, end, step, gated, keep) == s,
    decreases events.len(),
{
    if events.len() > 0 {
        lemma_scan_done(events.drop_last(), s, end, step, gated, keep);
    }
}

/// Sweeping over two runs of events is sweeping over the first and going on
/// with the second.
pub proof fn lemma_scan_concat<A: AggregateModel>(
    first: Seq<TraceEvent>,
    second: Seq<TraceEvent>,
    s: Scan<A>,
    end: int,
    step: int,
    gated: bool,
    keep: spec_fn(A) -> bool,
)
    ensures
        scan_events(first + second, s, end, step, gated, keep) == scan_events(
            second,
            scan_events(first, s, end, step, gated, keep),
            end,
            step,
            gated,
            keep,
        ),
    decreases second.len(),
{
    if second.len() == 0 {
        assert(first + second =~= first);
    } else {
        assert((first + second).drop_last() =~= first + second.drop_last());
        lemma_scan_concat(first, second.drop_last(), s, end, step, gated, keep);
    }
}

/// Events that all lie before the end of the open bucket close no bucket: they
/// are added to it.
pub proof fn lemma_scan_quiet<A: AggregateModel>(
    events: Seq<TraceEvent>,
    s: Scan<A>,
    end: int,
    step: int,
    gated: bool,
    keep: spec_fn(A) -> bool,
)
    requires
        !s.done,
        forall|x: int| 0 <= x < events.len() ==> (#[trigger] events[x]).time() < s.target,
    ensures
        scan_events(events, s, end, step, gated, keep) == (Scan {
            acc: s.acc.joined(summary::<A>(events)),
            ..s
        }),
    decreases events.len(),
{
    if events.len() == 0 {
        A::lemma_join_identity(s.acc);
    } else {
        let front = events.drop_last();
        assert forall|x: int| 0 <= x < front.len() implies (#[trigger] front[x]).time()
            < s.target by {
            assert(front[x] == events[x]);
        }
        lemma_scan_quiet(front, s, end, step, gated, keep);
        assert(events.last() == events[events.len() - 1]);
        A::lemma_join_associative(s.acc, summary::<A>(front), A::of_event(events.last()));
    }
}

/// Blocks whose events all lie before the end of the open bucket add the join
/// of their summaries to it.
pub proof fn lemma_scan_quiet_blocks<A: AggregateModel>(
    blocks: Seq<Seq<TraceEvent>>,
    s: Scan<A>,
    end: int,
    step: int,
    gated: bool,
    keep: spec_fn(A) -> bool,
)
    requires
        !s.done,
        forall|j: int, x: int|
            0 <= j < blocks.len() && 0 <= x < blocks[j].len() ==> (#[trigger] blocks[j][x]).time()
                < s.target,
    ensures
        scan_events(blocks.flatten(), s, end, step, gated, keep) == (Scan {
            acc: s.acc.joined(join_all(summaries::<A>(blocks))),
            ..s
        }),
    decreases blocks.len(),
{
    lemma_summary_of_blocks::<A>(blocks);
    if blocks.len() == 0 {
        A::lemma_join_identity(s.acc);
    } else {
        let front = blocks.drop_last();
        let last = blocks.last();
        assert forall|j: int, x: int| 0 <= j < front.len() && 0 <= x < front[j].len() implies (
        #[trigger] front[j][x]).time() < s.target by {
            assert(front[j][x] == blocks[j][x]);
        }
        lemma_scan_quiet_blocks(front, s, end, step, gated, keep);
        lemma_summary_of_blocks::<A>(front);
        let mid = scan_events(front.flatten(), s, end, step, gated, keep);
        assert forall|x: int| 0 <= x < last.len() implies (#[trigger] last[x]).time()
            < mid.target by {
            assert(last[x] == blocks[blocks.len() - 1][x]);
        }
        lemma_scan_quiet(last, mid, end, step, gated, keep);
        assert(blocks =~= front.push(last));
        front.lemma_flatten_push(last);
        lemma_scan_concat(front.flatten(), last, s, end, step, gated, keep);
        lemma_summary_concat::<A>(front.flatten(), last);
        A::lemma_join_associative(s.acc, summary::<A>(front.flatten()), summary::<A>(last));
    }
}

/// Where the events of block `j` lie among the events of all blocks: behind
/// those of the blocks before it.
pub proof fn lemma_flat_position(blocks: Seq<Seq<TraceEvent>>, j: int, x: int)
    requires
        0 <= j < blocks.len(),
        0 <= x < blocks[j].len(),
    ensures
        blocks.take(j).flatten().len() + x < blocks.flatten().len(),
        blocks.flatten()[blocks.take(j).flatten().len() + x] == blocks[j][x],
        blocks.take(j + 1).flatten().len() == blocks.take(j).flatten().len() + blocks[j].len(),
{
    assert(blocks =~= blocks.take(j) + blocks.skip(j));
    lemma_flatten_concat(blocks.take(j), blocks.skip(j));
    let rest = blocks.skip(j);
    assert(rest.first() == blocks[j]);
    assert(rest.flatten() =~= rest.first() + rest.drop_first().flatten());
    assert(blocks.take(j + 1) =~= blocks.take(j).push(blocks[j]));
    blocks.take(j).lemma_flatten_push(blocks[j]);
}

/// The events before block `k` are at least as many as those before block `j`
/// for `j <= k`.
proof fn lemma_flat_offsets(blocks: Seq<Seq<TraceEvent>>, j: int, k: int)
    requires
        0 <= j <= k <= blocks.len(),
    ensures
        blocks.take(j).flatten().len() <= blocks.take(k).flatten().len(),
    decreases k - j,
{
    if j < k {
        assert(blocks.take(k) =~= blocks.take(k - 1).push(blocks[k - 1]));
        blocks.take(k - 1).lemma_flatten_push(blocks[k - 1]);
        lemma_flat_offsets(blocks, j, k - 1);
    }
}

/// In a track in ascending order, no event of a block is later than the start
/// of a block behind it.
pub proof fn lemma_before_later_block(blocks: Seq<Seq<TraceEvent>>, j: int, x: int, k: int)
    requires
        ascending(blocks.flatten()),
        0 <= j < k < blocks.len(),
        0 <= x < blocks[j].len(),
        blocks[k].len() > 0,
    ensures
        blocks[j][x].time() <= blocks[k][0].time(),
{
    lemma_flat_position(blocks, j, x);
    lemma_flat_position(blocks, k, 0);
    lemma_flat_offsets(blocks, j + 1, k);
}

/// In a track in ascending order whose blocks are not empty, the blocks' start
/// times ascend too.
pub proof fn lemma_starts_ascend(blocks: Seq<Seq<TraceEvent>>, j: int, k: int)
    requires
        ascending(blocks.flatten()),
        0 <= j <= k < blocks.len(),
        blocks[j].len() > 0,
        blocks[k].len() > 0,
    ensures
        blocks[j][0].time() <= blocks[k][0].time(),
{
    if j < k {
        lemma_before_later_block(blocks, j, 0, k);
    }
}

/// The filter that passes every bucket.
pub open spec fn keep_all<A>() -> spec_fn(A) -> bool {
    |a: A| true
}

/// Whether a bucket is emitted, as a predicate on its aggregate.
pub open spec fn passing<A: AggregateModel>(gated: bool, keep: spec_fn(A) -> bool) -> spec_fn(
    A,
) -> bool {
    |a: A| passes(a, gated, keep)
}

/// Whether `s` is the sweep `full` with the buckets left out that do not pass.
spec fn thinned<A: AggregateModel>(
    s: Scan<A>,
    full: Scan<A>,
    gated: bool,
    keep: spec_fn(A) -> bool,
) -> bool {
    &&& s.target == full.target
    &&& s.acc == full.acc
    &&& s.done == full.done
    &&& s.out == full.out.filter(passing(gated, keep))
}

proof fn lemma_close_thinned<A: AggregateModel>(
    s: Scan<A>,
    full: Scan<A>,
    time: int,
    end: int,
    step: int,
    gated: bool,
    keep: spec_fn(A) -> bool,
)
    requires
        thinned(s, full, gated, keep),
    ensures
        thinned(
            close_buckets(s, time, end, step, gated, keep),
            close_buckets(full, time, end, step, false, keep_all()),
            gated,
            keep,
        ),
    decreases
        (if time >= s.target {
            time - s.target + 1
        } else {
            0
        }),
{
    if !(s.done || time < s.target || step <= 0) {
        full.out.lemma_filter_push(full.acc, passing(gated, keep));
        if s.target < end {
            lemma_close_thinned(
                Scan {
                    target: s.target + step,
                    acc: A::nothing(),
                    out: emitted(s.out, s.acc, gated, keep),
                    done: false,
                },
                Scan {
                    target: full.target + step,
                    acc: A::nothing(),
                    out: emitted(full.out, full.acc, false, keep_all()),
                    done: false,
                },
                time,
                end,
                step,
                gated,
                keep,
            );
        }
    }
}

proof fn lemma_scan_thinned<A: AggregateModel>(
    events: Seq<TraceEvent>,
    s: Scan<A>,
    full: Scan<A>,
    end: int,
    step: int,
    gated: bool,
    keep: spec_fn(A) -> bool,
)
    requires
        thinned(s, full, gated, keep),
    ensures
        thinned(
            scan_events(events, s, end, step, gated, keep),
            scan_events(events, full, end, step, false, keep_all()),
            gated,
            keep,
        ),
    decreases events.len(),
{
    if events.len() > 0 {
        lemma_scan_thinned(events.drop_last(), s, full, end, step, gated, keep);
        lemma_close_thinned(
            scan_events(events.drop_last(), s, end, step, gated, keep),
            scan_events(events.drop_last(), full, end, step, false, keep_all()),
            events.last().time(),
            end,
            step,
            gated,
            keep,
        );
    }
}

/// Gate and filter only leave buckets out: what a sweep emits is what the sweep
/// that emits every bucket emits, without the buckets that do not pass.
pub proof fn lemma_gate_filters<A: AggregateModel>(
    events: Seq<TraceEvent>,
    start: int,
    end: int,
    step: int,
    gated: bool,
    keep: spec_fn(A) -> bool,
)
    ensures
        steps_output(events, start, end, step, gated, keep) == steps_output(
            events,
            start,
            end,
            step,
            false,
            keep_all::<A>(),
        ).filter(passing(gated, keep)),
{
    let begin = scan_start::<A>(start);
    assert(begin.out.filter(passing(gated, keep)) == begin.out) by {
        reveal(Seq::filter);
    }
    lemma_scan_thinned(events, begin, begin, end, step, gated, keep);
    let full = scan_events(events, begin, end, step, false, keep_all());
    full.out.lemma_filter_push(full.acc, passing(gated, keep));
}

/// The events of `events` whose time lies in `lo..hi`, in order.
pub open spec fn events_between(events: Seq<TraceEvent>, lo: int, hi: int) -> Seq<TraceEvent>
    decreases events.len(),
{
    if events.len() == 0 {
        Seq::empty()
    } else if lo <= events.last().time() < hi {
        events_between(events.drop_last(), lo, hi).push(events.last())
    } else {
        events_between(events.drop_last(), lo, hi)
    }
}

/// Where bucket `k` of the grid ends: `k` steps behind `start`.
pub open spec fn bucket_end(start: int, step: int, k: int) -> int {
    start + k * step
}

/// Where bucket `k` of the grid starts: where the bucket before it ends. The
/// first bucket takes all that lies before `start`.
pub open spec fn bucket_start(start: int, step: int, k: int) -> int {
    if k <= 0 {
        0
    } else {
        bucket_end(start, step, k - 1)
    }
}

/// The events of `events` that fall into bucket `k` of the grid.
pub open spec fn bucket_events(events: Seq<TraceEvent>, start: int, step: int, k: int) -> Seq<
    TraceEvent,
> {
    events_between(events, bucket_start(start, step, k), bucket_end(start, step, k))
}

proof fn lemma_bucket_ends_ascend(start: int, step: int, j: int, k: int)
    requires
        step > 0,
        j <= k,
    ensures
        bucket_end(start, step, j) <= bucket_end(start, step, k),
        bucket_end(start, step, k + 1) == bucket_end(start, step, k) + step,
{
    assert(j * step <= k * step && (k + 1) * step == k * step + step) by (nonlinear_arith)
        requires
            step > 0,
            j <= k,
    ;
}

/// No event before `lo` lies in `lo..hi`.
proof fn lemma_none_between(events: Seq<TraceEvent>, lo: int, hi: int)
    requires
        forall|x: int| 0 <= x < events.len() ==> (#[trigger] events[x]).time() < lo,
    ensures
        events_between(events, lo, hi) == Seq::<TraceEvent>::empty(),
    decreases events.len(),
{
    if events.len() > 0 {
        let front = events.drop_last();
        assert forall|x: int| 0 <= x < front.len() implies (#[trigger] front[x]).time() < lo by {
            assert(front[x] == events[x]);
        }
        lemma_none_between(front, lo, hi);
        assert(events.last() == events[events.len() - 1]);
    }
}

/// Whether a sweep that emits every bucket, having taken the events `seen`,
/// stands on the grid: bucket `k` of the output holds the events of bucket `k`
/// of the grid, and so does the open bucket.
spec fn on_grid<A: AggregateModel>(seen: Seq<TraceEvent>, s: Scan<A>, start: int, step: int) -> bool {
    let m = s.out.len() as int;
    &&& forall|k: int|
        0 <= k < m ==> #[trigger] s.out[k] == summary::<A>(bucket_events(seen, start, step, k))
    &&& if s.done {
        &&& m >= 1
        &&& s.target == bucket_end(start, step, m - 1)
        &&& seen.len() > 0
        &&& seen.last().time() >= s.target
    } else {
        &&& s.target == bucket_end(start, step, m)
        &&& s.acc == summary::<A>(bucket_events(seen, start, step, m))
        &&& forall|x: int| 0 <= x < seen.len() ==> (#[trigger] seen[x]).time() < s.target
        &&& m >= 1 ==> seen.len() > 0 && seen.last().time() >= bucket_start(start, step, m)
    }
}

/// What closing the buckets before an event at `time` leaves: the output on the
/// grid, and the event inside the bucket that is open then, or behind the last
/// bucket if the sweep is finished.
spec fn closed_on_grid<A: AggregateModel>(
    seen: Seq<TraceEvent>,
    c: Scan<A>,
    time: int,
    start: int,
    step: int,
) -> bool {
    let m = c.out.len() as int;
    &&& forall|k: int|
        0 <= k < m ==> #[trigger] c.out[k] == summary::<A>(bucket_events(seen, start, step, k))
    &&& if c.done {
        &&& m >= 1
        &&& c.target == bucket_end(start, step, m - 1)
        &&& time >= c.target
    } else {
        &&& c.target == bucket_end(start, step, m)
        &&& c.acc == summary::<A>(bucket_events(seen, start, step, m))
        &&& forall|x: int| 0 <= x < seen.len() ==> (#[trigger] seen[x]).time() < c.target
        &&& bucket_start(start, step, m) <= time < c.target
    }
}

proof fn lemma_close_on_grid<A: AggregateModel>(
    seen: Seq<TraceEvent>,
    s: Scan<A>,
    time: int,
    start: int,
    end: int,
    step: int,
)
    requires
        step > 0,
        0 <= time,
        !s.done,
        s.target == bucket_end(start, step, s.out.len() as int),
        s.acc == summary::<A>(bucket_events(seen, start, step, s.out.len() as int)),
        forall|k: int|
            0 <= k < s.out.len() ==> #[trigger] s.out[k] == summary::<A>(
                bucket_events(seen, start, step, k),
            ),
        forall|x: int| 0 <= x < seen.len() ==> (#[trigger] seen[x]).time() < s.target,
        bucket_start(start, step, s.out.len() as int) <= time,
    ensures
        closed_on_grid(
            seen,
            close_buckets(s, time, end, step, false, keep_all::<A>()),
            time,
            start,
            step,
        ),
    decreases
        (if time >= s.target {
            time - s.target + 1
        } else {
            0
        }),
{
    let m = s.out.len() as int;
    if time >= s.target {
        let out = emitted(s.out, s.acc, false, keep_all::<A>());
        assert(out == s.out.push(s.acc));
        lemma_bucket_ends_ascend(start, step, m, m);
        if s.target < end {
            let next = Scan { target: s.target + step, acc: A::nothing(), out, done: false };
            lemma_none_between(
                seen,
                bucket_start(start, step, m + 1),
                bucket_end(start, step, m + 1),
            );
            lemma_close_on_grid(seen, next, time, start, end, step);
        }
    }
}

/// An event at or after the end of a span leaves the span's events as they are;
/// one inside the span is the last of them.
proof fn lemma_between_push(events: Seq<TraceEvent>, event: TraceEvent, lo: int, hi: int)
    ensures
        events_between(events.push(event), lo, hi) == if lo <= event.time() < hi {
            events_between(events, lo, hi).push(event)
        } else {
            events_between(events, lo, hi)
        },
{
    assert(events.push(event).drop_last() =~= events);
}

proof fn lemma_scan_on_grid<A: AggregateModel>(
    events: Seq<TraceEvent>,
    start: int,
    end: int,
    step: int,
)
    requires
        ascending(events),
        step > 0,
        0 <= start,
    ensures
        on_grid(
            events,
            scan_events(events, scan_start::<A>(start), end, step, false, keep_all::<A>()),
            start,
            step,
        ),
    decreases events.len(),
{
    let begin = scan_start::<A>(start);
    if events.len() == 0 {
        assert(bucket_end(start, step, 0) == start);
    } else {
        let seen = events.drop_last();
        let event = events.last();
        let time = event.time();
        assert(events =~= seen.push(event));
        assert(ascending(seen)) by {
            assert forall|i: int, j: int| 0 <= i <= j < seen.len() implies seen[i].time()
                <= seen[j].time() by {
                assert(seen[i] == events[i] && seen[j] == events[j]);
            }
        }
        if seen.len() > 0 {
            assert(seen.last() == events[seen.len() - 1]);
            assert(seen.last().time() <= time);
        }
        event.timestamp.lemma_range();
        lemma_scan_on_grid::<A>(seen, start, end, step);
        let s = scan_events(seen, begin, end, step, false, keep_all::<A>());
        let after = take_event(s, event, end, step, false, keep_all::<A>());
        let m = s.out.len() as int;
        if s.done {
            assert forall|k: int| 0 <= k < m implies #[trigger] after.out[k] == summary::<A>(
                bucket_events(events, start, step, k),
            ) by {
                lemma_bucket_ends_ascend(start, step, k, m - 1);
                lemma_between_push(
                    seen,
                    event,
                    bucket_start(start, step, k),
                    bucket_end(start, step, k),
                );
            }
        } else {
            lemma_close_on_grid(seen, s, time, start, end, step);
            let c = close_buckets(s, time, end, step, false, keep_all::<A>());
            let n = c.out.len() as int;
            assert forall|k: int| 0 <= k < n implies #[trigger] after.out[k] == summary::<A>(
                bucket_events(events, start, step, k),
            ) by {
                lemma_bucket_ends_ascend(start, step, k, n - 1);
                lemma_between_push(
                    seen,
                    event,
                    bucket_start(start, step, k),
                    bucket_end(start, step, k),
                );
            }
            if !c.done {
                lemma_between_push(
                    seen,
                    event,
                    bucket_start(start, step, n),
                    bucket_end(start, step, n),
                );
                assert forall|x: int| 0 <= x < events.len() implies (#[trigger] events[x]).time()
                    < after.target by {
                    if x < seen.len() {
                        assert(events[x] == seen[x]);
                    }
                }
                let inside = bucket_events(seen, start, step, n);
                assert(bucket_events(events, start, step, n) == inside.push(event));
                assert(inside.push(event).drop_last() =~= inside);
            }
        }
    }
}

/// The grid of buckets: of a track in ascending order, the sweep that emits
/// every bucket gives as its `k`-th value the summary of the events that start
/// at or after `start + (k - 1) * step` and before `start + k * step`; its first
/// value covers all that lies before `start`.
pub proof fn lemma_bucket_grid<A: AggregateModel>(
    events: Seq<TraceEvent>,
    start: int,
    end: int,
    step: int,
    k: int,
)
    requires
        ascending(events),
        step > 0,
        0 <= start,
        0 <= k < steps_output(events, start, end, step, false, keep_all::<A>()).len(),
    ensures
        steps_output(events, start, end, step, false, keep_all::<A>())[k] == summary::<A>(
            bucket_events(events, start, step, k),
        ),
{
    lemma_scan_on_grid::<A>(events, start, end, step);
}

/// The running state of a sweep.
pub(crate) struct Sweep<A> {
    /// The end of the open bucket, held back at the largest value once it
    /// lies beyond that: no timestamp reaches either.
    pub(crate) target_time: Nanos,
    pub(crate) combined: A,
    pub(crate) out: Vec<A>,
    pub(crate) finished: bool,
    /// The end of the open bucket.
    pub(crate) target: Ghost<int>,
}

impl<A: Aggregate> Sweep<A> {
    /// Where the sweep stands.
    pub(crate) open spec fn model(&self) -> Scan<A> {
        Scan {
            target: self.target@,
            acc: self.combined,
            out: self.out@,
            done: self.finished,
        }
    }

    /// Whether the end of the open bucket is held as said.
    pub(crate) open spec fn wf(&self) -> bool {
        &&& 0 <= self.target@
        &&& self.target_time == self.target@ || (self.target_time == u64::MAX && self.target@
            >= u64::MAX)
    }

    pub(crate) fn begin(start: Nanos) -> (sweep: Self)
        ensures
            sweep.wf(),
            sweep.model() == scan_start::<A>(start as int),
    {
        Sweep {
            target_time: start,
            combined: A::empty(),
            out: Vec::new(),
            finished: false,
            target: Ghost(start as int),
        }
    }

    /// Closes the open bucket: emits its aggregate if it passes, and starts the
    /// next bucket empty.
    fn close_bucket<F: Fn(&A) -> bool>(&mut self, gated: bool, event_filter: &F)
        requires
            forall|a: &A| #[trigger] event_filter.requires((a,)),
        ensures
            forall|keep: spec_fn(A) -> bool| #[trigger]
                decided_by(keep, *event_filter) ==> final(self).out@ == emitted(
                    old(self).out@,
                    old(self).combined,
                    gated,
                    keep,
                ),
            final(self).combined == A::nothing(),
            final(self).target_time == old(self).target_time,
            final(self).target == old(self).target,
            final(self).finished == old(self).finished,
    {
        let mut produced = A::empty();
        std::mem::swap(&mut self.combined, &mut produced);
        // Only produce the aggregate if it is wanted.
        if (!gated || !produced.is_empty()) && event_filter(&produced) {
            self.out.push(produced);
        }
    }

    /// Takes one event into a sweep that is not finished.
    pub(crate) fn take<F: Fn(&A) -> bool>(
        &mut self,
        event: &TraceEvent,
        end: Nanos,
        time_step: u64,
        gated: bool,
        event_filter: &F,
    )
        requires
            old(self).wf(),
            !old(self).finished,
            time_step > 0,
            forall|a: &A| #[trigger] event_filter.requires((a,)),
        ensures
            final(self).wf(),
            forall|keep: spec_fn(A) -> bool| #[trigger]
                decided_by(keep, *event_filter) ==> final(self).model() == take_event(
                    old(self).model(),
                    *event,
                    end as int,
                    time_step as int,
                    gated,
                    keep,
                ),
    {
        let ghost from = self.model();
        let event_time = event.timestamp.unpack();

        while !self.finished && event_time >= self.target_time
            invariant
                self.wf(),
                event_time == event.time(),
                event_time < 0x1_0000_0000_0000,
                time_step > 0,
                forall|a: &A| #[trigger] event_filter.requires((a,)),
                forall|keep: spec_fn(A) -> bool| #[trigger]
                    decided_by(keep, *event_filter) ==> close_buckets(
                        self.model(),
                        event.time(),
                        end as int,
                        time_step as int,
                        gated,
                        keep,
                    ) == close_buckets(from, event.time(), end as int, time_step as int, gated, keep),
            decreases
                    (if self.finished || event_time < self.target_time {
                        0
                    } else {
                        event_time - self.target_time + 1
                    }),
        {
            let ghost before = self.model();
            self.close_bucket(gated, event_filter);
            if self.target_time >= end {
                self.finished = true;
            } else {
                self.target_time = self.target_time.saturating_add(time_step);
                proof {
                    self.target@ = self.target@ + time_step;
                }
            }
            proof {
                assert forall|keep: spec_fn(A) -> bool| #[trigger]
                    decided_by(keep, *event_filter) implies close_buckets(
                    self.model(),
                    event.time(),
                    end as int,
                    time_step as int,
                    gated,
                    keep,
                ) == close_buckets(from, event.time(), end as int, time_step as int, gated, keep) by {
                    assert(self.out@ == emitted(before.out, before.acc, gated, keep));
                    assert(close_buckets(
                        before,
                        event.time(),
                        end as int,
                        time_step as int,
                        gated,
                        keep,
                    ) == close_buckets(
                        self.model(),
                        event.time(),
                        end as int,
                        time_step as int,
                        gated,
                        keep,
                    ));
                }
            }
        }

        if !self.finished {
            self.combined = A::join(&self.combined, &A::from_event(event));
        }
    }

    /// Takes the events of one block into a sweep that is not finished.
    pub(crate) fn take_block<F: Fn(&A) -> bool>(
        &mut self,
        events: &[TraceEvent],
        end: Nanos,
        time_step: u64,
        gated: bool,
        event_filter: &F,
    )
        requires
            old(self).wf(),
            !old(self).finished,
            time_step > 0,
            forall|a: &A| #[trigger] event_filter.requires((a,)),
        ensures
            final(self).wf(),
            forall|keep: spec_fn(A) -> bool| #[trigger]
                decided_by(keep, *event_filter) ==> final(self).model() == scan_events(
                    events@,
                    old(self).model(),
                    end as int,
                    time_step as int,
                    gated,
                    keep,
                ),
    {
        let ghost from = self.model();
        let mut i: usize = 0;
        assert(events@.take(0) =~= Seq::<TraceEvent>::empty());
        while i < events.len() && !self.finished
            invariant
                i <= events.len(),
                time_step > 0,
                self.wf(),
                forall|a: &A| #[trigger] event_filter.requires((a,)),
                forall|keep: spec_fn(A) -> bool| #[trigger]
                    decided_by(keep, *event_filter) ==> self.model() == scan_events(
                        events@.take(i as int),
                        from,
                        end as int,
                        time_step as int,
                        gated,
                        keep,
                    ),
            decreases events.len() - i,
        {
            self.take(&events[i], end, time_step, gated, event_filter);
            proof {
                assert(events@.take(i + 1).drop_last() =~= events@.take(i as int));
            }
            i += 1;
        }
        proof {
            assert forall|keep: spec_fn(A) -> bool| #[trigger]
                decided_by(keep, *event_filter) implies self.model() == scan_events(
                events@,
                from,
                end as int,
                time_step as int,
                gated,
                keep,
            ) by {
                assert(events@ =~= events@.take(i as int) + events@.skip(i as int));
                lemma_scan_concat(
                    events@.take(i as int),
                    events@.skip(i as int),
                    from,
                    end as int,
                    time_step as int,
                    gated,
                    keep,
                );
                if self.finished {
                    lemma_scan_done(
                        events@.skip(i as int),
                        self.model(),
                        end as int,
                        time_step as int,
                        gated,
                        keep,
                    );
                } else {
                    assert(events@.skip(i as int) =~= Seq::<TraceEvent>::empty());
                }
            }
        }
    }

    /// Ends the sweep: a bucket that is still open is closed.
    pub(crate) fn finish<F: Fn(&A) -> bool>(self, gated: bool, event_filter: &F) -> (out: Vec<A>)
        requires
            forall|a: &A| #[trigger] event_filter.requires((a,)),
        ensures
            forall|keep: spec_fn(A) -> bool| #[trigger]
                decided_by(keep, *event_filter) ==> out@ == scan_result(self.model(), gated, keep),
    {
        let mut sweep = self;
        if !sweep.finished {
            sweep.close_bucket(gated, event_filter);
        }
        sweep.out
    }
}

} // verus!
