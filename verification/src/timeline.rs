//! What the timeline view computes before it draws: the lines it needs, the
//! time grid of the visible range, and the trace that holds the events.

pub mod quant;
pub mod required_lines;

use crate::data::{EventId, EventKind, TimelineEvent, WorkerTimelineEvent};
use crate::iforest::IForestIndex;
use crate::index::{summaries, LongestEvent, TrackIndex};
use crate::timeline::required_lines::{distinct_kinds, has_line, Line, RequiredLines};
use crate::trace::{located, BlockIndex, BlockPool, PackedNanos, TraceEvent, Track};
use crate::{Trace, TrackInfo};
use std::collections::HashMap;
use vstd::prelude::*;

verus! {

/// The kinds of some lines, in the order of the lines.
pub open spec fn line_kinds(lines: Seq<Line>) -> Seq<EventKind> {
    Seq::new(lines.len(), |i: int| lines[i].0)
}

/// The kinds of some events, in order.
pub open spec fn kinds_in(events: Seq<TimelineEvent>) -> Seq<EventKind> {
    Seq::new(events.len(), |i: int| events[i]@)
}

/// `sorted` with `kind` put in behind the last kind that does not rank higher.
pub open spec fn ranked_insert(sorted: Seq<EventKind>, kind: EventKind) -> Seq<EventKind>
    decreases sorted.len(),
{
    if sorted.len() == 0 || sorted.last().rank() <= kind.rank() {
        sorted.push(kind)
    } else {
        ranked_insert(sorted.drop_last(), kind).push(sorted.last())
    }
}

/// The kinds in ascending order of rank; kinds of one rank stay in the order
/// they came in.
pub open spec fn by_rank(kinds: Seq<EventKind>) -> Seq<EventKind>
    decreases kinds.len(),
{
    if kinds.len() == 0 {
        Seq::empty()
    } else {
        ranked_insert(by_rank(kinds.drop_last()), kinds.last())
    }
}

/// Whether no kind ranks higher than one behind it.
pub open spec fn ranks_ascend(kinds: Seq<EventKind>) -> bool {
    forall|i: int, j: int| 0 <= i <= j < kinds.len() ==> kinds[i].rank() <= kinds[j].rank()
}

/// Putting a kind in at the place behind the last kind that does not rank
/// higher is the ranked insert.
proof fn lemma_insert_place(sorted: Seq<EventKind>, kind: EventKind, at: int)
    requires
        0 <= at <= sorted.len(),
        forall|i: int| at <= i < sorted.len() ==> (#[trigger] sorted[i]).rank() > kind.rank(),
        at > 0 ==> sorted[at - 1].rank() <= kind.rank(),
    ensures
        ranked_insert(sorted, kind) == sorted.insert(at, kind),
    decreases sorted.len() - at,
{
    if at == sorted.len() {
        assert(sorted.insert(at, kind) =~= sorted.push(kind));
    } else {
        let front = sorted.drop_last();
        assert(sorted.last() == sorted[sorted.len() - 1]);
        assert forall|i: int| at <= i < front.len() implies (#[trigger] front[i]).rank()
            > kind.rank() by {
            assert(front[i] == sorted[i]);
        }
        if at > 0 {
            assert(front[at - 1] == sorted[at - 1]);
        }
        lemma_insert_place(front, kind, at);
        assert(front.insert(at, kind).push(sorted.last()) =~= sorted.insert(at, kind));
    }
}

/// The ranked insert keeps the kinds that were there, adds the one put in, and
/// keeps an ascending order ascending and distinct kinds distinct.
pub proof fn lemma_ranked_insert(sorted: Seq<EventKind>, kind: EventKind)
    ensures
        ranked_insert(sorted, kind).len() == sorted.len() + 1,
        forall|other: EventKind|
            #[trigger] ranked_insert(sorted, kind).contains(other) <==> (sorted.contains(other)
                || other == kind),
        ranks_ascend(sorted) ==> ranks_ascend(ranked_insert(sorted, kind)),
        sorted.no_duplicates() && !sorted.contains(kind) ==> ranked_insert(
            sorted,
            kind,
        ).no_duplicates(),
    decreases sorted.len(),
{
    let after = ranked_insert(sorted, kind);
    if sorted.len() == 0 || sorted.last().rank() <= kind.rank() {
        assert forall|other: EventKind| #[trigger] after.contains(other) <==> (sorted.contains(
            other,
        ) || other == kind) by {
            if after.contains(other) {
                let i = choose|i: int| 0 <= i < after.len() && after[i] == other;
                if i < sorted.len() {
                    assert(sorted[i] == other);
                }
            }
            if sorted.contains(other) {
                let i = choose|i: int| 0 <= i < sorted.len() && sorted[i] == other;
                assert(after[i] == other);
            }
            if other == kind {
                assert(after[sorted.len() as int] == kind);
            }
        }
        if ranks_ascend(sorted) {
            assert forall|i: int, j: int| 0 <= i <= j < after.len() implies after[i].rank()
                <= after[j].rank() by {
                if j == sorted.len() && i < j {
                    assert(sorted[i].rank() <= sorted.last().rank());
                }
            }
        }
    } else {
        let front = sorted.drop_last();
        let top = sorted.last();
        let inner = ranked_insert(front, kind);
        lemma_ranked_insert(front, kind);
        assert(sorted =~= front.push(top));
        assert forall|other: EventKind| #[trigger] after.contains(other) <==> (sorted.contains(
            other,
        ) || other == kind) by {
            if after.contains(other) {
                let i = choose|i: int| 0 <= i < after.len() && after[i] == other;
                if i < inner.len() {
                    assert(inner[i] == other);
                    assert(inner.contains(other));
                    if front.contains(other) {
                        let j = choose|j: int| 0 <= j < front.len() && front[j] == other;
                        assert(sorted[j] == other);
                    }
                } else {
                    assert(sorted[sorted.len() - 1] == other);
                }
            }
            if sorted.contains(other) {
                let i = choose|i: int| 0 <= i < sorted.len() && sorted[i] == other;
                if i < front.len() {
                    assert(front[i] == other);
                    assert(front.contains(other));
                    assert(inner.contains(other));
                    let j = choose|j: int| 0 <= j < inner.len() && inner[j] == other;
                    assert(after[j] == other);
                } else {
                    assert(after[inner.len() as int] == other);
                }
            }
            if other == kind {
                assert(inner.contains(kind));
                let j = choose|j: int| 0 <= j < inner.len() && inner[j] == kind;
                assert(after[j] == kind);
            }
        }
        if ranks_ascend(sorted) {
            assert(ranks_ascend(front)) by {
                assert forall|i: int, j: int| 0 <= i <= j < front.len() implies front[i].rank()
                    <= front[j].rank() by {
                    assert(front[i] == sorted[i] && front[j] == sorted[j]);
                }
            }
            assert forall|i: int, j: int| 0 <= i <= j < after.len() implies after[i].rank()
                <= after[j].rank() by {
                if j == inner.len() && i < j {
                    assert(inner.contains(inner[i]));
                    if front.contains(inner[i]) {
                        let x = choose|x: int| 0 <= x < front.len() && front[x] == inner[i];
                        assert(sorted[x].rank() <= sorted[sorted.len() - 1].rank());
                    }
                }
            }
        }
        if sorted.no_duplicates() && !sorted.contains(kind) {
            assert(front.no_duplicates()) by {
                assert forall|i: int, j: int|
                    0 <= i < front.len() && 0 <= j < front.len() && i != j implies front[i]
                    != front[j] by {
                    assert(front[i] == sorted[i] && front[j] == sorted[j]);
                }
            }
            assert(!front.contains(kind)) by {
                if front.contains(kind) {
                    let x = choose|x: int| 0 <= x < front.len() && front[x] == kind;
                    assert(sorted[x] == kind);
                }
            }
            assert forall|i: int, j: int|
                0 <= i < after.len() && 0 <= j < after.len() && i != j implies after[i]
                != after[j] by {
                if i == inner.len() || j == inner.len() {
                    let o = if i == inner.len() {
                        j
                    } else {
                        i
                    };
                    assert(inner.contains(inner[o]));
                    if front.contains(inner[o]) {
                        let x = choose|x: int| 0 <= x < front.len() && front[x] == inner[o];
                        assert(sorted[x] != sorted[sorted.len() - 1]);
                    }
                }
            }
        }
    }
}

/// Ordering by rank keeps the kinds, each as often as it was there, and gives
/// them in ascending order of rank.
pub proof fn lemma_by_rank(kinds: Seq<EventKind>)
    ensures
        by_rank(kinds).len() == kinds.len(),
        ranks_ascend(by_rank(kinds)),
        forall|kind: EventKind| #[trigger] by_rank(kinds).contains(kind) <==> kinds.contains(kind),
        kinds.no_duplicates() ==> by_rank(kinds).no_duplicates(),
    decreases kinds.len(),
{
    if kinds.len() > 0 {
        let front = kinds.drop_last();
        let last = kinds.last();
        lemma_by_rank(front);
        lemma_ranked_insert(by_rank(front), last);
        assert(kinds =~= front.push(last));
        assert forall|kind: EventKind| #[trigger] by_rank(kinds).contains(kind) <==> kinds.contains(
            kind,
        ) by {
            if kinds.contains(kind) {
                let i = choose|i: int| 0 <= i < kinds.len() && kinds[i] == kind;
                if i < front.len() {
                    assert(front[i] == kind);
                    assert(front.contains(kind));
                }
            }
            if front.contains(kind) {
                let i = choose|i: int| 0 <= i < front.len() && front[i] == kind;
                assert(kinds[i] == kind);
            }
            if kind == last {
                assert(kinds[kinds.len() - 1] == kind);
            }
        }
        if kinds.no_duplicates() {
            assert(front.no_duplicates()) by {
                assert forall|i: int, j: int|
                    0 <= i < front.len() && 0 <= j < front.len() && i != j implies front[i]
                    != front[j] by {
                    assert(front[i] == kinds[i] && front[j] == kinds[j]);
                }
            }
            assert(!front.contains(last)) by {
                if front.contains(last) {
                    let x = choose|x: int| 0 <= x < front.len() && front[x] == last;
                    assert(kinds[x] == kinds[kinds.len() - 1]);
                }
            }
        }
    }
}

/// The kinds that have a line, in ascending order of rank: the order of the
/// tracks of the trace.
pub fn ranked_kinds(required_lines: &RequiredLines) -> (kinds: Vec<TimelineEvent>)
    ensures
        kinds_in(kinds@) == by_rank(line_kinds(required_lines@)),
{
    let unsorted = required_lines.events();
    let ghost wanted = line_kinds(required_lines@);
    let mut sorted: Vec<TimelineEvent> = Vec::new();
    let mut i: usize = 0;
    assert(kinds_in(sorted@) =~= by_rank(wanted.take(0)));
    while i < unsorted.len()
        invariant
            i <= unsorted.len(),
            unsorted@.len() == wanted.len(),
            forall|j: int| 0 <= j < unsorted@.len() ==> (#[trigger] unsorted@[j])@ == wanted[j],
            kinds_in(sorted@) == by_rank(wanted.take(i as int)),
        decreases unsorted.len() - i,
    {
        let kind = unsorted[i].clone();
        let rank = kind.rank();
        let mut at = sorted.len();
        while at > 0 && sorted[at - 1].rank() > rank
            invariant
                at <= sorted.len(),
                rank == kind@.rank(),
                forall|j: int|
                    at <= j < sorted@.len() ==> (#[trigger] kinds_in(sorted@)[j]).rank() > rank,
            decreases at,
        {
            at -= 1;
        }
        proof {
            let before = kinds_in(sorted@);
            if at > 0 {
                assert(before[at - 1] == sorted@[at - 1]@);
            }
            lemma_insert_place(before, kind@, at as int);
            assert(wanted.take(i + 1).drop_last() =~= wanted.take(i as int));
            assert(wanted.take(i + 1).last() == kind@);
        }
        let ghost before = kinds_in(sorted@);
        sorted.insert(at, kind);
        assert(kinds_in(sorted@) =~= before.insert(at as int, kind@));
        i += 1;
    }
    assert(wanted.take(i as int) =~= wanted);
    sorted
}

/// The trace event that stands for a timeline event: its id, start and
/// duration, the times cut to 48 bits.
pub open spec fn trace_event(event: WorkerTimelineEvent) -> TraceEvent {
    TraceEvent {
        kind: event.event_id,
        timestamp: PackedNanos::packed(event.start_time),
        duration: PackedNanos::packed(event.duration),
    }
}

/// The events of `kind` among `events`, in order, as trace events.
pub open spec fn lane(events: Seq<WorkerTimelineEvent>, kind: EventKind) -> Seq<TraceEvent>
    decreases events.len(),
{
    if events.len() == 0 {
        Seq::empty()
    } else if events.last().event@ == kind {
        lane(events.drop_last(), kind).push(trace_event(events.last()))
    } else {
        lane(events.drop_last(), kind)
    }
}

/// Whether two tracks share no block.
pub open spec fn apart(a: Seq<BlockIndex>, b: Seq<BlockIndex>) -> bool {
    forall|i: int, j: int| 0 <= i < a.len() && 0 <= j < b.len() ==> a[i] != b[j]
}

/// Whether the tracks fit `pool` and no two of them share a block.
pub open spec fn tracks_fit(tracks: Seq<Track>, pool: &BlockPool) -> bool {
    &&& forall|s: int| 0 <= s < tracks.len() ==> (#[trigger] tracks[s]).wf(pool)
    &&& forall|s: int, t: int|
        0 <= s < tracks.len() && 0 <= t < tracks.len() && s != t ==> apart(
            #[trigger] tracks[s].block_locations@,
            #[trigger] tracks[t].block_locations@,
        )
}

/// The place of `kind` among `kinds`, or their number if it is not there.
fn slot_of(kinds: &Vec<TimelineEvent>, kind: &TimelineEvent) -> (slot: usize)
    ensures
        slot <= kinds@.len(),
        slot < kinds@.len() ==> kinds@[slot as int]@ == kind@,
        forall|j: int| 0 <= j < slot ==> (#[trigger] kinds@[j])@ != kind@,
{
    let mut slot: usize = 0;
    while slot < kinds.len()
        invariant
            slot <= kinds@.len(),
            forall|j: int| 0 <= j < slot ==> (#[trigger] kinds@[j])@ != kind@,
        decreases kinds.len() - slot,
    {
        if kinds[slot].same_kind(kind) {
            return slot;
        }
        slot += 1;
    }
    slot
}

/// A push onto one track leaves the tracks that share no block with it as they
/// were.
proof fn lemma_other_track_kept(
    other: Track,
    pushed_locs: Seq<BlockIndex>,
    old_pool: &BlockPool,
    pool: &BlockPool,
    grown: Seq<TraceEvent>,
)
    requires
        other.wf(old_pool),
        apart(other.block_locations@, pushed_locs),
        pool@ == old_pool@.push(grown) || (pushed_locs.len() > 0 && pushed_locs.last()
            < old_pool@.len() && pool@ == old_pool@.update(pushed_locs.last() as int, grown)),
    ensures
        other.wf(pool),
        other.blocks(pool) == other.blocks(old_pool),
{
    let locs = other.block_locations@;
    assert(located(old_pool@, locs));
    assert forall|i: int| 0 <= i < locs.len() implies pool@[locs[i] as int]
        == old_pool@[locs[i] as int] && locs[i] < pool@.len() by {
        assert(0 <= locs[i] < old_pool@.len());
        let j = locs[i] as int;
        if pool@ == old_pool@.push(grown) {
            assert(old_pool@.push(grown)[j] == old_pool@[j]);
            assert(pool@[j] == old_pool@[j]);
            assert(pool@.len() == old_pool@.len() + 1);
        } else {
            assert(locs[i] != pushed_locs[pushed_locs.len() - 1]);
            assert(pushed_locs.last() == pushed_locs[pushed_locs.len() - 1]);
            let k = pushed_locs.last() as int;
            assert(j != k);
            assert(pool@ == old_pool@.update(k, grown));
            assert(old_pool@.update(k, grown)[j] == old_pool@[j]);
            assert(pool@.len() == old_pool@.len());
        }
    }
    assert(other.blocks(pool) =~= other.blocks(old_pool));
    assert(located(pool@, locs));
}

/// The trace of `events`: one track for each kind that has a line, in ascending
/// order of rank, which holds the events of that kind in the order they came
/// in, and for each track the index by which the view zooms.
pub fn build_trace(events: &[WorkerTimelineEvent], required_lines: &RequiredLines) -> (trace: Trace)
    requires
        distinct_kinds(required_lines@),
        forall|i: int|
            0 <= i < events@.len() ==> has_line(required_lines@, (#[trigger] events@[i]).event@),
        events@.len() <= u32::MAX,
    ensures
        trace.wf(),
        trace.indexed(),
        trace.tracks@.len() == required_lines@.len(),
        forall|s: int|
            0 <= s < trace.tracks@.len() ==> (#[trigger] trace.tracks@[s]).track.event_seq(
                &trace.pool,
            ) == lane(events@, by_rank(line_kinds(required_lines@))[s]),
{
    let kinds = ranked_kinds(required_lines);
    let ghost sorted = kinds_in(kinds@);
    proof {
        let wanted = line_kinds(required_lines@);
        assert(wanted.no_duplicates()) by {
            assert forall|i: int, j: int|
                0 <= i < wanted.len() && 0 <= j < wanted.len() && i != j implies wanted[i]
                != wanted[j] by {
                if i < j {
                    assert(required_lines@[i].0 != required_lines@[j].0);
                } else {
                    assert(required_lines@[j].0 != required_lines@[i].0);
                }
            }
        }
        lemma_by_rank(wanted);
        assert forall|i: int| 0 <= i < events@.len() implies sorted.contains(
            (#[trigger] events@[i]).event@,
        ) by {
            let kind = events@[i].event@;
            assert(has_line(required_lines@, kind));
            let l = choose|l: int|
                0 <= l < required_lines@.len() && (#[trigger] required_lines@[l]).0 == kind;
            assert(wanted[l] == kind);
            assert(wanted.contains(kind));
        }
    }

    let mut pool = BlockPool::new();
    let mut tracks: Vec<Track> = Vec::new();
    let mut t: usize = 0;
    while t < kinds.len()
        invariant
            t <= kinds.len(),
            tracks@.len() == t,
            pool@ == Seq::<Seq<TraceEvent>>::empty(),
            forall|s: int|
                0 <= s < t ==> (#[trigger] tracks@[s]).block_locations@ == Seq::<
                    BlockIndex,
                >::empty(),
        decreases kinds.len() - t,
    {
        tracks.push(Track::new());
        t += 1;
    }
    proof {
        assert forall|s: int| 0 <= s < tracks@.len() implies (#[trigger] tracks@[s]).event_seq(
            &pool,
        ) == lane(events@.take(0), sorted[s]) by {
            assert(tracks@[s].blocks(&pool) =~= Seq::<Seq<TraceEvent>>::empty());
        }
    }

    let mut i: usize = 0;
    while i < events.len()
        invariant
            i <= events.len(),
            events@.len() <= u32::MAX,
            sorted == kinds_in(kinds@),
            sorted.no_duplicates(),
            forall|j: int| 0 <= j < events@.len() ==> sorted.contains((#[trigger] events@[j]).event@),
            tracks@.len() == kinds@.len(),
            pool@.len() <= i,
            tracks_fit(tracks@, &pool),
            forall|s: int|
                0 <= s < tracks@.len() ==> (#[trigger] tracks@[s]).event_seq(&pool) == lane(
                    events@.take(i as int),
                    sorted[s],
                ),
        decreases events.len() - i,
    {
        let event = &events[i];
        let slot = slot_of(&kinds, &event.event);
        proof {
            let kind = event.event@;
            assert(sorted.contains(kind));
            let at = choose|at: int| 0 <= at < sorted.len() && sorted[at] == kind;
            assert(kinds@[at]@ == kind);
        }
        let ghost before = tracks@;
        let ghost old_pool = pool;
        let ghost seen = events@.take(i as int);
        let ghost now = events@.take(i + 1);
        let pushed = TraceEvent {
            kind: event.event_id,
            timestamp: PackedNanos::new(event.start_time),
            duration: PackedNanos::new(event.duration),
        };
        tracks[slot].push(&mut pool, pushed);
        proof {
            assert(pushed == trace_event(*event));
            assert(now.drop_last() =~= seen);
            assert(now.last() == *event);
            let old_locs = before[slot as int].block_locations@;
            let locs = tracks@[slot as int].block_locations@;
            let grown = if old_locs.len() == 0 || before[slot as int].blocks(&old_pool).last().len()
                == 16 {
                seq![pushed]
            } else {
                before[slot as int].blocks(&old_pool).last().push(pushed)
            };
            assert(before[slot as int].wf(&old_pool));
            if old_locs.len() > 0 {
                assert(old_locs.last() == old_locs[old_locs.len() - 1]);
                assert(old_locs.last() < old_pool@.len());
            }
            assert(tracks@.len() == before.len());
            assert forall|s: int| 0 <= s < tracks@.len() implies (#[trigger] tracks@[s]).wf(&pool)
                && tracks@[s].event_seq(&pool) == lane(now, sorted[s]) by {
                if s != slot {
                    assert(tracks@[s] == before[s]);
                    assert(apart(before[s].block_locations@, before[slot as int].block_locations@));
                    lemma_other_track_kept(before[s], old_locs, &old_pool, &pool, grown);
                    assert(sorted[s] != sorted[slot as int]);
                }
            }
            assert forall|s: int, t: int|
                0 <= s < tracks@.len() && 0 <= t < tracks@.len() && s != t implies apart(
                #[trigger] tracks@[s].block_locations@,
                #[trigger] tracks@[t].block_locations@,
            ) by {
                assert(apart(before[s].block_locations@, before[t].block_locations@));
                let a = tracks@[s].block_locations@;
                let b = tracks@[t].block_locations@;
                assert forall|x: int, y: int| 0 <= x < a.len() && 0 <= y < b.len() implies a[x]
                    != b[y] by {
                    if s == slot {
                        assert(before[t].wf(&old_pool));
                        assert(before[t].block_locations@[y] < old_pool@.len());
                        if x < old_locs.len() {
                            assert(a[x] == old_locs[x]);
                        }
                    } else if t == slot {
                        assert(before[s].wf(&old_pool));
                        assert(before[s].block_locations@[x] < old_pool@.len());
                        if y < old_locs.len() {
                            assert(b[y] == old_locs[y]);
                        }
                    }
                }
            }
        }
        i += 1;
    }
    assert(events@.take(i as int) =~= events@);

    let mut infos: Vec<TrackInfo> = Vec::with_capacity(tracks.len());
    let ghost built = tracks@;
    let mut t: usize = 0;
    while t < tracks.len()
        invariant
            t <= tracks.len(),
            tracks@.len() == built.len(),
            infos@.len() == t,
            forall|s: int| 0 <= s < built.len() ==> (#[trigger] built[s]).wf(&pool),
            forall|s: int| t <= s < built.len() ==> #[trigger] tracks@[s] == built[s],
            forall|s: int|
                0 <= s < t ==> {
                    &&& (#[trigger] infos@[s]).track == built[s]
                    &&& infos@[s].zoom_index.wf()
                    &&& infos@[s].zoom_index.leaves() == summaries::<LongestEvent>(
                        built[s].blocks(&pool),
                    )
                },
        decreases tracks.len() - t,
    {
        assert(built[t as int].wf(&pool));
        let index: IForestIndex<LongestEvent> = IForestIndex::build(&tracks[t], &pool);
        let mut track = Track::new();
        std::mem::swap(&mut tracks[t], &mut track);
        infos.push(TrackInfo::new(track, index));
        t += 1;
    }

    let trace = Trace { pool, tracks: infos };
    proof {
        assert forall|s: int| 0 <= s < trace.tracks@.len() implies (#[trigger] trace.tracks@[s]).track.wf(
            &trace.pool,
        ) by {
            assert(built[s].wf(&pool));
        }
    }
    trace
}

/// The events by their ids: of events that share an id, the last.
pub open spec fn event_map(events: Seq<WorkerTimelineEvent>) -> Map<EventId, WorkerTimelineEvent>
    decreases events.len(),
{
    if events.len() == 0 {
        Map::empty()
    } else {
        event_map(events.drop_last()).insert(events.last().event_id, events.last())
    }
}

/// The table in which the view looks up the event behind a shown bucket.
pub fn build_event_map(events: &[WorkerTimelineEvent]) -> (map: HashMap<
    EventId,
    WorkerTimelineEvent,
>)
    ensures
        map@ == event_map(events@),
{
    broadcast use vstd::std_specs::hash::group_hash_axioms;

    let mut map: HashMap<EventId, WorkerTimelineEvent> = HashMap::new();
    let mut i: usize = 0;
    assert(events@.take(0) =~= Seq::<WorkerTimelineEvent>::empty());
    while i < events.len()
        invariant
            i <= events.len(),
            map@ == event_map(events@.take(i as int)),
        decreases events.len() - i,
    {
        map.insert(events[i].event_id, events[i].clone());
        proof {
            assert(events@.take(i + 1).drop_last() =~= events@.take(i as int));
        }
        i += 1;
    }
    assert(events@.take(i as int) =~= events@);
    map
}

} // verus!
