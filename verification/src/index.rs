//! Aggregates: what can be summed up over the events of a time range, and the
//! three aggregates the library ships.

use crate::trace::{blocks_at, located, BlockPool, Nanos, TraceBlock, TraceEvent, Track};
use vstd::prelude::*;

verus! {

/// The mathematics of an aggregate: a summary of a run of events that can be
/// built event by event and pieced together from the summaries of adjacent
/// runs.
///
/// `joined` is associative with `nothing` as its identity. It need not be
/// commutative: the earlier run is always the receiver.
pub trait AggregateModel: Sized {
    /// The summary of no events.
    spec fn nothing() -> Self;

    /// The summary of one event.
    spec fn of_event(event: TraceEvent) -> Self;

    /// The summary of a run followed by a later run.
    spec fn joined(self, later: Self) -> Self;

    /// Joining is associative: runs may be pieced together in any grouping.
    proof fn lemma_join_associative(a: Self, b: Self, c: Self)
        ensures
            a.joined(b).joined(c) == a.joined(b.joined(c)),
    ;

    /// Joining with the summary of no events changes nothing.
    proof fn lemma_join_identity(a: Self)
        ensures
            Self::nothing().joined(a) == a,
            a.joined(Self::nothing()) == a,
    ;
}

/// An aggregate that can be computed: the operations of its model, executable.
pub trait Aggregate: AggregateModel + Clone {
    /// A clone of a summary is that summary.
    proof fn lemma_clone_exact(a: Self, b: Self)
        requires
            cloned(a, b),
        ensures
            a == b,
    ;

    /// The summary of no events.
    fn empty() -> (a: Self)
        ensures
            a == Self::nothing(),
    ;

    /// Whether this is the summary of no events.
    fn is_empty(&self) -> (b: bool)
        ensures
            b == (*self == Self::nothing()),
    ;

    /// The summary of one event.
    fn from_event(event: &TraceEvent) -> (a: Self)
        ensures
            a == Self::of_event(*event),
    ;

    /// The summary of the run of `self` followed by the run of `other`.
    fn join(&self, other: &Self) -> (a: Self)
        ensures
            a == self.joined(*other),
    ;

    /// The summary of a whole block. An implementation may compute it more
    /// directly than event by event, to the same value.
    fn from_block(block: &TraceBlock) -> (a: Self)
        ensures
            a == summary::<Self>(block@),
    {
        let events = block.events();
        let mut aggregate = Self::empty();
        let mut i: usize = 0;
        assert(events@.take(0) =~= Seq::<TraceEvent>::empty());
        while i < events.len()
            invariant
                i <= events.len(),
                aggregate == summary::<Self>(events@.take(i as int)),
            decreases events.len() - i,
        {
            aggregate = Self::join(&aggregate, &Self::from_event(&events[i]));
            proof {
                assert(events@.take(i + 1).drop_last() =~= events@.take(i as int));
            }
            i += 1;
        }
        assert(events@.take(i as int) =~= events@);
        aggregate
    }
}

/// The summary of `events`: each event joined onto the summary of those before
/// it, starting from nothing.
pub open spec fn summary<A: AggregateModel>(events: Seq<TraceEvent>) -> A
    decreases events.len(),
{
    if events.len() == 0 {
        A::nothing()
    } else {
        summary::<A>(events.drop_last()).joined(A::of_event(events.last()))
    }
}

/// The parts joined from left to right, starting from nothing.
pub open spec fn join_all<A: AggregateModel>(parts: Seq<A>) -> A
    decreases parts.len(),
{
    if parts.len() == 0 {
        A::nothing()
    } else {
        join_all(parts.drop_last()).joined(parts.last())
    }
}

/// The summary of each block.
pub open spec fn summaries<A: AggregateModel>(blocks: Seq<Seq<TraceEvent>>) -> Seq<A> {
    Seq::new(blocks.len(), |i: int| summary::<A>(blocks[i]))
}

/// Joining two runs of parts joins what each run joins to.
pub proof fn lemma_join_all_concat<A: AggregateModel>(left: Seq<A>, right: Seq<A>)
    ensures
        join_all(left + right) == join_all(left).joined(join_all(right)),
    decreases right.len(),
{
    if right.len() == 0 {
        assert(left + right =~= left);
        A::lemma_join_identity(join_all(left));
    } else {
        assert((left + right).drop_last() =~= left + right.drop_last());
        lemma_join_all_concat(left, right.drop_last());
        A::lemma_join_associative(join_all(left), join_all(right.drop_last()), right.last());
    }
}

/// The summary of two runs of events is the join of their summaries.
pub proof fn lemma_summary_concat<A: AggregateModel>(left: Seq<TraceEvent>, right: Seq<TraceEvent>)
    ensures
        summary::<A>(left + right) == summary::<A>(left).joined(summary::<A>(right)),
    decreases right.len(),
{
    if right.len() == 0 {
        assert(left + right =~= left);
        A::lemma_join_identity(summary::<A>(left));
    } else {
        assert((left + right).drop_last() =~= left + right.drop_last());
        lemma_summary_concat::<A>(left, right.drop_last());
        A::lemma_join_associative(
            summary::<A>(left),
            summary::<A>(right.drop_last()),
            A::of_event(right.last()),
        );
    }
}

/// The summary of all events of some blocks is the join of the blocks'
/// summaries.
pub proof fn lemma_summary_of_blocks<A: AggregateModel>(blocks: Seq<Seq<TraceEvent>>)
    ensures
        summary::<A>(blocks.flatten()) == join_all(summaries::<A>(blocks)),
    decreases blocks.len(),
{
    if blocks.len() == 0 {
        assert(summaries::<A>(blocks) =~= Seq::<A>::empty());
    } else {
        let front = blocks.drop_last();
        assert(blocks =~= front.push(blocks.last()));
        front.lemma_flatten_push(blocks.last());
        assert(blocks.flatten() =~= front.flatten() + blocks.last());
        lemma_summary_concat::<A>(front.flatten(), blocks.last());
        lemma_summary_of_blocks::<A>(front);
        assert(summaries::<A>(blocks).drop_last() =~= summaries::<A>(front));
    }
}

/// A per-track index that can be built from the track's blocks.
pub trait TrackIndex<A: Aggregate>: Sized {
    /// The block summaries that the index covers, in order.
    spec fn covered(&self) -> Seq<A>;

    /// The index over all blocks of `track`.
    fn build(track: &Track, pool: &BlockPool) -> (index: Self)
        requires
            located(pool@, track.block_locations@),
        ensures
            index.covered() == summaries::<A>(blocks_at(pool@, track.block_locations@)),
    ;
}

/// The event that lasted longest; of several such, the latest.
#[derive(Debug, PartialEq, PartialOrd)]
pub struct LongestEvent(pub Option<TraceEvent>);

impl Clone for LongestEvent {
    fn clone(&self) -> (c: Self)
        ensures
            c == *self,
    {
        LongestEvent(self.0)
    }
}

impl AggregateModel for LongestEvent {
    open spec fn nothing() -> Self {
        LongestEvent(None)
    }

    open spec fn of_event(event: TraceEvent) -> Self {
        LongestEvent(Some(event))
    }

    open spec fn joined(self, later: Self) -> Self {
        match (self.0, later.0) {
            (Some(a), Some(b)) => if a.duration@ > b.duration@ {
                self
            } else {
                later
            },
            (Some(_), None) => self,
            (None, _) => later,
        }
    }

    proof fn lemma_join_associative(a: Self, b: Self, c: Self) {
    }

    proof fn lemma_join_identity(a: Self) {
    }
}

/// The longest event of a run is one of its events, no event of the run lasts
/// longer, and none after it lasts as long.
pub proof fn lemma_longest_event(events: Seq<TraceEvent>)
    ensures
        events.len() == 0 ==> summary::<LongestEvent>(events).0 is None,
        events.len() > 0 ==> exists|i: int|
            {
                &&& 0 <= i < events.len()
                &&& summary::<LongestEvent>(events).0 == Some(#[trigger] events[i])
                &&& forall|j: int|
                    0 <= j < events.len() ==> (#[trigger] events[j]).duration@
                        <= events[i].duration@
                &&& forall|j: int|
                    i < j < events.len() ==> (#[trigger] events[j]).duration@
                        < events[i].duration@
            },
    decreases events.len(),
{
    if events.len() > 0 {
        let front = events.drop_last();
        lemma_longest_event(front);
        if front.len() == 0 {
            assert(summary::<LongestEvent>(events).0 == Some(events[0]));
        } else {
            let i = choose|i: int|
                {
                    &&& 0 <= i < front.len()
                    &&& summary::<LongestEvent>(front).0 == Some(#[trigger] front[i])
                    &&& forall|j: int|
                        0 <= j < front.len() ==> (#[trigger] front[j]).duration@
                            <= front[i].duration@
                    &&& forall|j: int|
                        i < j < front.len() ==> (#[trigger] front[j]).duration@
                            < front[i].duration@
                };
            assert(front[i] == events[i]);
            assert forall|j: int| 0 <= j < front.len() implies front[j] == events[j] by {}
            if events[i].duration@ > events.last().duration@ {
                assert(summary::<LongestEvent>(events).0 == Some(events[i]));
            } else {
                assert(summary::<LongestEvent>(events).0 == Some(events[events.len() - 1]));
            }
        }
    }
}

impl Aggregate for LongestEvent {
    proof fn lemma_clone_exact(a: Self, b: Self) {
    }

    fn empty() -> (a: Self) {
        LongestEvent(None)
    }

    fn is_empty(&self) -> (b: bool) {
        self.0.is_none()
    }

    fn from_event(event: &TraceEvent) -> (a: Self) {
        LongestEvent(Some(*event))
    }

    fn join(&self, other: &Self) -> (a: Self) {
        match (self.0, other.0) {
            (Some(a), Some(b)) => if a.duration.unpack() > b.duration.unpack() {
                LongestEvent(Some(a))
            } else {
                LongestEvent(Some(b))
            },
            (Some(a), None) => LongestEvent(Some(a)),
            (None, b) => LongestEvent(b),
        }
    }

    fn from_block(block: &TraceBlock) -> (a: Self) {
        let events = block.events();
        let mut longest: Option<TraceEvent> = None;
        let mut i: usize = 0;
        assert(events@.take(0) =~= Seq::<TraceEvent>::empty());
        while i < events.len()
            invariant
                i <= events.len(),
                LongestEvent(longest) == summary::<LongestEvent>(events@.take(i as int)),
            decreases events.len() - i,
        {
            let event = events[i];
            longest = match longest {
                Some(best) if best.duration.unpack() > event.duration.unpack() => Some(best),
                _ => Some(event),
            };
            proof {
                assert(events@.take(i + 1).drop_last() =~= events@.take(i as int));
            }
            i += 1;
        }
        assert(events@.take(i as int) =~= events@);
        LongestEvent(longest)
    }
}

/// The number of events, counted modulo 2^64.
#[derive(Debug)]
pub struct EventCount(pub Nanos);

impl Clone for EventCount {
    fn clone(&self) -> (c: Self)
        ensures
            c == *self,
    {
        EventCount(self.0)
    }
}

impl AggregateModel for EventCount {
    open spec fn nothing() -> Self {
        EventCount(0)
    }

    open spec fn of_event(event: TraceEvent) -> Self {
        EventCount(1)
    }

    open spec fn joined(self, later: Self) -> Self {
        EventCount(self.0.wrapping_add(later.0))
    }

    proof fn lemma_join_associative(a: Self, b: Self, c: Self) {
    }

    proof fn lemma_join_identity(a: Self) {
    }
}

/// The count of a run of events that fits 64 bits is the run's length.
pub proof fn lemma_count_is_length(events: Seq<TraceEvent>)
    requires
        events.len() <= u64::MAX,
    ensures
        summary::<EventCount>(events).0 == events.len(),
    decreases events.len(),
{
    if events.len() > 0 {
        lemma_count_is_length(events.drop_last());
    }
}

impl Aggregate for EventCount {
    proof fn lemma_clone_exact(a: Self, b: Self) {
    }

    fn empty() -> (a: Self) {
        EventCount(0)
    }

    fn is_empty(&self) -> (b: bool) {
        self.0 == 0
    }

    fn from_event(_event: &TraceEvent) -> (a: Self) {
        EventCount(1)
    }

    fn join(&self, other: &Self) -> (a: Self) {
        EventCount(self.0.wrapping_add(other.0))
    }
}

/// The sum of the events' timestamps, modulo 2^64.
#[derive(Debug, PartialEq, Eq)]
pub struct EventSum(pub Nanos);

impl Clone for EventSum {
    fn clone(&self) -> (c: Self)
        ensures
            c == *self,
    {
        EventSum(self.0)
    }
}

/// The timestamps of `events` added up.
pub open spec fn total_time(events: Seq<TraceEvent>) -> int
    decreases events.len(),
{
    if events.len() == 0 {
        0
    } else {
        total_time(events.drop_last()) + events.last().time()
    }
}

impl AggregateModel for EventSum {
    open spec fn nothing() -> Self {
        EventSum(0)
    }

    open spec fn of_event(event: TraceEvent) -> Self {
        EventSum(event.timestamp@ as u64)
    }

    open spec fn joined(self, later: Self) -> Self {
        EventSum(self.0.wrapping_add(later.0))
    }

    proof fn lemma_join_associative(a: Self, b: Self, c: Self) {
    }

    proof fn lemma_join_identity(a: Self) {
    }
}

/// The sum over a run of events whose timestamps add up to less than 2^64 is
/// that total.
pub proof fn lemma_sum_is_total(events: Seq<TraceEvent>)
    requires
        total_time(events) <= u64::MAX,
    ensures
        summary::<EventSum>(events).0 == total_time(events),
    decreases events.len(),
{
    if events.len() > 0 {
        lemma_total_time_nonnegative(events.drop_last());
        events.last().timestamp.lemma_range();
        lemma_sum_is_total(events.drop_last());
    }
}

proof fn lemma_total_time_nonnegative(events: Seq<TraceEvent>)
    ensures
        total_time(events) >= 0,
    decreases events.len(),
{
    if events.len() > 0 {
        lemma_total_time_nonnegative(events.drop_last());
        events.last().timestamp.lemma_range();
    }
}

impl Aggregate for EventSum {
    proof fn lemma_clone_exact(a: Self, b: Self) {
    }

    fn empty() -> (a: Self) {
        EventSum(0)
    }

    fn is_empty(&self) -> (b: bool) {
        self.0 == 0
    }

    fn from_event(event: &TraceEvent) -> (a: Self) {
        EventSum(event.timestamp.unpack())
    }

    fn join(&self, other: &Self) -> (a: Self) {
        EventSum(self.0.wrapping_add(other.0))
    }
}

} // verus!
