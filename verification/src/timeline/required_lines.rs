//! The lines of the timeline: one per kind of event that occurs.

use crate::data::{EventKind, TimelineEvent, WorkerTimelineEvent};
use vstd::prelude::*;

verus! {

/// One line: a kind of event and how many events of it are shown.
pub type Line = (EventKind, u32);

/// Whether no kind has two lines.
pub open spec fn distinct_kinds(lines: Seq<Line>) -> bool {
    forall|i: int, j: int| 0 <= i < j < lines.len() ==> lines[i].0 != lines[j].0
}

/// Whether `kind` has a line.
pub open spec fn has_line(lines: Seq<Line>, kind: EventKind) -> bool {
    exists|i: int| 0 <= i < lines.len() && (#[trigger] lines[i]).0 == kind
}

/// The place of the line of `kind`.
pub open spec fn line_of(lines: Seq<Line>, kind: EventKind) -> int
    recommends
        has_line(lines, kind),
{
    choose|i: int| 0 <= i < lines.len() && (#[trigger] lines[i]).0 == kind
}

/// The lines after one more event of `kind`: its line counts one more, or a
/// new last line counts one.
pub open spec fn added(lines: Seq<Line>, kind: EventKind) -> Seq<Line> {
    if has_line(lines, kind) {
        let i = line_of(lines, kind);
        lines.update(i, (kind, (lines[i].1 + 1) as u32))
    } else {
        lines.push((kind, 1u32))
    }
}

/// The lines after one event of `kind` less: its line counts one less and
/// stays, even at zero.
pub open spec fn removed(lines: Seq<Line>, kind: EventKind) -> Seq<Line> {
    if has_line(lines, kind) {
        let i = line_of(lines, kind);
        lines.update(i, (kind, (lines[i].1 - 1) as u32))
    } else {
        lines
    }
}

/// The lines of a run of events, each taken in turn.
pub open spec fn tally(kinds: Seq<EventKind>) -> Seq<Line>
    decreases kinds.len(),
{
    if kinds.len() == 0 {
        Seq::empty()
    } else {
        added(tally(kinds.drop_last()), kinds.last())
    }
}

/// The kinds of a run of events.
pub open spec fn kinds_of(events: Seq<WorkerTimelineEvent>) -> Seq<EventKind> {
    Seq::new(events.len(), |i: int| events[i].event@)
}

/// How often `kind` occurs in `kinds`.
pub open spec fn occurrences(kinds: Seq<EventKind>, kind: EventKind) -> nat
    decreases kinds.len(),
{
    if kinds.len() == 0 {
        0
    } else if kinds.last() == kind {
        occurrences(kinds.drop_last(), kind) + 1
    } else {
        occurrences(kinds.drop_last(), kind)
    }
}

/// A kind occurs at most as often as there are events.
pub proof fn lemma_occurrences_bound(kinds: Seq<EventKind>, kind: EventKind)
    ensures
        occurrences(kinds, kind) <= kinds.len(),
    decreases kinds.len(),
{
    if kinds.len() > 0 {
        lemma_occurrences_bound(kinds.drop_last(), kind);
    }
}

/// The tally of fewer than 2^32 events has one line for each kind that occurs,
/// which counts its events, and no line for any other kind.
pub proof fn lemma_tally_counts(kinds: Seq<EventKind>)
    requires
        kinds.len() <= u32::MAX,
    ensures
        distinct_kinds(tally(kinds)),
        tally(kinds).len() <= kinds.len(),
        forall|i: int|
            0 <= i < tally(kinds).len() ==> (#[trigger] tally(kinds)[i]).1 == occurrences(
                kinds,
                tally(kinds)[i].0,
            ) && tally(kinds)[i].1 > 0,
        forall|kind: EventKind|
            occurrences(kinds, kind) > 0 <==> #[trigger] has_line(tally(kinds), kind),
    decreases kinds.len(),
{
    if kinds.len() > 0 {
        let front = kinds.drop_last();
        let kind = kinds.last();
        let before = tally(front);
        let after = tally(kinds);
        lemma_tally_counts(front);
        lemma_occurrences_bound(front, kind);
        if has_line(before, kind) {
            let at = line_of(before, kind);
            assert forall|i: int| 0 <= i < after.len() implies (#[trigger] after[i]).1
                == occurrences(kinds, after[i].0) && after[i].1 > 0 by {
                assert(before[i].1 == occurrences(front, before[i].0));
                if i != at {
                    assert(before[i].0 != before[at].0);
                }
            }
            assert forall|other: EventKind| occurrences(kinds, other) > 0 <==> #[trigger] has_line(
                after,
                other,
            ) by {
                if has_line(before, other) {
                    let o = line_of(before, other);
                    assert(after[o].0 == other);
                }
                if has_line(after, other) {
                    let o = line_of(after, other);
                    assert(before[o].0 == other);
                }
                assert(occurrences(front, other) > 0 <==> has_line(before, other));
            }
        } else {
            assert(occurrences(front, kind) == 0);
            assert forall|i: int| 0 <= i < after.len() implies (#[trigger] after[i]).1
                == occurrences(kinds, after[i].0) && after[i].1 > 0 by {
                if i < before.len() {
                    assert(before[i].1 == occurrences(front, before[i].0));
                    assert(before[i].0 != kind);
                }
            }
            assert forall|other: EventKind| occurrences(kinds, other) > 0 <==> #[trigger] has_line(
                after,
                other,
            ) by {
                if has_line(before, other) {
                    let o = line_of(before, other);
                    assert(after[o].0 == other);
                }
                if has_line(after, other) {
                    let o = line_of(after, other);
                    if o < before.len() {
                        assert(before[o].0 == other);
                    }
                }
                if other == kind {
                    assert(after[before.len() as int].0 == kind);
                }
                assert(occurrences(front, other) > 0 <==> has_line(before, other));
            }
        }
    }
}

/// Every event of a run of fewer than 2^32 events has a line in the run's tally.
pub proof fn lemma_event_has_line(events: Seq<WorkerTimelineEvent>, i: int)
    requires
        events.len() <= u32::MAX,
        0 <= i < events.len(),
    ensures
        has_line(tally(kinds_of(events)), events[i].event@),
{
    let kinds = kinds_of(events);
    lemma_tally_counts(kinds);
    lemma_occurs(kinds, i);
}

/// A kind that is among the kinds occurs at least once.
proof fn lemma_occurs(kinds: Seq<EventKind>, i: int)
    requires
        0 <= i < kinds.len(),
    ensures
        occurrences(kinds, kinds[i]) > 0,
    decreases kinds.len(),
{
    if i < kinds.len() - 1 {
        lemma_occurs(kinds.drop_last(), i);
    }
}

/// The kinds of event that occur among the events shown, each with the number
/// of its events, in the order in which the kinds first occurred.
#[derive(Debug, Clone)]
pub struct RequiredLines {
    unique_events: Vec<(TimelineEvent, u32)>,
}

impl View for RequiredLines {
    type V = Seq<Line>;

    closed spec fn view(&self) -> Seq<Line> {
        Seq::new(
            self.unique_events@.len(),
            |i: int| (self.unique_events@[i].0@, self.unique_events@[i].1),
        )
    }
}

impl RequiredLines {
    /// The lines of `events`.
    pub fn new(events: &[WorkerTimelineEvent]) -> (lines: Self)
        requires
            events@.len() <= u32::MAX,
        ensures
            lines@ == tally(kinds_of(events@)),
            distinct_kinds(lines@),
    {
        let mut this = Self::with_capacity(events.len() / 2);
        let ghost kinds = kinds_of(events@);
        let mut i: usize = 0;
        assert(kinds.take(0) =~= Seq::<EventKind>::empty());
        while i < events.len()
            invariant
                i <= events.len(),
                events@.len() <= u32::MAX,
                kinds == kinds_of(events@),
                this@ == tally(kinds.take(i as int)),
            decreases events.len() - i,
        {
            proof {
                lemma_tally_counts(kinds.take(i as int));
                assert(kinds.take(i + 1).drop_last() =~= kinds.take(i as int));
                assert(kinds.take(i + 1).last() == events@[i as int].event@);
                lemma_occurrences_bound(kinds.take(i as int), events@[i as int].event@);
            }
            this.add(&events[i]);
            i += 1;
        }
        proof {
            assert(kinds.take(i as int) =~= kinds);
            lemma_tally_counts(kinds);
        }
        this
    }

    /// No lines, with room for `capacity` of them.
    pub fn with_capacity(capacity: usize) -> (lines: Self)
        ensures
            lines@ == Seq::<Line>::empty(),
    {
        let lines = Self { unique_events: Vec::with_capacity(capacity) };
        assert(lines@ =~= Seq::<Line>::empty());
        lines
    }

    /// The number of lines.
    pub fn required_lines(&self) -> (n: usize)
        ensures
            n == self@.len(),
    {
        self.unique_events.len()
    }

    /// The kind of each line, in order.
    pub fn events(&self) -> (kinds: Vec<TimelineEvent>)
        ensures
            kinds@.len() == self@.len(),
            forall|i: int| 0 <= i < kinds@.len() ==> (#[trigger] kinds@[i])@ == self@[i].0,
    {
        let mut kinds: Vec<TimelineEvent> = Vec::new();
        let mut i: usize = 0;
        while i < self.unique_events.len()
            invariant
                i <= self.unique_events.len(),
                kinds@.len() == i,
                forall|j: int| 0 <= j < i ==> (#[trigger] kinds@[j])@ == self@[j].0,
            decreases self.unique_events.len() - i,
        {
            kinds.push(self.unique_events[i].0.clone());
            i += 1;
        }
        kinds
    }

    /// The place of the line of `kind`, or the number of lines if it has none.
    fn find(&self, kind: &TimelineEvent) -> (at: usize)
        ensures
            at <= self@.len(),
            at < self@.len() ==> self@[at as int].0 == kind@,
            forall|i: int| 0 <= i < at ==> (#[trigger] self@[i]).0 != kind@,
    {
        let mut at: usize = 0;
        while at < self.unique_events.len()
            invariant
                at <= self.unique_events.len(),
                forall|i: int| 0 <= i < at ==> (#[trigger] self@[i]).0 != kind@,
            decreases self.unique_events.len() - at,
        {
            if self.unique_events[at].0.same_kind(kind) {
                return at;
            }
            at += 1;
        }
        at
    }

    /// Counts one more event of the kind of `event`.
    pub fn add(&mut self, event: &WorkerTimelineEvent)
        requires
            distinct_kinds(old(self)@),
            forall|i: int|
                0 <= i < old(self)@.len() && (#[trigger] old(self)@[i]).0 == event.event@
                    ==> old(self)@[i].1 < u32::MAX,
        ensures
            final(self)@ == added(old(self)@, event.event@),
            distinct_kinds(final(self)@),
    {
        let at = self.find(&event.event);
        if at < self.unique_events.len() {
            let count = self.unique_events[at].1;
            proof {
                assert(old(self)@[at as int].0 == event.event@);
                assert(has_line(old(self)@, event.event@));
                let i = line_of(old(self)@, event.event@);
                assert(i == at) by {
                    if i != at {
                        assert(old(self)@[i].0 == old(self)@[at as int].0);
                    }
                }
            }
            self.unique_events[at].1 = count + 1;
            assert(self@ =~= added(old(self)@, event.event@));
        } else {
            self.unique_events.push((event.event.clone(), 1));
            assert(self@ =~= added(old(self)@, event.event@));
        }
    }

    /// Counts one event of the kind of `event` less. The line stays.
    pub fn remove(&mut self, event: &WorkerTimelineEvent)
        requires
            distinct_kinds(old(self)@),
            forall|i: int|
                0 <= i < old(self)@.len() && (#[trigger] old(self)@[i]).0 == event.event@
                    ==> old(self)@[i].1 > 0,
        ensures
            final(self)@ == removed(old(self)@, event.event@),
            distinct_kinds(final(self)@),
    {
        let at = self.find(&event.event);
        if at < self.unique_events.len() {
            let count = self.unique_events[at].1;
            proof {
                assert(old(self)@[at as int].0 == event.event@);
                assert(has_line(old(self)@, event.event@));
                let i = line_of(old(self)@, event.event@);
                assert(i == at) by {
                    if i != at {
                        assert(old(self)@[i].0 == old(self)@[at as int].0);
                    }
                }
            }
            self.unique_events[at].1 = count - 1;
            assert(self@ =~= removed(old(self)@, event.event@));
        }
    }
}

} // verus!
