//! The profile that the dashboard shows: dataflow nodes, edges, and the
//! events that workers logged.

use std::cmp::Ordering;
use vstd::prelude::*;
use vstd::std_specs::cmp::PartialOrdSpecImpl;

verus! {

/// Slack, in nanoseconds, within which two events count as overlapping.
pub const NS_MARGIN: u64 = 500_000;

pub type EventId = u64;

/// Everything a profile file holds.
#[derive(Debug, Clone, PartialEq, PartialOrd)]
pub struct ProfilingData {
    pub nodes: Vec<Node>,
    pub subgraphs: Vec<Subgraph>,
    pub edges: Vec<Edge>,
    pub palette_colors: Vec<String>,
    pub timeline_events: Vec<WorkerTimelineEvent>,
}

#[derive(Debug, Clone, PartialEq, PartialOrd)]
pub struct Node {
    pub id: usize,
    pub addr: Vec<usize>,
    pub name: String,
    pub max_activation_time: String,
    pub min_activation_time: String,
    pub average_activation_time: String,
    pub total_activation_time: String,
    pub invocations: usize,
    pub fill_color: String,
    pub text_color: String,
    pub activation_durations: Vec<ActivationDuration>,
    pub max_arrangement_size: Option<usize>,
    pub min_arrangement_size: Option<usize>,
}

#[derive(Debug, Copy, Clone, PartialEq, PartialOrd)]
pub struct ActivationDuration {
    pub activation_time: u64,
    pub activated_at: u64,
}

#[derive(Debug, Clone, PartialEq, PartialOrd)]
pub struct Subgraph {
    pub id: usize,
    pub addr: Vec<usize>,
    pub name: String,
    pub max_activation_time: String,
    pub mix_activation_time: String,
    pub average_activation_time: String,
    pub total_activation_time: String,
    pub invocations: usize,
    pub fill_color: String,
    pub text_color: String,
}

#[derive(Debug, Clone, PartialEq, Eq, PartialOrd, Ord, Hash)]
pub struct Edge {
    pub src: Vec<usize>,
    pub dest: Vec<usize>,
    pub channel_id: usize,
    pub edge_kind: EdgeKind,
}

#[derive(Debug, Clone, Copy, PartialEq, Eq, PartialOrd, Ord, Hash)]
pub enum EdgeKind {
    Normal,
    Crossing,
}

/// What a worker was doing.
#[derive(Debug, PartialEq, Eq, Hash)]
pub enum TimelineEvent {
    OperatorActivation { operator_id: usize, operator_name: String },
    Merge { operator_id: usize, operator_name: String },
    Progress,
    Message,
    Application,
    Input,
    Parked,
}

/// A [`TimelineEvent`] as a mathematical value.
pub ghost enum EventKind {
    OperatorActivation { operator_id: usize, operator_name: Seq<char> },
    Merge { operator_id: usize, operator_name: Seq<char> },
    Progress,
    Message,
    Application,
    Input,
    Parked,
}

impl View for TimelineEvent {
    type V = EventKind;

    open spec fn view(&self) -> EventKind {
        match self {
            TimelineEvent::OperatorActivation { operator_id, operator_name } => {
                EventKind::OperatorActivation {
                    operator_id: *operator_id,
                    operator_name: operator_name@,
                }
            },
            TimelineEvent::Merge { operator_id, operator_name } => EventKind::Merge {
                operator_id: *operator_id,
                operator_name: operator_name@,
            },
            TimelineEvent::Progress => EventKind::Progress,
            TimelineEvent::Message => EventKind::Message,
            TimelineEvent::Application => EventKind::Application,
            TimelineEvent::Input => EventKind::Input,
            TimelineEvent::Parked => EventKind::Parked,
        }
    }
}

impl EventKind {
    /// Where the kind stands among the kinds: parking lowest, operator
    /// activations highest.
    pub open spec fn class(self) -> int {
        match self {
            EventKind::OperatorActivation { .. } => 6,
            EventKind::Merge { .. } => 5,
            EventKind::Progress => 4,
            EventKind::Message => 3,
            EventKind::Application => 2,
            EventKind::Input => 1,
            EventKind::Parked => 0,
        }
    }

    /// The operator that the kind names, 0 for the kinds that name none.
    pub open spec fn operator(self) -> int {
        match self {
            EventKind::OperatorActivation { operator_id, .. } => operator_id as int,
            EventKind::Merge { operator_id, .. } => operator_id as int,
            _ => 0,
        }
    }

    /// The number that the kinds are ordered by: first by class, then by
    /// operator.
    pub open spec fn rank(self) -> int {
        self.class() * 0x1_0000_0000_0000_0000 + self.operator()
    }
}

impl TimelineEvent {
    /// The number that events are ordered by.
    pub fn rank(&self) -> (rank: u128)
        ensures
            rank == self@.rank(),
    {
        let (first, second): (u64, u64) = match self {
            TimelineEvent::OperatorActivation { operator_id, .. } => (*operator_id as u64, 6),
            TimelineEvent::Merge { operator_id, .. } => (*operator_id as u64, 5),
            TimelineEvent::Progress => (0, 4),
            TimelineEvent::Message => (0, 3),
            TimelineEvent::Application => (0, 2),
            TimelineEvent::Input => (0, 1),
            TimelineEvent::Parked => (0, 0),
        };
        (second as u128) * 0x1_0000_0000_0000_0000u128 + (first as u128)
    }

    /// Whether two events are of the same kind, operator and name included.
    pub fn same_kind(&self, other: &Self) -> (same: bool)
        ensures
            same == (self@ == other@),
    {
        match (self, other) {
            (
                TimelineEvent::OperatorActivation { operator_id: a, operator_name: s },
                TimelineEvent::OperatorActivation { operator_id: b, operator_name: t },
            ) => *a == *b && *s == *t,
            (
                TimelineEvent::Merge { operator_id: a, operator_name: s },
                TimelineEvent::Merge { operator_id: b, operator_name: t },
            ) => *a == *b && *s == *t,
            (TimelineEvent::Progress, TimelineEvent::Progress) => true,
            (TimelineEvent::Message, TimelineEvent::Message) => true,
            (TimelineEvent::Application, TimelineEvent::Application) => true,
            (TimelineEvent::Input, TimelineEvent::Input) => true,
            (TimelineEvent::Parked, TimelineEvent::Parked) => true,
            _ => false,
        }
    }
}

impl Clone for TimelineEvent {
    fn clone(&self) -> (copy: Self)
        ensures
            copy == *self,
    {
        match self {
            TimelineEvent::OperatorActivation { operator_id, operator_name } => {
                TimelineEvent::OperatorActivation {
                    operator_id: *operator_id,
                    operator_name: operator_name.clone(),
                }
            },
            TimelineEvent::Merge { operator_id, operator_name } => TimelineEvent::Merge {
                operator_id: *operator_id,
                operator_name: operator_name.clone(),
            },
            TimelineEvent::Progress => TimelineEvent::Progress,
            TimelineEvent::Message => TimelineEvent::Message,
            TimelineEvent::Application => TimelineEvent::Application,
            TimelineEvent::Input => TimelineEvent::Input,
            TimelineEvent::Parked => TimelineEvent::Parked,
        }
    }
}

impl PartialOrd for TimelineEvent {
    fn partial_cmp(&self, other: &Self) -> (order: Option<Ordering>) {
        self.rank().partial_cmp(&other.rank())
    }
}

impl PartialOrdSpecImpl for TimelineEvent {
    open spec fn obeys_partial_cmp_spec() -> bool {
        true
    }

    open spec fn partial_cmp_spec(&self, other: &Self) -> Option<Ordering> {
        if self@.rank() < other@.rank() {
            Some(Ordering::Less)
        } else if self@.rank() == other@.rank() {
            Some(Ordering::Equal)
        } else {
            Some(Ordering::Greater)
        }
    }
}

/// One event of one worker's timeline.
#[derive(Debug, PartialEq, Eq, PartialOrd, Hash)]
pub struct WorkerTimelineEvent {
    pub event_id: EventId,
    pub worker: usize,
    pub event: TimelineEvent,
    pub start_time: u64,
    pub duration: u64,
    /// The number of events that have been collapsed into this one.
    pub collapsed_events: usize,
}

impl Clone for WorkerTimelineEvent {
    fn clone(&self) -> (copy: Self)
        ensures
            copy == *self,
    {
        WorkerTimelineEvent {
            event_id: self.event_id,
            worker: self.worker,
            event: self.event.clone(),
            start_time: self.start_time,
            duration: self.duration,
            collapsed_events: self.collapsed_events,
        }
    }
}

impl WorkerTimelineEvent {
    /// When the event is over.
    pub open spec fn end(&self) -> int {
        self.start_time + self.duration
    }

    /// How two events lie to each other, each end of `self` moved later by the
    /// margin: `Equal` if they overlap, `Greater` if `self` is over before
    /// `other` starts, `Less` if it starts after `other` is over.
    pub open spec fn overlap_order(&self, other: &Self) -> Ordering {
        if self.start_time + NS_MARGIN <= other.end() && self.end() + NS_MARGIN
            >= other.start_time {
            Ordering::Equal
        } else if self.end() + NS_MARGIN < other.start_time {
            Ordering::Greater
        } else {
            Ordering::Less
        }
    }

    pub fn end_time(&self) -> (end: u64)
        requires
            self.end() <= u64::MAX,
        ensures
            end == self.end(),
    {
        self.start_time + self.duration
    }

    pub fn overlap(&self, other: &Self) -> (order: Ordering)
        requires
            self.end() + NS_MARGIN <= u64::MAX,
            other.end() <= u64::MAX,
        ensures
            order == self.overlap_order(other),
    {
        // If the ranges overlap they're considered equal
        if self.start_time + NS_MARGIN <= other.end_time() && self.end_time() + NS_MARGIN
            >= other.start_time {
            Ordering::Equal
        } else if self.start_time + NS_MARGIN < other.start_time && self.end_time() + NS_MARGIN
            < other.end_time() {
            Ordering::Greater
        } else if self.start_time + NS_MARGIN > other.start_time && self.end_time() + NS_MARGIN
            > other.end_time() {
            Ordering::Less
        } else {
            // Events that do not overlap lie wholly to one side of each other.
            unreached()
        }
    }
}

} // verus!
