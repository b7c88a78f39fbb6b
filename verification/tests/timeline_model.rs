use gigatrace::data::{TimelineEvent, WorkerTimelineEvent, NS_MARGIN};
use gigatrace::timeline::quant::ViewQuant;
use gigatrace::timeline::required_lines::RequiredLines;
use gigatrace::timeline::{build_trace, ranked_kinds};
use std::cmp::Ordering;

fn operator(id: usize, name: &str) -> TimelineEvent {
    TimelineEvent::OperatorActivation {
        operator_id: id,
        operator_name: name.to_string(),
    }
}

fn merge(id: usize, name: &str) -> TimelineEvent {
    TimelineEvent::Merge {
        operator_id: id,
        operator_name: name.to_string(),
    }
}

fn worker_event(id: u64, event: TimelineEvent, start_time: u64, duration: u64) -> WorkerTimelineEvent {
    WorkerTimelineEvent {
        event_id: id,
        worker: 0,
        event,
        start_time,
        duration,
        collapsed_events: 0,
    }
}

#[test]
fn rank_orders_by_class_then_operator() {
    let class = 1u128 << 64;
    assert_eq!(TimelineEvent::Parked.rank(), 0);
    assert_eq!(TimelineEvent::Input.rank(), class);
    assert_eq!(TimelineEvent::Application.rank(), 2 * class);
    assert_eq!(TimelineEvent::Message.rank(), 3 * class);
    assert_eq!(TimelineEvent::Progress.rank(), 4 * class);
    assert_eq!(merge(7, "join").rank(), 5 * class + 7);
    assert_eq!(operator(3, "map").rank(), 6 * class + 3);
    assert_eq!(operator(usize::MAX, "map").rank(), 6 * class + usize::MAX as u128);
}

#[test]
fn events_compare_by_rank() {
    assert!(TimelineEvent::Parked < TimelineEvent::Input);
    assert!(TimelineEvent::Progress < merge(0, "a"));
    assert!(merge(900, "a") < operator(0, "a"));
    assert!(operator(1, "a") < operator(2, "a"));
    // The name does not count for the order, though it does for equality.
    assert_eq!(
        operator(1, "a").partial_cmp(&operator(1, "b")),
        Some(Ordering::Equal)
    );
    assert_ne!(operator(1, "a"), operator(1, "b"));
}

#[test]
fn same_kind_looks_at_operator_and_name() {
    assert!(operator(1, "a").same_kind(&operator(1, "a")));
    assert!(!operator(1, "a").same_kind(&operator(1, "b")));
    assert!(!operator(1, "a").same_kind(&operator(2, "a")));
    assert!(!operator(1, "a").same_kind(&merge(1, "a")));
    assert!(merge(1, "a").same_kind(&merge(1, "a")));
    assert!(TimelineEvent::Parked.same_kind(&TimelineEvent::Parked));
    assert!(!TimelineEvent::Parked.same_kind(&TimelineEvent::Input));
    assert!(TimelineEvent::Message.same_kind(&TimelineEvent::Message.clone()));
}

#[test]
fn end_time_is_start_plus_duration() {
    assert_eq!(worker_event(0, TimelineEvent::Parked, 40, 2).end_time(), 42);
    assert_eq!(worker_event(0, TimelineEvent::Parked, 40, 0).end_time(), 40);
}

#[test]
fn overlap_with_margin() {
    let first = worker_event(0, TimelineEvent::Parked, 0, 1_000_000);
    let far = worker_event(1, TimelineEvent::Parked, 2_000_000, 10);
    let near = worker_event(2, TimelineEvent::Parked, 1_400_000, 10);
    let touching = worker_event(3, TimelineEvent::Parked, 1_000_000 + NS_MARGIN, 10);
    let just_past = worker_event(4, TimelineEvent::Parked, 1_000_001 + NS_MARGIN, 10);

    assert_eq!(first.overlap(&far), Ordering::Greater);
    assert_eq!(far.overlap(&first), Ordering::Less);
    assert_eq!(first.overlap(&near), Ordering::Equal);
    assert_eq!(first.overlap(&touching), Ordering::Equal);
    assert_eq!(first.overlap(&just_past), Ordering::Greater);
    assert_eq!(first.overlap(&first), Ordering::Equal);
}

fn sample_events() -> Vec<WorkerTimelineEvent> {
    vec![
        worker_event(10, TimelineEvent::Parked, 100, 5),
        worker_event(11, operator(1, "a"), 110, 7),
        worker_event(12, TimelineEvent::Parked, 120, 1),
        worker_event(13, TimelineEvent::Input, 90, 2),
        worker_event(14, operator(1, "b"), 95, 400),
        worker_event(15, operator(1, "a"), 300, 3),
    ]
}

#[test]
fn required_lines_has_one_line_per_kind() {
    let lines = RequiredLines::new(&sample_events());
    assert_eq!(lines.required_lines(), 4);
    assert_eq!(
        lines.events(),
        vec![
            TimelineEvent::Parked,
            operator(1, "a"),
            TimelineEvent::Input,
            operator(1, "b"),
        ]
    );
    assert_eq!(RequiredLines::new(&[]).required_lines(), 0);
    assert_eq!(RequiredLines::with_capacity(8).required_lines(), 0);
}

#[test]
fn a_line_stays_when_its_events_are_removed() {
    let events = sample_events();
    let mut lines = RequiredLines::with_capacity(0);
    lines.add(&events[0]);
    lines.add(&events[1]);
    lines.add(&events[2]);
    assert_eq!(lines.required_lines(), 2);
    lines.remove(&events[0]);
    lines.remove(&events[2]);
    assert_eq!(lines.required_lines(), 2);
    // Removing an event of a kind that has no line changes nothing.
    lines.remove(&events[3]);
    assert_eq!(lines.required_lines(), 2);
    assert_eq!(lines.events(), vec![TimelineEvent::Parked, operator(1, "a")]);
    lines.add(&events[3]);
    assert_eq!(lines.required_lines(), 3);
}

#[test]
fn kinds_are_ranked_in_ascending_order() {
    let lines = RequiredLines::new(&sample_events());
    assert_eq!(
        ranked_kinds(&lines),
        vec![
            TimelineEvent::Parked,
            TimelineEvent::Input,
            operator(1, "a"),
            operator(1, "b"),
        ]
    );
}

#[test]
fn trace_has_one_track_per_kind_in_rank_order() {
    let events = sample_events();
    let lines = RequiredLines::new(&events);
    let trace = build_trace(&events, &lines);
    assert_eq!(trace.tracks.len(), 4);

    let ids: Vec<Vec<u64>> = trace
        .tracks
        .iter()
        .map(|info| {
            info.track
                .events(&trace.pool)
                .iter()
                .map(|ev| ev.kind)
                .collect()
        })
        .collect();
    assert_eq!(ids, vec![vec![10, 12], vec![13], vec![11, 15], vec![14]]);

    let parked = trace.tracks[0].track.events(&trace.pool);
    assert_eq!(parked[0].timestamp.unpack(), 100);
    assert_eq!(parked[0].duration.unpack(), 5);
    assert_eq!(parked[1].timestamp.unpack(), 120);

    for info in &trace.tracks {
        assert!(info.track.fits(&trace.pool));
        assert_eq!(info.zoom_index.values.len(), 2 * info.track.block_locations.len());
    }
    let longest = trace.tracks[2].zoom_index.range_query(0..1);
    assert_eq!(longest.0.map(|ev| ev.kind), Some(11));

    assert_eq!(trace.time_bounds(), Some(90..495));
}

#[test]
fn trace_of_no_events_has_no_tracks() {
    let lines = RequiredLines::new(&[]);
    let trace = build_trace(&[], &lines);
    assert!(trace.tracks.is_empty());
    assert!(trace.pool.blocks.is_empty());
    assert_eq!(trace.time_bounds(), None);
}

#[test]
fn grid_step_is_the_power_of_two_above_two_pixels() {
    // 1000 ns on 10 pixels are 100 ns per pixel; twice that takes 8 bits.
    assert_eq!(ViewQuant::new(&(0..1_000), 10).time_step, 256);
    assert_eq!(ViewQuant::new(&(500..1_500), 10).time_step, 256);
    // Less than a nanosecond per pixel.
    assert_eq!(ViewQuant::new(&(0..5), 10).time_step, 1);
    assert_eq!(ViewQuant::new(&(7..7), 1).time_step, 1);
    // One nanosecond per pixel: twice that is 2, which takes 2 bits.
    assert_eq!(ViewQuant::new(&(0..10), 10).time_step, 4);
    assert_eq!(ViewQuant::new(&(0..1 << 40), 1).time_step, 1 << 42);
}

#[test]
fn round_down_and_quantize_follow_the_grid() {
    let quant = ViewQuant { time_step: 256 };
    assert_eq!(quant.round_down(0), 0);
    assert_eq!(quant.round_down(255), 0);
    assert_eq!(quant.round_down(256), 256);
    assert_eq!(quant.round_down(1_000), 768);
    assert_eq!(quant.quantize(&(1_000..2_000)), 768..2_048);
    assert_eq!(quant.quantize(&(256..512)), 256..768);
    let unit = ViewQuant { time_step: 1 };
    assert_eq!(unit.round_down(12_345), 12_345);
    assert_eq!(unit.quantize(&(3..9)), 3..10);
}

#[test]
fn event_map_finds_events_by_id_and_keeps_the_last_of_an_id() {
    let mut events = sample_events();
    events.push(worker_event(11, TimelineEvent::Message, 1, 1));
    let map = gigatrace::timeline::build_event_map(&events);
    assert_eq!(map.len(), 6);
    assert_eq!(map[&10], events[0]);
    assert_eq!(map[&11], events[6]);
    assert_eq!(map[&15], events[5]);
    assert!(!map.contains_key(&16));
    assert!(gigatrace::timeline::build_event_map(&[]).is_empty());
}
