use lib::layout::sequence::{max_fragment_depths, update_fragment_participant_range, FragmentStep};
use lib::layout::sequence_teoz::builder::{
    find_preceding_self_message, inside_tile_parallel, is_last_tile_any_message,
    is_last_tile_self_message, pair_activations, ActivationSpan, LifeStep, TeozTileKind,
};
use lib::layout::sequence_teoz::builder::LifeStep::{Activate, Deactivate, Destroy, Message, Other};
use lib::layout::sequence_teoz::builder::TeozTileKind::{
    Communication, Divider, LifeEvent, Note, SelfMessage,
};

#[test]
fn last_tile_skips_life_events() {
    assert!(is_last_tile_self_message(&[Communication, SelfMessage, LifeEvent, LifeEvent]));
    assert!(!is_last_tile_self_message(&[SelfMessage, Communication, LifeEvent]));
    assert!(is_last_tile_any_message(&[SelfMessage, Communication, LifeEvent]));
    assert!(!is_last_tile_any_message(&[Communication, Note]));
    assert!(!is_last_tile_self_message(&[LifeEvent, LifeEvent]));
    assert!(!is_last_tile_any_message(&[]));
}

#[test]
fn preceding_self_message_position() {
    let tiles: Vec<TeozTileKind> = vec![Communication, SelfMessage, LifeEvent, Note, SelfMessage];
    assert_eq!(find_preceding_self_message(&tiles, 3), Some(1));
    assert_eq!(find_preceding_self_message(&tiles, 2), Some(1));
    assert_eq!(find_preceding_self_message(&tiles, 4), None);
    assert_eq!(find_preceding_self_message(&tiles, 5), Some(4));
    assert_eq!(find_preceding_self_message(&tiles, 1), None);
    assert_eq!(find_preceding_self_message(&tiles, 0), None);
    assert_eq!(find_preceding_self_message(&[Divider, LifeEvent], 2), None);
}

#[test]
fn fragment_ranges_widen() {
    let mut ranges = vec![(None, None), (Some(2), Some(4)), (Some(1), Some(1))];
    update_fragment_participant_range(&mut ranges, 3);
    assert_eq!(ranges, vec![(Some(3), Some(3)), (Some(2), Some(4)), (Some(1), Some(3))]);
    update_fragment_participant_range(&mut ranges, 0);
    assert_eq!(ranges, vec![(Some(0), Some(3)), (Some(0), Some(4)), (Some(0), Some(3))]);
    let before = ranges.clone();
    update_fragment_participant_range(&mut ranges, 0);
    assert_eq!(ranges, before);
}

fn span(participant: usize, start: usize, end: Option<usize>, level: usize) -> ActivationSpan {
    ActivationSpan { participant, start, end, level }
}

#[test]
fn activations_pair_up() {
    let events = vec![
        Activate(0),
        Message { parallel: false },
        Activate(0),
        Activate(1),
        Deactivate(0),
        Deactivate(2),
        Activate(2),
        Activate(2),
        Destroy(2),
        Other,
    ];
    let bars = pair_activations(&events);
    assert_eq!(
        bars,
        vec![
            span(0, 2, Some(4), 2),
            span(2, 7, Some(8), 2),
            span(2, 6, Some(8), 1),
            span(0, 0, None, 1),
            span(1, 3, None, 1),
        ]
    );
    let activations = events.iter().filter(|e| matches!(e, Activate(_))).count();
    assert_eq!(bars.len(), activations);
    assert!(bars.iter().all(|b| b.level >= 1));
    assert!(pair_activations(&[Deactivate(0)]).is_empty());
}

#[test]
fn inline_events_before_parallel_message() {
    let events = vec![
        Message { parallel: false },
        Activate(0),
        Deactivate(1),
        Message { parallel: true },
        Activate(1),
        Message { parallel: false },
        Destroy(0),
        Other,
        Activate(0),
        Message { parallel: true },
    ];
    assert_eq!(
        inside_tile_parallel(&events),
        vec![false, true, true, false, false, false, false, false, false, false]
    );
    assert!(inside_tile_parallel(&[]).is_empty());
}

#[test]
fn fragment_depths_per_participant() {
    let events = vec![
        FragmentStep::Start,
        FragmentStep::Message { from: Some(0), to: Some(2) },
        FragmentStep::Start,
        FragmentStep::Message { from: Some(1), to: Some(1) },
        FragmentStep::End,
        FragmentStep::End,
        FragmentStep::Start,
        FragmentStep::Message { from: Some(3), to: None },
        FragmentStep::End,
        FragmentStep::End,
        FragmentStep::Other,
    ];
    assert_eq!(max_fragment_depths(&events, 4), vec![1, 2, 1, 1]);
    assert_eq!(max_fragment_depths(&[FragmentStep::Start, FragmentStep::End], 2), vec![0, 0]);
    assert_eq!(max_fragment_depths(&[], 0), Vec::<usize>::new());
}
