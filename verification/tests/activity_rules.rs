use lib::layout::activity::{
    assign_note_modes, classify_activity_table_lines, flow_edge_pairs, is_flow_node, node_swimlanes,
    ActivityLaneEvent, resolve_swimlane_index,
    ActivityNodeKindLayout, ActivityNoteModeLayout, ActivityTableKind, NotePositionLayout,
};
use lib::layout::creole_prefix::collect_unclosed_creole_prefix;
use lib::layout::activity::ActivityNoteModeLayout::{Grouped, Single};

fn note(mode: ActivityNoteModeLayout) -> ActivityNodeKindLayout {
    ActivityNodeKindLayout::Note { position: NotePositionLayout::Right, mode }
}

#[test]
fn notes_are_not_flow_nodes() {
    assert!(is_flow_node(&ActivityNodeKindLayout::Action));
    assert!(is_flow_node(&ActivityNodeKindLayout::Start));
    assert!(is_flow_node(&ActivityNodeKindLayout::Detach));
    assert!(!is_flow_node(&note(ActivityNoteModeLayout::Single)));
    assert!(!is_flow_node(&ActivityNodeKindLayout::FloatingNote {
        position: NotePositionLayout::Left,
        mode: ActivityNoteModeLayout::Grouped,
    }));
}

#[test]
fn swimlane_lookup_defaults_to_first() {
    let lanes = vec!["Lane A".to_string(), "Lane B".to_string(), "Lane B".to_string()];
    assert_eq!(resolve_swimlane_index(&lanes, "Lane B"), 1);
    assert_eq!(resolve_swimlane_index(&lanes, "Lane A"), 0);
    assert_eq!(resolve_swimlane_index(&lanes, "missing"), 0);
    assert_eq!(resolve_swimlane_index(&[], "x"), 0);
}

#[test]
fn table_detection() {
    assert_eq!(classify_activity_table_lines(&["plain text"]), None);
    assert_eq!(classify_activity_table_lines(&[]), None);
    assert_eq!(
        classify_activity_table_lines(&["|a|b|", "|c|"]),
        Some(ActivityTableKind::MultiColumn)
    );
    assert_eq!(
        classify_activity_table_lines(&["  |table cell|  ", "", "| other |"]),
        Some(ActivityTableKind::SingleColumn { rows: vec!["table cell".into(), "other".into()] })
    );
    assert_eq!(classify_activity_table_lines(&["plain text", "|table cell|"]), None);
    assert_eq!(
        classify_activity_table_lines(&["plain", "|a|b|"]),
        Some(ActivityTableKind::MultiColumn)
    );
    assert_eq!(classify_activity_table_lines(&["||"]), None);
    assert_eq!(
        classify_activity_table_lines(&["|||"]),
        Some(ActivityTableKind::MultiColumn)
    );
}

#[test]
fn unclosed_markup_is_carried() {
    assert_eq!(collect_unclosed_creole_prefix("* Calling the method is <back:red>prohibited"), "<back:red>");
    assert_eq!(collect_unclosed_creole_prefix("contain <b>HTML</b>"), "");
    assert_eq!(collect_unclosed_creole_prefix("<B>bold <i>both"), "<b><i>");
    assert_eq!(collect_unclosed_creole_prefix("<b>x <i>y</b> z"), "<i>");
    assert_eq!(collect_unclosed_creole_prefix("<color:Red>a <size:12>b</color>"), "<size:12>");
    assert_eq!(collect_unclosed_creole_prefix("<back:red"), "");
    assert_eq!(collect_unclosed_creole_prefix("no markup at all"), "");
    assert_eq!(collect_unclosed_creole_prefix("</b>stray close"), "");
    assert_eq!(collect_unclosed_creole_prefix("é<u>ü"), "<u>");
}

#[test]
fn note_modes_follow_runs() {
    let mut kinds = vec![
        note(Single),
        ActivityNodeKindLayout::Action,
        note(Grouped),
        ActivityNodeKindLayout::Action,
        note(Single),
        note(Single),
        ActivityNodeKindLayout::Stop,
    ];
    assign_note_modes(&mut kinds);
    assert_eq!(
        kinds,
        vec![
            note(Single),
            ActivityNodeKindLayout::Action,
            note(Single),
            ActivityNodeKindLayout::Action,
            note(Grouped),
            note(Grouped),
            ActivityNodeKindLayout::Stop,
        ]
    );
}

#[test]
fn note_modes_keep_sides_and_sorts() {
    let mut kinds = vec![
        ActivityNodeKindLayout::Action,
        ActivityNodeKindLayout::FloatingNote {
            position: NotePositionLayout::Left,
            mode: ActivityNoteModeLayout::Grouped,
        },
    ];
    assign_note_modes(&mut kinds);
    assert_eq!(
        kinds[1],
        ActivityNodeKindLayout::FloatingNote {
            position: NotePositionLayout::Left,
            mode: ActivityNoteModeLayout::Single,
        }
    );
    let mut empty: Vec<ActivityNodeKindLayout> = vec![];
    assign_note_modes(&mut empty);
    assert!(empty.is_empty());
}

#[test]
fn flow_edges_skip_notes() {
    let kinds = vec![
        ActivityNodeKindLayout::Start,
        note(Single),
        ActivityNodeKindLayout::Action,
        note(Grouped),
        note(Grouped),
        ActivityNodeKindLayout::Stop,
    ];
    assert_eq!(flow_edge_pairs(&kinds), vec![(0, 2), (2, 5)]);
    assert_eq!(flow_edge_pairs(&vec![ActivityNodeKindLayout::Action]), vec![]);
    assert_eq!(flow_edge_pairs(&vec![note(Single), note(Single)]), vec![]);
}

#[test]
fn unclosed_markup_collected_twice_is_unchanged() {
    for line in [
        "<B>bold <color:red>x <i>y</i>",
        "<size:12><back:#fff>a</size> <s>",
        "plain",
        "<font:serif>日本語 <u>",
    ] {
        let p = collect_unclosed_creole_prefix(line);
        assert_eq!(collect_unclosed_creole_prefix(&p), p);
    }
    assert_eq!(collect_unclosed_creole_prefix("<B>bold <color:red>x <i>y</i>"), "<b><color:red>");
}

#[test]
fn nodes_take_the_lane_of_the_last_switch() {
    let lanes = vec!["A".to_string(), "B".to_string(), "C".to_string()];
    let events = vec![
        ActivityLaneEvent::Node,
        ActivityLaneEvent::Swimlane { name: "C".to_string() },
        ActivityLaneEvent::Node,
        ActivityLaneEvent::NoNode,
        ActivityLaneEvent::Node,
        ActivityLaneEvent::Swimlane { name: "missing".to_string() },
        ActivityLaneEvent::Node,
        ActivityLaneEvent::Swimlane { name: "B".to_string() },
    ];
    assert_eq!(node_swimlanes(&events, &lanes), vec![0, 2, 2, 0]);
    assert!(node_swimlanes(&[], &lanes).is_empty());
}
