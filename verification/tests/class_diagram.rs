use lib::layout::graphviz::{LayoutEdge, RankDir};
use lib::layout::{
    class_entity_ids, class_graph_edges, class_rankdir, collect_standalone_square_edges,
    compute_square_branch, direction_to_rankdir, note_side,
    note_target_id, NoteSide,
    member_text, member_visual_lines, sanitize_id, show_portion, square_edges_for_entities,
    stereotype_label_visible, visible_stereotype_labels,
};
use lib::model::{
    ClassDiagram, ClassHideShowRule, ClassPortion, ClassRuleTarget, Direction, Entity, Group, Link,
    Member, Stereotype,
};
use lib::name_table::NameTable;

#[test]
fn sanitize_id_escapes_special_chars() {
    assert_eq!(sanitize_id("List<String>"), "List_LT_String_GT_");
    assert_eq!(sanitize_id("Map<K, V>"), "Map_LT_K_COMMA__V_GT_");
    assert_eq!(sanitize_id("Simple"), "Simple");
    assert_eq!(sanitize_id("My Class"), "My_Class");
}

#[test]
fn direction_maps_to_rankdir() {
    assert!(matches!(
        direction_to_rankdir(&Direction::TopToBottom),
        RankDir::TopToBottom
    ));
    assert!(matches!(
        direction_to_rankdir(&Direction::LeftToRight),
        RankDir::LeftToRight
    ));
    assert!(matches!(
        direction_to_rankdir(&Direction::BottomToTop),
        RankDir::BottomToTop
    ));
    assert!(matches!(
        direction_to_rankdir(&Direction::RightToLeft),
        RankDir::RightToLeft
    ));
}

#[test]
fn sanitize_id_of_empty_name() {
    assert_eq!(sanitize_id(""), "");
    assert_eq!(sanitize_id("<<>>"), "_LT__LT__GT__GT_");
}

#[test]
fn rankdir_keywords() {
    assert_eq!(RankDir::TopToBottom.as_str(), "TB");
    assert_eq!(RankDir::LeftToRight.as_str(), "LR");
    assert_eq!(RankDir::BottomToTop.as_str(), "BT");
    assert_eq!(RankDir::RightToLeft.as_str(), "RL");
    assert!(matches!(RankDir::default(), RankDir::TopToBottom));
}

fn member(name: &str, ret: Option<&str>) -> Member {
    Member { name: name.to_string(), return_type: ret.map(|s| s.to_string()) }
}

#[test]
fn member_text_formats_methods_and_fields() {
    assert_eq!(member_text(&member("getName()", Some("String"))), "getName(): String");
    assert_eq!(member_text(&member("count", Some("int"))), "count : int");
    assert_eq!(member_text(&member("flag", None)), "flag");
    assert_eq!(member_text(&member("", Some("T"))), " : T");
}

#[test]
fn member_visual_lines_counts_literal_newlines() {
    assert_eq!(member_visual_lines(&member("a", None)), 1);
    assert_eq!(member_visual_lines(&member("a\\n  b", None)), 2);
    assert_eq!(member_visual_lines(&member("a\\nb", Some("x\\ny"))), 3);
    assert_eq!(member_visual_lines(&member("a\nb", None)), 1);
}

fn rule(portion: ClassPortion, target: ClassRuleTarget, show: bool) -> ClassHideShowRule {
    ClassHideShowRule { portion, target, show }
}

#[test]
fn show_portion_last_matching_rule_wins() {
    assert!(show_portion(&[], ClassPortion::Field, "Foo"));
    let rules = vec![
        rule(ClassPortion::Field, ClassRuleTarget::Any, false),
        rule(ClassPortion::Field, ClassRuleTarget::Entity("Foo".into()), true),
        rule(ClassPortion::Method, ClassRuleTarget::Any, false),
    ];
    assert!(show_portion(&rules, ClassPortion::Field, "Foo"));
    assert!(!show_portion(&rules, ClassPortion::Field, "Bar"));
    assert!(!show_portion(&rules, ClassPortion::Method, "Foo"));
    assert!(show_portion(&rules, ClassPortion::Stereotype, "Foo"));
}

#[test]
fn stereotype_rules_filter_labels() {
    let rules = vec![
        rule(ClassPortion::Stereotype, ClassRuleTarget::Any, false),
        rule(ClassPortion::Stereotype, ClassRuleTarget::Stereotype("entity".into()), true),
        rule(ClassPortion::Field, ClassRuleTarget::Any, true),
    ];
    assert!(stereotype_label_visible(&rules, "entity"));
    assert!(!stereotype_label_visible(&rules, "service"));
    assert!(stereotype_label_visible(&[], "service"));
    let sts = vec![Stereotype("service".into()), Stereotype("entity".into())];
    assert_eq!(visible_stereotype_labels(&rules, &sts), vec!["entity".to_string()]);
    assert_eq!(
        visible_stereotype_labels(&[], &sts),
        vec!["service".to_string(), "entity".to_string()]
    );
}

#[test]
fn square_branch_is_ceiling_square_root() {
    assert_eq!(compute_square_branch(0), 0);
    assert_eq!(compute_square_branch(1), 1);
    assert_eq!(compute_square_branch(2), 2);
    assert_eq!(compute_square_branch(4), 2);
    assert_eq!(compute_square_branch(5), 3);
    assert_eq!(compute_square_branch(9), 3);
    assert_eq!(compute_square_branch(10), 4);
}

fn edge(e: &LayoutEdge) -> (String, String, u32, bool, bool) {
    (e.from.clone(), e.to.clone(), e.minlen, e.invisible, e.label.is_none())
}

#[test]
fn square_edges_need_three_entities() {
    let table = NameTable::new();
    assert!(square_edges_for_entities(&["A", "B"], &table).is_empty());
    assert!(square_edges_for_entities(&[], &table).is_empty());
}

#[test]
fn square_edges_form_rows() {
    let mut table = NameTable::new();
    table.insert("B".to_string(), "ent0002".to_string());
    let edges = square_edges_for_entities(&["A", "B", "C", "D", "E"], &table);
    let got: Vec<_> = edges.iter().map(edge).collect();
    assert_eq!(
        got,
        vec![
            ("A".into(), "ent0002".into(), 0, true, true),
            ("ent0002".into(), "C".into(), 0, true, true),
            ("A".into(), "D".into(), 1, true, true),
            ("D".into(), "E".into(), 0, true, true),
        ]
    );
}

#[test]
fn square_edges_sanitize_unknown_names() {
    let table = NameTable::new();
    let edges = square_edges_for_entities(&["A<T>", "B", "C"], &table);
    assert_eq!(edges.len(), 2);
    assert_eq!(edges[0].from, "A_LT_T_GT_");
}

#[test]
fn standalone_square_edges_skip_linked_and_grouped() {
    let names = ["A", "B", "C", "D", "L1", "L2", "G1", "G2", "G3"];
    let cd = ClassDiagram {
        entities: names.iter().map(|n| Entity { name: n.to_string() }).collect(),
        links: vec![Link { from: "L1".into(), to: "L2".into(), label: None, arrow_len: 2 }],
        groups: vec![Group { entities: vec!["G1".into(), "G2".into(), "L1".into(), "G3".into()] }],
        direction: Direction::TopToBottom,
        direction_explicit: false,
    };
    let table = NameTable::new();
    let edges = collect_standalone_square_edges(&cd, &table);
    let got: Vec<_> = edges.iter().map(edge).collect();
    assert_eq!(
        got,
        vec![
            ("A".into(), "B".into(), 0, true, true),
            ("A".into(), "C".into(), 1, true, true),
            ("C".into(), "D".into(), 0, true, true),
            ("G1".into(), "G2".into(), 0, true, true),
            ("G1".into(), "G3".into(), 1, true, true),
        ]
    );
}

#[test]
fn note_sides() {
    assert_eq!(note_side("left"), NoteSide::Left);
    assert_eq!(note_side("top"), NoteSide::Top);
    assert_eq!(note_side("bottom"), NoteSide::Bottom);
    assert_eq!(note_side("right"), NoteSide::Right);
    assert_eq!(note_side("elsewhere"), NoteSide::Right);
}

#[test]
fn note_targets_resolve_to_node_ids() {
    let mut table = NameTable::new();
    table.insert("Foo".to_string(), "cl0001".to_string());
    assert_eq!(note_target_id(&Some("Foo".into()), &table), Some("cl0001".to_string()));
    assert_eq!(note_target_id(&Some("My Bar".into()), &table), Some("My_Bar".to_string()));
    assert_eq!(note_target_id(&None, &table), None);
}

#[test]
fn sanitized_ids_are_dot_safe() {
    for name in ["a<b>, c", "<<,,  >>", "plain"] {
        let id = sanitize_id(name);
        assert!(!id.contains(['<', '>', ',', ' ']));
    }
}

#[test]
fn class_graph_edges_follow_links() {
    let cd = ClassDiagram {
        entities: ["List<T>", "Node", "Free"].iter().map(|n| Entity { name: n.to_string() }).collect(),
        links: vec![
            Link { from: "List<T>".into(), to: "Node".into(), label: Some("has".into()), arrow_len: 2 },
            Link { from: "Node".into(), to: "Other one".into(), label: None, arrow_len: 1 },
            Link { from: "Node".into(), to: "Node".into(), label: None, arrow_len: 0 },
            Link { from: "Node".into(), to: "List<T>".into(), label: None, arrow_len: 4 },
        ],
        groups: vec![],
        direction: Direction::LeftToRight,
        direction_explicit: false,
    };
    let table = class_entity_ids(&cd);
    assert_eq!(table.get("List<T>"), Some(&"List_LT_T_GT_".to_string()));
    assert_eq!(table.get("Free"), Some(&"Free".to_string()));
    assert_eq!(table.get("Other one"), None);
    let edges = class_graph_edges(&cd, &table);
    assert_eq!(edges.len(), 4);
    assert_eq!(edges[0].from, "List_LT_T_GT_");
    assert_eq!(edges[0].to, "Node");
    assert_eq!(edges[0].label, Some("has".to_string()));
    assert_eq!(edges[0].minlen, 1);
    assert!(!edges[0].invisible);
    assert_eq!(edges[1].to, "Other_one");
    assert_eq!(edges[1].minlen, 0);
    assert_eq!(edges[2].minlen, 0);
    assert_eq!(edges[3].minlen, 3);
    assert_eq!(class_rankdir(&cd), RankDir::TopToBottom);
    let explicit = ClassDiagram { direction_explicit: true, ..cd };
    assert_eq!(class_rankdir(&explicit), RankDir::LeftToRight);
}
