use lib::layout::graphviz::{
    decode_xml_entities, parse_edge_title, parse_title, parse_xml_attr_str, skip_separators,
};
use lib::layout::json_diagram::{count_subtree_boxes, format_leaf_value, BoxRowSpec, BoxSpec};
use lib::layout::nwdiag::{ordered_server_names, server_label};
use lib::layout::sequence::find_participant_idx;
use lib::layout::sequence_teoz::builder::unescape_backslash;
use lib::model::{JsonValue, NwdiagDiagram, NwdiagNetwork, ServerRef};
use lib::name_table::NameTable;
use lib::NEWLINE_CHAR;

#[test]
fn decode_xml_entities_once() {
    assert_eq!(decode_xml_entities("a&lt;b&gt;&amp;&quot;&#45;&#39;"), "a<b>&\"-'");
    assert_eq!(decode_xml_entities("plain"), "plain");
    assert_eq!(decode_xml_entities("&amp;lt;"), "&lt;");
    assert_eq!(decode_xml_entities("&amp;amp;&#45&gt"), "&amp;&#45&gt");
    assert_eq!(decode_xml_entities("&&lt;&"), "&<&");
    assert_eq!(decode_xml_entities("&unknown;"), "&unknown;");
}

#[test]
fn parse_title_reads_first_title() {
    let g = "<g id=\"node1\" class=\"node\"><title>A&#45;&gt;B</title><title>x</title></g>";
    assert_eq!(parse_title(g), Some("A->B".to_string()));
    assert_eq!(parse_title("<title>open"), None);
    assert_eq!(parse_title("no title"), None);
    assert_eq!(parse_title("<title></title>"), Some(String::new()));
}

#[test]
fn parse_edge_title_splits_at_arrow() {
    assert_eq!(parse_edge_title("A->B"), Some(("A".to_string(), "B".to_string())));
    assert_eq!(parse_edge_title("A->B->C"), Some(("A".to_string(), "B->C".to_string())));
    assert_eq!(parse_edge_title("->B"), None);
    assert_eq!(parse_edge_title("A->"), None);
    assert_eq!(parse_edge_title("AB"), None);
}

#[test]
fn parse_xml_attr_str_reads_value() {
    let elem = "<polygon fill=\"none\" points=\"1,2 3,4\"/>";
    assert_eq!(parse_xml_attr_str(elem, "points"), Some("1,2 3,4"));
    assert_eq!(parse_xml_attr_str(elem, "fill"), Some("none"));
    assert_eq!(parse_xml_attr_str(elem, "stroke"), None);
    assert_eq!(parse_xml_attr_str("<e cx=\"5", "cx"), None);
}

#[test]
fn skip_separators_moves_past_commas_and_spaces() {
    let chars: Vec<char> = "1, \t\n2".chars().collect();
    let mut pos = 1;
    skip_separators(&chars, &mut pos);
    assert_eq!(pos, 5);
    let mut at_end = chars.len();
    skip_separators(&chars, &mut at_end);
    assert_eq!(at_end, chars.len());
    let mut none = 0;
    skip_separators(&chars, &mut none);
    assert_eq!(none, 0);
}

#[test]
fn unescape_backslash_sequences() {
    assert_eq!(unescape_backslash("a\\\\b"), "a\\b");
    assert_eq!(unescape_backslash("a\\tb"), "a\tb");
    assert_eq!(unescape_backslash("a\\xb"), "a\\xb");
    assert_eq!(unescape_backslash("end\\"), "end\\");
    assert_eq!(unescape_backslash("plain text"), "plain text");
}

#[test]
fn leaf_values_display() {
    assert_eq!(format_leaf_value(&JsonValue::Bool(true)), ("\u{2611} true".to_string(), vec![]));
    assert_eq!(format_leaf_value(&JsonValue::Bool(false)), ("\u{2610} false".to_string(), vec![]));
    assert_eq!(format_leaf_value(&JsonValue::Null), ("null".to_string(), vec![]));
    assert_eq!(format_leaf_value(&JsonValue::Number("42".into())), ("42".to_string(), vec![]));
    assert_eq!(format_leaf_value(&JsonValue::Str("abc".into())), ("abc".to_string(), vec![]));
}

#[test]
fn test_escaped_newline_value_produces_multiline() {
    let (text, lines) = format_leaf_value(&JsonValue::Str("a\\nb\\nc\\nd\\ne\\nf".into()));
    assert_eq!(text, "a\\nb\\nc\\nd\\ne\\nf");
    assert_eq!(lines.len(), 6, "Expected 6 value lines, got: {:?}", lines);
}

#[test]
fn leaf_value_hidden_newlines_split_too() {
    let s = format!("x{}y\\nz", NEWLINE_CHAR);
    let (_, lines) = format_leaf_value(&JsonValue::Str(s));
    assert_eq!(lines, vec!["x", "y", "z"]);
}

fn server(name: &str, address: Option<&str>, description: Option<&str>) -> ServerRef {
    ServerRef {
        name: name.to_string(),
        address: address.map(|s| s.to_string()),
        description: description.map(|s| s.to_string()),
    }
}

#[test]
fn server_label_lines() {
    assert_eq!(server_label(&server("web01", Some("10.0.0.10"), Some("frontend"))), "web01\n10.0.0.10\nfrontend");
    assert_eq!(server_label(&server("db01", None, None)), "db01");
    assert_eq!(server_label(&server("app", None, Some("x"))), "app\nx");
}

fn sample_diagram() -> NwdiagDiagram {
    NwdiagDiagram {
        title: Some("Network".to_string()),
        networks: vec![
            NwdiagNetwork {
                name: "dmz".to_string(),
                address: Some("10.0.0.0/24".to_string()),
                color: Some("#E8F4FF".to_string()),
                servers: vec![
                    server("web01", Some("10.0.0.10"), Some("frontend")),
                    server("db01", None, None),
                ],
            },
            NwdiagNetwork {
                name: "lan".to_string(),
                address: None,
                color: None,
                servers: vec![server("web01", None, Some("app")), server("app01", None, None)],
            },
        ],
    }
}

#[test]
fn repeated_servers_share_one_column() {
    assert_eq!(ordered_server_names(&sample_diagram()), vec!["web01", "db01", "app01"]);
    let empty = NwdiagDiagram { title: None, networks: vec![] };
    assert!(ordered_server_names(&empty).is_empty());
}

#[test]
fn participant_lookup() {
    let mut t = NameTable::new();
    t.insert("Alice".to_string(), 0usize);
    t.insert("Bob".to_string(), 1usize);
    assert_eq!(find_participant_idx(&t, "Bob"), Some(1));
    assert_eq!(find_participant_idx(&t, "Carol"), None);
    t.insert("Bob".to_string(), 7usize);
    assert_eq!(find_participant_idx(&t, "Bob"), Some(7));
    assert_eq!(find_participant_idx(&t, "Alice"), Some(0));
}

fn row(child: Option<usize>) -> BoxRowSpec {
    BoxRowSpec {
        key: Some("k".to_string()),
        value_lines: vec![],
        has_child: child.is_some(),
        child_spec_idx: child,
    }
}

#[test]
fn subtree_box_counts() {
    let specs = vec![
        BoxSpec { rows: vec![row(Some(1)), row(None), row(Some(2))] },
        BoxSpec { rows: vec![row(Some(3))] },
        BoxSpec { rows: vec![] },
        BoxSpec { rows: vec![row(None)] },
    ];
    assert_eq!(count_subtree_boxes(0, &specs), 4);
    assert_eq!(count_subtree_boxes(1, &specs), 2);
    assert_eq!(count_subtree_boxes(2, &specs), 1);
    assert_eq!(count_subtree_boxes(3, &specs), 1);
}
