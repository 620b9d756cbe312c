use lib::layout::erd::{assign_ranks, erd_link_edges};
use lib::model::{ErdIsa, ErdLink};

fn ids(names: &[&str]) -> Vec<String> {
    names.iter().map(|s| s.to_string()).collect()
}

fn link(from: &str, to: &str) -> ErdLink {
    ErdLink { from: from.to_string(), to: to.to_string(), cardinality: "1".to_string() }
}

#[test]
fn chain_is_ranked_from_its_root() {
    let all = ids(&["A", "B", "R"]);
    let links = vec![link("A", "R"), link("R", "B")];
    let ranks = assign_ranks(&all, &links, &[]);
    assert_eq!(ranks.get("A"), Some(&0));
    assert_eq!(ranks.get("R"), Some(&1));
    assert_eq!(ranks.get("B"), Some(&2));
}

#[test]
fn unlinked_entities_share_rank_zero() {
    let all = ids(&["A", "B", "C"]);
    let ranks = assign_ranks(&all, &[], &[]);
    assert_eq!(ranks.get("A"), Some(&0));
    assert_eq!(ranks.get("B"), Some(&0));
    assert_eq!(ranks.get("C"), Some(&0));
}

#[test]
fn root_is_fewest_incoming_edges() {
    // B has no incoming edge, A has one: the ranking starts at B.
    let all = ids(&["A", "B"]);
    let links = vec![link("B", "A")];
    let ranks = assign_ranks(&all, &links, &[]);
    assert_eq!(ranks.get("B"), Some(&0));
    assert_eq!(ranks.get("A"), Some(&1));
}

#[test]
fn isa_children_hang_below_parent() {
    let all = ids(&["C1", "P", "C2"]);
    let isas = vec![ErdIsa { parent: "P".into(), children: vec!["C1".into(), "C2".into()] }];
    let ranks = assign_ranks(&all, &[], &isas);
    assert_eq!(ranks.get("P"), Some(&0));
    assert_eq!(ranks.get("C1"), Some(&1));
    assert_eq!(ranks.get("C2"), Some(&1));
}

#[test]
fn shortest_way_decides_the_rank() {
    let all = ids(&["S", "X", "Y", "Z"]);
    let links = vec![link("S", "X"), link("X", "Y"), link("Y", "Z"), link("S", "Z")];
    let ranks = assign_ranks(&all, &links, &[]);
    assert_eq!(ranks.get("S"), Some(&0));
    assert_eq!(ranks.get("X"), Some(&1));
    assert_eq!(ranks.get("Z"), Some(&1));
    assert_eq!(ranks.get("Y"), Some(&2));
}

#[test]
fn undeclared_names_are_ranked_only_when_reached() {
    let all = ids(&["A"]);
    let links = vec![link("A", "attr"), link("u", "v")];
    let ranks = assign_ranks(&all, &links, &[]);
    assert_eq!(ranks.get("attr"), Some(&1));
    assert_eq!(ranks.get("u"), None);
    assert_eq!(ranks.get("v"), None);
}

#[test]
fn ties_start_at_the_first_declared() {
    let all = ids(&["B", "A"]);
    let links = vec![link("A", "B"), link("B", "A")];
    let ranks = assign_ranks(&all, &links, &[]);
    assert_eq!(ranks.get("B"), Some(&0));
    assert_eq!(ranks.get("A"), Some(&1));
}

#[test]
fn no_ids_no_ranks() {
    let ranks = assign_ranks(&[], &[link("a", "b")], &[]);
    assert_eq!(ranks.get("a"), None);
}

#[test]
fn erd_edges_mirror_links() {
    let links = vec![
        link("Person", "Address"),
        ErdLink { from: "Order".into(), to: "Item".into(), cardinality: "0..N".into() },
    ];
    let edges = erd_link_edges(&links);
    assert_eq!(edges.len(), 2);
    assert_eq!((edges[0].from.as_str(), edges[0].to.as_str()), ("Person", "Address"));
    assert_eq!(edges[1].label, Some("0..N".to_string()));
    assert!(edges.iter().all(|e| e.minlen == 2 && !e.invisible));
    assert!(erd_link_edges(&[]).is_empty());
}
