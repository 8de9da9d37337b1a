use catacraft::db::{Db, LookupError, LookupFailure};
use catacraft::graphs::{CraftableGraph, Edge, Node};
use catacraft::prune::{has_outgoing, prune_backed, prune_graph, prune_irrelevant_nodes};
use catacraft::records::{Field, FieldValue, Record};

fn s(x: &str) -> String {
    x.to_string()
}

fn item(name: &str) -> Node {
    Node::Item(s(name))
}

fn req_node(name: &str) -> Node {
    Node::RequirementItem(s(name))
}

fn edge(source: Node, dest: Node) -> Edge {
    Edge { source, dest, recipe_suffix: None }
}

fn sorted<T: Ord>(mut v: Vec<T>) -> Vec<T> {
    v.sort();
    v
}

fn chain() -> CraftableGraph {
    CraftableGraph {
        nodes: vec![item("wood"), item("plank"), req_node("box_req")],
        edges: vec![edge(item("wood"), item("plank")), edge(item("plank"), req_node("box_req"))],
    }
}

fn text(key: &str, value: &str) -> Field {
    Field { key: s(key), value: FieldValue::Text(s(value)) }
}

fn number(key: &str, value: i64) -> Field {
    Field { key: s(key), value: FieldValue::Integer(value) }
}

fn db_of(raw: Vec<Record>) -> Db {
    let names = raw.iter().map(|_| None).collect();
    Db { raw, names, recipes: vec![], requirements: vec![], materials: vec![], itemgroups: vec![] }
}

fn wood_and_plank() -> Db {
    db_of(vec![
        Record { fields: vec![text("type", "GENERIC"), text("id", "wood")] },
        Record { fields: vec![text("type", "COMESTIBLE"), text("id", "plank"), number("healthy", 2)] },
    ])
}

#[test]
fn requirement_without_outgoing_edge_is_removed() {
    let g = prune_graph(&chain(), &[req_node("box_req")], &[]);
    assert_eq!(sorted(g.nodes), sorted(vec![item("wood"), item("plank")]));
    assert_eq!(g.edges, vec![edge(item("wood"), item("plank"))]);
}

#[test]
fn removal_cascades_to_sources() {
    let all = [item("wood"), item("plank"), req_node("box_req")];
    let g = prune_graph(&chain(), &all, &[]);
    assert!(g.nodes.is_empty());
    assert!(g.edges.is_empty());
}

#[test]
fn relevant_node_keeps_its_sources() {
    let g = prune_graph(&chain(), &[item("wood"), req_node("box_req")], &[]);
    assert_eq!(sorted(g.nodes), sorted(vec![item("wood"), item("plank")]));
    assert_eq!(g.edges, vec![edge(item("wood"), item("plank"))]);
}

#[test]
fn irrelevant_nodes_on_a_cycle_stay() {
    let g = CraftableGraph {
        nodes: vec![item("a"), item("b"), item("c")],
        edges: vec![edge(item("a"), item("b")), edge(item("b"), item("a")), edge(item("a"), item("c"))],
    };
    let pruned = prune_graph(&g, &[item("a"), item("b"), item("c")], &[]);
    assert_eq!(sorted(pruned.nodes), sorted(vec![item("a"), item("b")]));
    assert_eq!(
        sorted(pruned.edges),
        sorted(vec![edge(item("a"), item("b")), edge(item("b"), item("a"))])
    );
}

#[test]
fn hidden_nodes_leave_with_their_edges() {
    let g = prune_graph(&chain(), &[], &[s("plank")]);
    assert_eq!(sorted(g.nodes), sorted(vec![item("wood"), req_node("box_req")]));
    assert!(g.edges.is_empty());
    let g = prune_graph(&chain(), &[req_node("box_req"), item("wood")], &[s("plank")]);
    assert!(g.nodes.is_empty());
}

#[test]
fn outgoing_edges_are_found_by_source() {
    let g = chain();
    assert!(has_outgoing(&g.edges, &item("wood")));
    assert!(!has_outgoing(&g.edges, &req_node("box_req")));
    assert!(!has_outgoing(&g.edges, &req_node("wood")));
}

#[test]
fn healthy_minimum_decides_relevance() {
    let db = wood_and_plank();
    let g = prune_irrelevant_nodes(&chain(), &db, Some(1), None, &[]).unwrap();
    assert_eq!(sorted(g.nodes), sorted(vec![item("wood"), item("plank")]));
    assert_eq!(g.edges, vec![edge(item("wood"), item("plank"))]);
    let g = prune_irrelevant_nodes(&chain(), &db, Some(3), None, &[]).unwrap();
    assert!(g.nodes.is_empty());
    assert!(g.edges.is_empty());
    let g = prune_irrelevant_nodes(&chain(), &db, Some(2), None, &[]).unwrap();
    assert_eq!(g.nodes.len(), 2);
}

#[test]
fn allowed_types_decide_relevance() {
    let db = wood_and_plank();
    let allowed = [s("COMESTIBLE")];
    let g = prune_irrelevant_nodes(&chain(), &db, None, Some(&allowed), &[]).unwrap();
    assert_eq!(sorted(g.nodes), sorted(vec![item("wood"), item("plank")]));
    let allowed = [s("GENERIC")];
    let g = prune_irrelevant_nodes(&chain(), &db, None, Some(&allowed), &[]).unwrap();
    assert_eq!(g.nodes, vec![item("wood")]);
    assert!(g.edges.is_empty());
    let g = prune_irrelevant_nodes(&chain(), &db, None, None, &[]).unwrap();
    assert_eq!(sorted(g.nodes), sorted(vec![item("wood"), item("plank")]));
}

#[test]
fn pruning_against_a_database_hides_first() {
    let db = wood_and_plank();
    let g = prune_irrelevant_nodes(&chain(), &db, Some(1), None, &[s("plank")]).unwrap();
    assert!(g.nodes.is_empty());
}

#[test]
fn item_node_without_item_is_an_error() {
    let db = db_of(vec![Record { fields: vec![text("type", "GENERIC"), text("id", "wood")] }]);
    assert_eq!(
        prune_irrelevant_nodes(&chain(), &db, None, None, &[]),
        Err(LookupFailure { error: LookupError::Missing, id: s("plank") })
    );
    let twice = db_of(vec![
        Record { fields: vec![text("type", "GENERIC"), text("id", "wood")] },
        Record { fields: vec![text("type", "TOOL"), text("id", "wood")] },
        Record { fields: vec![text("type", "GENERIC"), text("id", "plank")] },
    ]);
    assert_eq!(
        prune_irrelevant_nodes(&chain(), &twice, None, None, &[]),
        Err(LookupFailure { error: LookupError::LookupViolation, id: s("wood") })
    );
}

#[test]
fn unreadable_healthy_is_an_error_only_where_it_is_read() {
    let db = db_of(vec![
        Record { fields: vec![text("type", "GENERIC"), text("id", "wood"), text("healthy", "very")] },
        Record { fields: vec![text("type", "GENERIC"), text("id", "plank")] },
    ]);
    assert_eq!(
        prune_irrelevant_nodes(&chain(), &db, Some(0), None, &[]),
        Err(LookupFailure { error: LookupError::UnsupportedShape, id: s("wood") })
    );
    assert!(prune_irrelevant_nodes(&chain(), &db, None, None, &[]).is_ok());
    assert!(prune_irrelevant_nodes(&chain(), &db, Some(0), None, &[s("wood")]).is_ok());
}

#[test]
fn pruning_a_backed_graph_gives_the_graph() {
    let db = wood_and_plank();
    let g = prune_backed(&chain(), &db, Some(1), None, &[]);
    assert_eq!(sorted(g.nodes), sorted(vec![item("wood"), item("plank")]));
    assert_eq!(g.edges, vec![edge(item("wood"), item("plank"))]);
    let g = prune_backed(&chain(), &db, Some(3), None, &[]);
    assert!(g.nodes.is_empty());
    let allowed = [s("GENERIC")];
    let g = prune_backed(&chain(), &db, None, Some(&allowed), &[s("box_req")]);
    assert_eq!(g.nodes, vec![item("wood")]);
}
