use genea_graph::date::Date;
use genea_graph::graph::FamilyGraph;
use genea_graph::layout::Placement;
use genea_graph::person::{Link, Person};
use petgraph::stable_graph::{EdgeIndex, NodeIndex};

fn person(id: Option<u32>) -> Person {
    Person {
        id,
        name: "N".to_string(),
        last_name: "L".to_string(),
        birth_dt: Date { year: 1950, month: 5, day: 1 },
        death_dt: None,
        country: "IT".to_string(),
    }
}

fn link(a: u32, rel: &str, b: u32) -> Link {
    Link { id_src: a, relation: rel.to_string(), id_tgt: b }
}

fn points(p: &[Placement]) -> Vec<(u32, usize, usize)> {
    p.iter().map(|q| (q.node, q.x, q.y)).collect()
}

#[test]
fn placeholder_has_one_labelled_node() {
    let f = FamilyGraph::placeholder();
    assert_eq!(f.graph.node_count(), 1);
    assert_eq!(f.graph.edge_count(), 0);
    assert_eq!(f.graph[NodeIndex::new(0)], "node 0");
    assert!(f.node_map.is_empty());
    assert_eq!(f.node_index_id(0), None);
}

#[test]
fn loading_people_makes_labelled_nodes() {
    let f = FamilyGraph::from_people(&vec![person(Some(10)), person(None), person(Some(42))]);
    assert_eq!(f.graph.node_count(), 2);
    assert_eq!(f.edge_count(), 0);
    let n10 = f.node_of(10).unwrap();
    let n42 = f.node_of(42).unwrap();
    assert_ne!(n10, n42);
    assert_eq!(f.graph[NodeIndex::new(n10 as usize)], "10");
    assert_eq!(f.node_index_id(n10), Some(10));
    assert_eq!(f.node_index_id(n42), Some(42));
    assert_eq!(f.node_of(7), None);
    assert_eq!(f.node_index_id(99), None);
    assert!(f.contains_node(n42));
    assert!(!f.contains_node(99));
}

#[test]
fn repeated_id_maps_to_last_node() {
    let f = FamilyGraph::from_people(&vec![person(Some(5)), person(Some(5))]);
    assert_eq!(f.graph.node_count(), 2);
    assert_eq!(f.node_map.len(), 1);
    assert_eq!(f.node_of(5), Some(1));
    assert_eq!(f.node_index_id(0), Some(5));
}

#[test]
fn links_become_labelled_edges() {
    let mut f = FamilyGraph::from_people(&vec![person(Some(1)), person(Some(2)), person(Some(3))]);
    let links = vec![link(1, "PARENT_OF", 2), link(1, "COUSIN_OF", 3)];
    assert!(f.links_resolve(&links));
    assert!(!f.links_resolve(&vec![link(1, "PARENT_OF", 9)]));
    let added = f.add_links(&links);
    assert_eq!(added.len(), 2);
    assert_eq!(f.edge_count(), 2);
    let e0 = EdgeIndex::new(added[0] as usize);
    let e1 = EdgeIndex::new(added[1] as usize);
    assert_eq!(f.graph[e0], "PARENT_OF");
    assert_eq!(f.graph[e1], "COUSIN_OF");
    let (a, b) = f.graph.edge_endpoints(e1).unwrap();
    assert_eq!((a.index() as u32, b.index() as u32), (f.node_of(1).unwrap(), f.node_of(3).unwrap()));
}

#[test]
fn parent_link_added_between_nodes() {
    let mut f = FamilyGraph::from_people(&vec![person(Some(1)), person(Some(2))]);
    let e = f.add_parent_link(2, 1);
    let (a, b) = f.graph.edge_endpoints(EdgeIndex::new(e as usize)).unwrap();
    assert_eq!(a.index() as u32, f.node_of(2).unwrap());
    assert_eq!(b.index() as u32, f.node_of(1).unwrap());
    assert_eq!(f.graph[EdgeIndex::new(e as usize)], "PARENT_OF");
}

#[test]
fn layout_of_a_small_tree() {
    // 1 -> 2, 1 -> 3, 2 -> 4; neighbours come newest edge first.
    let mut f = FamilyGraph::from_people(&vec![person(Some(1)), person(Some(2)), person(Some(3)), person(Some(4))]);
    f.add_links(&vec![link(1, "PARENT_OF", 2), link(1, "PARENT_OF", 3), link(2, "PARENT_OF", 4)]);
    let p = f.refresh_layout().unwrap();
    assert_eq!(points(&p), vec![(0, 0, 0), (2, 0, 50), (1, 50, 50), (3, 50, 100)]);
}

#[test]
fn layout_of_two_trees_and_a_shared_child() {
    // roots 1 and 2 (indices 0 and 1); both parents of 3; 3 is placed once,
    // under the first root that reaches it.
    let mut f = FamilyGraph::from_people(&vec![person(Some(1)), person(Some(2)), person(Some(3))]);
    f.add_links(&vec![link(1, "PARENT_OF", 3), link(2, "PARENT_OF", 3)]);
    let p = f.refresh_layout().unwrap();
    assert_eq!(points(&p), vec![(0, 0, 0), (2, 0, 50), (1, 50, 0)]);
}

#[test]
fn layout_skips_cycles_without_source() {
    let mut f = FamilyGraph::from_people(&vec![person(Some(1)), person(Some(2)), person(Some(3))]);
    f.add_links(&vec![link(2, "PARENT_OF", 3), link(3, "PARENT_OF", 2)]);
    let p = f.refresh_layout().unwrap();
    assert_eq!(points(&p), vec![(0, 0, 0)]);
}

#[test]
fn deleting_a_selection() {
    let mut f = FamilyGraph::from_people(&vec![person(Some(7)), person(Some(8)), person(Some(9))]);
    let added = f.add_links(&vec![link(7, "PARENT_OF", 8), link(8, "PARENT_OF", 9)]);
    let n9 = f.node_of(9).unwrap();
    let paths = f.delete_selection(&vec![added[0], added[0], 77], &vec![n9]);
    assert_eq!(paths, vec!["/person/7/child/8".to_string(), "/person/9".to_string()]);
    assert_eq!(f.graph.node_count(), 2);
    assert_eq!(f.edge_count(), 0);
    assert!(!f.contains_node(n9));
    assert_eq!(f.node_of(9), Some(n9));
}

#[test]
fn layout_of_empty_and_placeholder_graphs() {
    let f = FamilyGraph::from_people(&vec![]);
    assert_eq!(f.graph.node_count(), 0);
    assert!(f.refresh_layout().unwrap().is_empty());
    let p = FamilyGraph::placeholder();
    assert_eq!(points(&p.refresh_layout().unwrap()), vec![(0, 0, 0)]);
}

#[test]
fn deletion_refused_for_unlabelled_or_repeated_nodes() {
    let p = FamilyGraph::placeholder();
    assert!(!p.can_delete(&vec![], &vec![0]));
    let f = FamilyGraph::from_people(&vec![person(Some(1)), person(Some(2))]);
    assert!(f.can_delete(&vec![5], &vec![0, 1]));
    assert!(!f.can_delete(&vec![], &vec![0, 0]));
    assert!(!f.can_delete(&vec![], &vec![9]));
}

#[test]
fn layout_places_every_descendant_once() {
    // 1 -> 2 -> 3 -> 4 and 1 -> 4; 5 <-> 6 is a cycle no source reaches.
    let mut f = FamilyGraph::from_people(&vec![
        person(Some(1)),
        person(Some(2)),
        person(Some(3)),
        person(Some(4)),
        person(Some(5)),
        person(Some(6)),
    ]);
    f.add_links(&vec![
        link(1, "PARENT_OF", 2),
        link(2, "PARENT_OF", 3),
        link(3, "PARENT_OF", 4),
        link(1, "PARENT_OF", 4),
        link(5, "PARENT_OF", 6),
        link(6, "PARENT_OF", 5),
    ]);
    let p = f.refresh_layout().unwrap();
    assert_eq!(points(&p), vec![(0, 0, 0), (3, 0, 50), (1, 50, 50), (2, 50, 100)]);
}
