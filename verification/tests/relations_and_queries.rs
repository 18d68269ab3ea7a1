use genea_graph::api::{
    ancestors_path, child_link_path, cousin_link_path, endpoint_url, nca_path, relation_path, relation_segment,
};
use genea_graph::date::Date;
use genea_graph::graph::FamilyGraph;
use genea_graph::model::{key_actions, AppModel, Fetch, KeyActions, Relation};
use genea_graph::person::{Link, Person};
use genea_graph::settings::{NavigationFlags, SettingsInteraction};
use petgraph::stable_graph::EdgeIndex;

fn person(id: Option<u32>) -> Person {
    Person {
        id,
        name: "N".to_string(),
        last_name: "L".to_string(),
        birth_dt: Date { year: 1931, month: 3, day: 4 },
        death_dt: None,
        country: "FR".to_string(),
    }
}

fn link(a: u32, rel: &str, b: u32) -> Link {
    Link { id_src: a, relation: rel.to_string(), id_tgt: b }
}

fn loaded() -> AppModel {
    let mut m = AppModel::new();
    m.refresh_nodes(Fetch::Ready(vec![person(Some(1)), person(Some(2)), person(Some(3))]));
    m
}

fn select(m: &mut AppModel, a: u32, b: u32) {
    let na = m.family.node_of(a).unwrap();
    let nb = m.family.node_of(b).unwrap();
    m.handle_event("a".to_string(), Some(na));
    m.handle_event("b".to_string(), Some(nb));
}

#[test]
fn relation_paths() {
    assert_eq!(relation_path(12, "cousin", 345), "/person/12/cousin/345");
    assert_eq!(child_link_path(0, 4294967295), "/person/0/child/4294967295");
    assert_eq!(cousin_link_path(7, 8), "/person/7/cousin/8");
    assert_eq!(ancestors_path(3), "/person/3/ancestors");
    assert_eq!(nca_path(2, 3), "/person/2/nca/3");
    assert_eq!(endpoint_url("/person/3/ancestors"), "http://127.0.0.1:5000/person/3/ancestors");
}

#[test]
fn relation_segments() {
    assert_eq!(relation_segment(&"PARENT_OF".to_string()), "child");
    assert_eq!(relation_segment(&"COUSIN_OF".to_string()), "cousin");
    assert_eq!(relation_segment(&"SPOUSE_OF".to_string()), "SPOUSE_OF");
    assert_eq!(relation_segment(&"".to_string()), "");
}

#[test]
fn relation_labels_and_create_paths() {
    assert_eq!(Relation::Parent.label(), "PARENT_OF");
    assert_eq!(Relation::Cousin.label(), "COUSIN_OF");
    assert_eq!(Relation::Parent.create_path(4, 5), "/person/4/child/5");
    assert_eq!(Relation::Cousin.create_path(4, 5), "/person/4/cousin/5");
}

#[test]
fn deleting_edges_uses_their_relation() {
    let mut f = FamilyGraph::from_people(&vec![person(Some(1)), person(Some(2)), person(Some(3))]);
    let added = f.add_links(&vec![link(1, "COUSIN_OF", 2), link(2, "PARENT_OF", 3), link(3, "SPOUSE_OF", 1)]);
    let paths = f.delete_selection(&vec![added[0], added[1], added[2]], &vec![]);
    assert_eq!(
        paths,
        vec![
            "/person/1/cousin/2".to_string(),
            "/person/2/child/3".to_string(),
            "/person/3/SPOUSE_OF/1".to_string()
        ]
    );
    assert_eq!(f.edge_count(), 0);
    assert_eq!(f.graph.node_count(), 3);
}

#[test]
fn cousin_key_draws_cousin_edge_and_deletes_as_cousin() {
    let mut m = loaded();
    select(&mut m, 2, 3);
    assert!(m.can_link_selection());
    assert_eq!(m.link_selection(Relation::Cousin), Some((2, 3)));
    assert_eq!(m.family.graph.edge_count(), 1);
    let e = m.family.graph.edge_indices().next().unwrap();
    assert_eq!(m.family.graph[e], "COUSIN_OF");
    let (a, b) = m.family.graph.edge_endpoints(e).unwrap();
    assert_eq!(a.index() as u32, m.family.node_of(2).unwrap());
    assert_eq!(b.index() as u32, m.family.node_of(3).unwrap());
    let paths = m.delete_selection(&vec![e.index() as u32], &vec![]);
    assert_eq!(paths, vec!["/person/2/cousin/3".to_string()]);
    assert_eq!(m.family.graph.edge_count(), 0);
}

#[test]
fn parent_key_edge_deletes_as_child() {
    let mut m = loaded();
    select(&mut m, 1, 3);
    assert_eq!(m.link_selection(Relation::Parent), Some((1, 3)));
    let e = m.family.graph.edge_indices().next().unwrap();
    assert_eq!(m.family.graph[EdgeIndex::new(e.index())], "PARENT_OF");
    let paths = m.delete_selection(&vec![e.index() as u32], &vec![]);
    assert_eq!(paths, vec!["/person/1/child/3".to_string()]);
}

#[test]
fn ancestors_query_needs_a_selection() {
    let mut m = loaded();
    assert_eq!(m.request_ancestors(), None);
    assert!(!m.ancestors_pending);
    let n3 = m.family.node_of(3).unwrap();
    m.handle_event("a".to_string(), Some(n3));
    assert_eq!(m.request_ancestors(), Some("/person/3/ancestors".to_string()));
    assert!(m.ancestors_pending);
    assert!(m.process_tasks().ancestors);
    m.refresh_ancestors(Fetch::Pending);
    assert!(m.ancestors_pending);
    m.refresh_ancestors(Fetch::Ready(vec![person(Some(1)), person(Some(2))]));
    assert!(!m.ancestors_pending);
    assert!(!m.process_tasks().ancestors);
    let ids: Vec<Option<u32>> = m.ancestors.iter().map(|p| p.id).collect();
    assert_eq!(ids, vec![Some(1), Some(2)]);
    m.request_ancestors();
    m.refresh_ancestors(Fetch::Failed);
    assert!(!m.ancestors_pending);
    assert_eq!(m.ancestors.len(), 2);
}

#[test]
fn nca_query_needs_two_selections() {
    let mut m = loaded();
    assert_eq!(m.request_nca(), None);
    let n2 = m.family.node_of(2).unwrap();
    m.handle_event("a".to_string(), Some(n2));
    assert_eq!(m.request_nca(), None);
    assert!(!m.nca_pending);
    let n3 = m.family.node_of(3).unwrap();
    m.handle_event("b".to_string(), Some(n3));
    assert_eq!(m.request_nca(), Some("/person/2/nca/3".to_string()));
    assert!(m.nca_pending);
    assert!(m.process_tasks().nca);
    m.refresh_nca(Fetch::Ready(person(Some(1))));
    assert!(!m.nca_pending);
    assert_eq!(m.nca.as_ref().unwrap().id, Some(1));
    m.request_nca();
    m.refresh_nca(Fetch::Failed);
    assert!(!m.nca_pending);
    assert_eq!(m.nca.as_ref().unwrap().id, Some(1));
}

#[test]
fn queries_start_empty() {
    let m = AppModel::new();
    assert!(m.ancestors.is_empty());
    assert!(m.nca.is_none());
    assert!(!m.ancestors_pending && !m.nca_pending);
}

#[test]
fn interaction_boxes_keep_clicking_rules() {
    let mut s = SettingsInteraction::default();
    s.dragging_checkbox(false);
    assert!(!s.dragging_enabled && s.node_clicking_enabled);
    s.node_clicking_checkbox(false);
    assert!(s.node_clicking_enabled);
    s.node_selection_enabled = false;
    s.node_clicking_checkbox(false);
    assert!(!s.node_clicking_enabled);
    s.dragging_checkbox(true);
    assert!(s.dragging_enabled && s.node_clicking_enabled);
    s.dragging_checkbox(true);
    assert!(s.node_clicking_enabled);
    s.edge_clicking_checkbox(false);
    assert!(s.edge_clicking_enabled);
    s.edge_selection_enabled = false;
    s.edge_clicking_checkbox(false);
    assert!(!s.edge_clicking_enabled);
}

#[test]
fn navigation_boxes_keep_zoom_off_while_fitting() {
    let mut n = NavigationFlags::default();
    assert!(!n.fit_to_screen_enabled && n.zoom_and_pan_enabled);
    n.fit_to_screen_checkbox(true);
    assert!(n.fit_to_screen_enabled && !n.zoom_and_pan_enabled);
    n.zoom_and_pan_checkbox(true);
    assert!(!n.zoom_and_pan_enabled);
    n.fit_to_screen_checkbox(true);
    assert!(!n.zoom_and_pan_enabled);
    n.fit_to_screen_checkbox(false);
    assert!(!n.fit_to_screen_enabled && !n.zoom_and_pan_enabled);
    n.zoom_and_pan_checkbox(true);
    assert!(n.zoom_and_pan_enabled);
}

#[test]
fn selected_ids_need_both_selections() {
    let mut m = loaded();
    assert_eq!(m.selected_ids(), None);
    let n1 = m.family.node_of(1).unwrap();
    m.handle_event("a".to_string(), Some(n1));
    assert_eq!(m.selected_ids(), None);
    let n2 = m.family.node_of(2).unwrap();
    m.handle_event("b".to_string(), Some(n2));
    assert_eq!(m.selected_ids(), Some((1, 2)));
}

#[test]
fn shortcut_keys() {
    let none = KeyActions { link: None, refresh: false, delete: false };
    assert_eq!(key_actions(false, true, true, true, false), none);
    assert_eq!(key_actions(true, true, false, false, false).link, Some(Relation::Parent));
    assert_eq!(key_actions(true, false, true, false, false).link, Some(Relation::Cousin));
    assert_eq!(key_actions(true, true, true, false, false).link, Some(Relation::Parent));
    assert_eq!(key_actions(true, false, false, true, false), KeyActions { link: None, refresh: true, delete: false });
    assert_eq!(key_actions(false, false, false, false, true), KeyActions { link: None, refresh: false, delete: true });
}
