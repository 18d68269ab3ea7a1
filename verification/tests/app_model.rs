use genea_graph::date::Date;
use genea_graph::model::{AppModel, Fetch, GraphTask, LayoutOutcome, Relation};
use genea_graph::person::{Link, Person};

fn person(id: Option<u32>) -> Person {
    Person {
        id,
        name: "Ada".to_string(),
        last_name: "Lovelace".to_string(),
        birth_dt: Date { year: 1815, month: 12, day: 10 },
        death_dt: Some(Date { year: 1852, month: 11, day: 27 }),
        country: "UK".to_string(),
    }
}

fn loaded() -> AppModel {
    let mut m = AppModel::new();
    m.refresh_nodes(Fetch::Ready(vec![person(Some(1)), person(Some(2)), person(Some(3))]));
    m
}

#[test]
fn start_state() {
    let m = AppModel::new();
    assert!(m.nodes_pending && m.conns_pending && !m.person_pending);
    assert_eq!(m.c_person.birth_dt, Date { year: 2024, month: 12, day: 6 });
    assert_eq!(m.g_person.birth_dt, Date { year: 1900, month: 1, day: 1 });
    assert!(m.c_person.id.is_none() && m.c_person.death_dt.is_none());
    assert!(!m.c_is_dead);
    assert_eq!(m.id_src, "");
    assert_eq!(m.id_tgt, "");
    assert_eq!(m.family.graph.node_count(), 1);
    assert!(m.last_events.is_empty());
    assert!(m.settings_style.labels_always);
}

#[test]
fn people_before_links() {
    let mut m = AppModel::new();
    assert_eq!(m.process_tasks().graph, GraphTask::Nodes);
    m.refresh_nodes(Fetch::Pending);
    assert_eq!(m.process_tasks().graph, GraphTask::Nodes);
    m.refresh_nodes(Fetch::Failed);
    assert_eq!(m.process_tasks().graph, GraphTask::Conns);
    assert!(matches!(m.refresh_conns(Fetch::Failed), LayoutOutcome::Unchanged));
    assert_eq!(m.process_tasks().graph, GraphTask::Idle);
    assert!(!m.process_tasks().person);
    m.refresh_graph();
    assert_eq!(m.process_tasks().graph, GraphTask::Nodes);
}

#[test]
fn loading_and_linking_lays_out() {
    let mut m = loaded();
    assert!(!m.nodes_pending);
    assert_eq!(m.family.graph.node_count(), 3);
    let links = vec![Link { id_src: 1, relation: "PARENT_OF".to_string(), id_tgt: 2 }];
    match m.refresh_conns(Fetch::Ready(links)) {
        LayoutOutcome::Placed(p) => {
            let pts: Vec<(u32, usize, usize)> = p.iter().map(|q| (q.node, q.x, q.y)).collect();
            assert_eq!(pts, vec![(0, 0, 0), (1, 0, 50), (2, 50, 0)]);
        }
        _ => panic!("expected a layout"),
    }
    assert!(!m.conns_pending);
    assert_eq!(m.family.graph.edge_count(), 1);
}

#[test]
fn selecting_nodes_shifts_selection_and_fetches_person() {
    let mut m = loaded();
    let n2 = m.family.node_of(2).unwrap();
    let n3 = m.family.node_of(3).unwrap();
    assert_eq!(m.handle_event("{}".to_string(), None), None);
    assert_eq!(m.handle_event("sel".to_string(), Some(n2)), Some("/person/2".to_string()));
    assert_eq!(m.id_src, "");
    assert_eq!(m.id_tgt, "2");
    assert!(m.person_pending);
    assert_eq!(m.handle_event("sel".to_string(), Some(n3)), Some("/person/3".to_string()));
    assert_eq!(m.id_src, "2");
    assert_eq!(m.id_tgt, "3");
    assert_eq!(m.last_events.len(), 3);
    m.refresh_gperson(Fetch::Ready(person(Some(3))));
    assert!(!m.person_pending);
    assert_eq!(m.g_person.id, Some(3));
}

#[test]
fn link_key_draws_parent_edge() {
    let mut m = loaded();
    assert!(m.can_link_selection());
    assert_eq!(m.link_selection(Relation::Parent), None);
    let n1 = m.family.node_of(1).unwrap();
    let n3 = m.family.node_of(3).unwrap();
    m.handle_event("a".to_string(), Some(n1));
    m.handle_event("b".to_string(), Some(n3));
    assert!(m.can_link_selection());
    assert_eq!(m.link_selection(Relation::Parent), Some((1, 3)));
    assert_eq!(m.family.graph.edge_count(), 1);
}

#[test]
fn link_key_refused_after_deletion() {
    let mut m = loaded();
    let n1 = m.family.node_of(1).unwrap();
    let n3 = m.family.node_of(3).unwrap();
    m.handle_event("a".to_string(), Some(n1));
    m.handle_event("b".to_string(), Some(n3));
    let paths = m.delete_selection(&vec![], &vec![n3]);
    assert_eq!(paths, vec!["/person/3".to_string()]);
    assert!(!m.can_link_selection());
}

#[test]
fn death_date_follows_checkbox() {
    let mut m = AppModel::new();
    m.sync_death_date();
    assert_eq!(m.c_person.death_dt, None);
    m.c_is_dead = true;
    m.sync_death_date();
    assert_eq!(m.c_person.death_dt, Some(Date { year: 2024, month: 12, day: 6 }));
    m.c_person.death_dt = Some(Date { year: 2000, month: 1, day: 2 });
    m.sync_death_date();
    assert_eq!(m.c_person.death_dt, Some(Date { year: 2000, month: 1, day: 2 }));
    m.c_is_dead = false;
    m.sync_death_date();
    assert_eq!(m.c_person.death_dt, None);
}

#[test]
fn posting_copies_form_and_refreshes() {
    let mut m = AppModel::new();
    m.refresh_nodes(Fetch::Failed);
    m.refresh_conns(Fetch::Failed);
    m.c_person.name = "Grace".to_string();
    let p = m.post_person();
    assert_eq!(p.name, "Grace");
    assert_eq!(p.birth_dt, Date { year: 2024, month: 12, day: 6 });
    assert!(m.nodes_pending && m.conns_pending);
}

#[test]
fn loaded_nodes_read_back_their_ids() {
    let m = loaded();
    for id in [1u32, 2, 3] {
        let n = m.family.node_of(id).unwrap();
        assert_eq!(m.family.node_index_id(n), Some(id));
    }
    assert_eq!(m.family.node_of(4), None);
}

#[test]
fn start_graph_is_labelled_placeholder() {
    let m = AppModel::new();
    assert_eq!(m.family.graph[petgraph::stable_graph::NodeIndex::new(0)], "node 0");
    assert_eq!(m.family.node_index_id(0), None);
}
