use genea_graph::events::{record_event, EVENTS_LIMIT};
use genea_graph::settings::{zoom_and_pan_after_fit_toggle, SettingsInteraction, SettingsStyle};

#[test]
fn interaction_defaults() {
    let s = SettingsInteraction::default();
    assert!(s.dragging_enabled);
    assert!(s.node_clicking_enabled);
    assert!(s.node_selection_enabled);
    assert!(!s.node_selection_multi_enabled);
    assert!(s.edge_clicking_enabled);
    assert!(s.edge_selection_enabled);
    assert!(!s.edge_selection_multi_enabled);
}

#[test]
fn style_defaults() {
    assert!(SettingsStyle::default().labels_always);
}

#[test]
fn dragging_turns_node_clicking_on() {
    let mut s = SettingsInteraction::default();
    s.node_clicking_enabled = false;
    s.dragging_clicked(false);
    assert!(!s.node_clicking_enabled);
    s.dragging_enabled = false;
    s.dragging_clicked(true);
    assert!(!s.node_clicking_enabled);
    s.dragging_enabled = true;
    s.dragging_clicked(true);
    assert!(s.node_clicking_enabled);
}

#[test]
fn clicking_boxes_editable_only_without_other_interactions() {
    let mut s = SettingsInteraction::default();
    assert!(!s.node_clicking_editable());
    assert!(!s.edge_clicking_editable());
    s.dragging_enabled = false;
    s.node_selection_enabled = false;
    assert!(s.node_clicking_editable());
    s.node_selection_multi_enabled = true;
    assert!(!s.node_clicking_editable());
    s.edge_selection_enabled = false;
    assert!(s.edge_clicking_editable());
    s.edge_selection_multi_enabled = true;
    assert!(!s.edge_clicking_editable());
}

#[test]
fn fit_to_screen_turns_zoom_off() {
    assert!(!zoom_and_pan_after_fit_toggle(true, true, true));
    assert!(zoom_and_pan_after_fit_toggle(true, false, true));
    assert!(zoom_and_pan_after_fit_toggle(false, true, true));
    assert!(!zoom_and_pan_after_fit_toggle(false, false, false));
}

#[test]
fn log_keeps_at_most_limit_plus_one() {
    let mut log: Vec<String> = Vec::new();
    for k in 0..250 {
        record_event(&mut log, format!("e{k}"));
        assert!(log.len() <= EVENTS_LIMIT + 1);
        assert_eq!(log.last().unwrap(), &format!("e{k}"));
    }
    assert_eq!(log.len(), 101);
    assert_eq!(log[0], "e149");
}

#[test]
fn log_drops_oldest_only_when_over_limit() {
    let mut log: Vec<String> = (0..100).map(|k| format!("e{k}")).collect();
    record_event(&mut log, "x".to_string());
    assert_eq!(log.len(), 101);
    assert_eq!(log[0], "e0");
    record_event(&mut log, "y".to_string());
    assert_eq!(log.len(), 101);
    assert_eq!(log[0], "e1");
    assert_eq!(log[99], "x");
    assert_eq!(log[100], "y");
}
