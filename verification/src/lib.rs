//! Verified core of a family-tree viewer: the person and link records, the
//! family graph held in a petgraph `StableGraph`, its tree layout, the event
//! log, the selection, the refresh state machine and the REST paths.
pub mod api;
pub mod date;
pub mod decimal;
pub mod events;
pub mod graph;
pub mod layout;
pub mod model;
pub mod person;
pub mod settings;

