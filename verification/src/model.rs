//! The state of the viewer behind its widgets, and the decisions taken on
//! each frame: which fetch result to apply, what a graph event or a key does,
//! what goes to the server.
use vstd::prelude::*;
use crate::api::{ancestors_path, ancestors_path_spec, nca_path, nca_path_spec, person_path, person_path_spec, relation_path, relation_path_spec, relation_segment_spec};
use crate::date::{default_birth_date, default_death_date, placeholder_birth_date, Date};
use crate::decimal::{decimal, lemma_parse_decimal, parse_u32, parse_u32_spec, u32_to_string};
use crate::events::{logged, record_event, EVENTS_LIMIT};
use crate::graph::{after_edge_removals, after_node_removals, deletable, links_resolve, with_links, FamilyGraph};
use crate::layout::Placement;
use crate::person::{same_person, Link, Person};
use crate::settings::{SettingsInteraction, SettingsStyle};

verus! {

/// What a background fetch has given so far.
pub enum Fetch<T> {
    /// Still running.
    Pending,
    /// Finished without a usable value.
    Failed,
    /// Finished with a value.
    Ready(T),
}

/// Which graph fetch to look at this frame.
#[derive(Clone, Copy, Debug, PartialEq, Eq)]
pub enum GraphTask {
    /// The people are being fetched: apply them first.
    Nodes,
    /// The people are in; the links are being fetched.
    Conns,
    /// Nothing is being fetched for the graph.
    Idle,
}

/// The fetches to look at this frame.
#[derive(Clone, Copy, Debug)]
pub struct TaskStep {
    pub graph: GraphTask,
    pub person: bool,
    pub ancestors: bool,
    pub nca: bool,
}

/// What applying the links gave the layout.
pub enum LayoutOutcome {
    /// The links were not applied; the layout is unchanged.
    Unchanged,
    /// The links were applied and the nodes are to be put here.
    Placed(Vec<Placement>),
    /// The links were applied but a coordinate of the layout overflows.
    Overflow,
}

/// The relation that a link key draws.
#[derive(Clone, Copy, Debug, PartialEq, Eq)]
pub enum Relation {
    /// Left Alt + J: the node selected before is a parent of the last one.
    Parent,
    /// Left Alt + C: the two selected people are cousins.
    Cousin,
}

impl Relation {
    /// The edge label of the relation.
    pub open spec fn label_spec(self) -> Seq<char> {
        match self {
            Relation::Parent => "PARENT_OF"@,
            Relation::Cousin => "COUSIN_OF"@,
        }
    }

    /// The path segment of the relation on the server.
    pub open spec fn segment_spec(self) -> Seq<char> {
        match self {
            Relation::Parent => "child"@,
            Relation::Cousin => "cousin"@,
        }
    }

    /// `PARENT_OF` or `COUSIN_OF`.
    pub fn label(&self) -> (r: String)
        ensures
            r@ == self.label_spec(),
    {
        match self {
            Relation::Parent => String::from_str("PARENT_OF"),
            Relation::Cousin => String::from_str("COUSIN_OF"),
        }
    }

    /// The path that creates the relation from person `src` to person
    /// `tgt`: `/person/{src}/child/{tgt}` or `/person/{src}/cousin/{tgt}`.
    pub fn create_path(&self, src: u32, tgt: u32) -> (r: String)
        ensures
            r@ == relation_path_spec(src, self.segment_spec(), tgt),
    {
        match self {
            Relation::Parent => relation_path(src, "child", tgt),
            Relation::Cousin => relation_path(src, "cousin", tgt),
        }
    }
}

/// What the keys pressed in a frame ask for.
#[derive(Clone, Copy, Debug, PartialEq, Eq)]
pub struct KeyActions {
    /// Draw a link of this relation between the two selected people.
    pub link: Option<Relation>,
    /// Fetch the people and links again.
    pub refresh: bool,
    /// Delete the selected nodes and edges.
    pub delete: bool,
}

/// The shortcuts: Alt+J draws a parent link, Alt+C a cousin link (Alt+J
/// wins when both are pressed), Alt+R refreshes the graph, Delete deletes
/// the selection.
pub fn key_actions(alt: bool, j: bool, c: bool, r: bool, delete: bool) -> (a: KeyActions)
    ensures
        a.link == (if alt && j {
            Some(Relation::Parent)
        } else if alt && c {
            Some(Relation::Cousin)
        } else {
            None::<Relation>
        }),
        a.refresh == (alt && r),
        a.delete == delete,
{
    let link = if alt && j {
        Some(Relation::Parent)
    } else if alt && c {
        Some(Relation::Cousin)
    } else {
        None
    };
    KeyActions { link, refresh: alt && r, delete }
}

/// Deleting an edge drawn for a relation uses the relation's own segment.
pub proof fn law_relation_label_segment(r: Relation)
    ensures
        relation_segment_spec(r.label_spec()) == r.segment_spec(),
{
    reveal_strlit("PARENT_OF");
    reveal_strlit("COUSIN_OF");
    assert("COUSIN_OF"@[0] != "PARENT_OF"@[0]);
}

/// A selection text: empty, or the decimal text of a person id.
pub open spec fn selection_text(s: Seq<char>) -> bool {
    s.len() == 0 || exists|id: u32| s == decimal(id as nat)
}

/// The state behind the widgets.
pub struct AppModel {
    /// The person being filled in the creation form.
    pub c_person: Person,
    /// The "is dead" box of the form.
    pub c_is_dead: bool,
    /// The person shown in the display panel.
    pub g_person: Person,
    /// The id of the node selected before the last one.
    pub id_src: String,
    /// The id of the node selected last.
    pub id_tgt: String,
    pub family: FamilyGraph,
    pub settings_interaction: SettingsInteraction,
    pub settings_style: SettingsStyle,
    /// The last graph events, oldest first.
    pub last_events: Vec<String>,
    /// The people are being fetched.
    pub nodes_pending: bool,
    /// The links are being fetched.
    pub conns_pending: bool,
    /// The selected person is being fetched.
    pub person_pending: bool,
    /// The ancestors of the last selected person, as last fetched.
    pub ancestors: Vec<Person>,
    /// The ancestors are being fetched.
    pub ancestors_pending: bool,
    /// The nearest common ancestor of the two selected people, as last
    /// fetched.
    pub nca: Option<Person>,
    /// The nearest common ancestor is being fetched.
    pub nca_pending: bool,
}

impl AppModel {
    /// The event log as text.
    pub open spec fn log(&self) -> Seq<Seq<char>> {
        self.last_events@.map_values(|s: String| s@)
    }

    /// The state is consistent: the graph is, the log is bounded and the
    /// selection texts are ids.
    pub open spec fn wf(&self) -> bool {
        &&& self.family.wf()
        &&& self.last_events@.len() <= EVENTS_LIMIT + 1
        &&& selection_text(self.id_src@)
        &&& selection_text(self.id_tgt@)
    }

    /// The state at start: an empty form born 2024-12-06, a placeholder
    /// person born 1900-01-01, no selection, the placeholder graph, default
    /// settings, an empty log, and the people and links being fetched.
    pub fn new() -> (r: AppModel)
        ensures
            r.wf(),
            r.c_person.id is None && r.c_person.name@.len() == 0 && r.c_person.last_name@.len() == 0,
            r.c_person.country@.len() == 0 && r.c_person.death_dt is None,
            r.c_person.birth_dt == (Date { year: 2024, month: 12, day: 6 }),
            !r.c_is_dead,
            r.g_person.id is None && r.g_person.name@.len() == 0 && r.g_person.last_name@.len() == 0,
            r.g_person.country@.len() == 0 && r.g_person.death_dt is None,
            r.g_person.birth_dt == (Date { year: 1900, month: 1, day: 1 }),
            r.id_src@.len() == 0,
            r.id_tgt@.len() == 0,
            r.family.ids() == Map::<u32, u32>::empty(),
            r.family.structure().nodes.len() == 1,
            r.family.structure().edges.len() == 0,
            forall|n: u32| #[trigger] r.family.structure().nodes.contains_key(n) ==> {
                &&& r.family.structure().label(n) == "node "@ + decimal(n as nat)
                &&& r.family.structure().out_edges(n) == Seq::<u32>::empty()
            },
            r.settings_interaction.dragging_enabled && r.settings_interaction.node_clicking_enabled,
            r.settings_interaction.node_selection_enabled && !r.settings_interaction.node_selection_multi_enabled,
            r.settings_interaction.edge_clicking_enabled && r.settings_interaction.edge_selection_enabled,
            !r.settings_interaction.edge_selection_multi_enabled,
            r.settings_style.labels_always,
            r.last_events@.len() == 0,
            r.nodes_pending && r.conns_pending && !r.person_pending,
            r.ancestors@.len() == 0 && r.nca is None && !r.ancestors_pending && !r.nca_pending,
    {
        let family = FamilyGraph::placeholder();
        proof {
            assert(family.structure().edges.dom() =~= Set::<u32>::empty());
        }
        AppModel {
            c_person: Person::blank(default_birth_date()),
            c_is_dead: false,
            g_person: Person::blank(placeholder_birth_date()),
            id_src: String::new(),
            id_tgt: String::new(),
            family,
            settings_interaction: SettingsInteraction::default(),
            settings_style: SettingsStyle::default(),
            last_events: Vec::new(),
            nodes_pending: true,
            conns_pending: true,
            person_pending: false,
            ancestors: Vec::new(),
            ancestors_pending: false,
            nca: None,
            nca_pending: false,
        }
    }

    /// Starts fetching the people and the links again.
    pub fn refresh_graph(&mut self)
        ensures
            *final(self) == (AppModel { nodes_pending: true, conns_pending: true, ..*old(self) }),
    {
        self.nodes_pending = true;
        self.conns_pending = true;
    }

    /// The fetches to look at this frame: the people before the links, and
    /// the selected person besides.
    pub fn process_tasks(&self) -> (r: TaskStep)
        ensures
            r.graph == (if self.nodes_pending {
                GraphTask::Nodes
            } else if self.conns_pending {
                GraphTask::Conns
            } else {
                GraphTask::Idle
            }),
            r.person == self.person_pending,
            r.ancestors == self.ancestors_pending,
            r.nca == self.nca_pending,
    {
        let graph = if self.nodes_pending {
            GraphTask::Nodes
        } else if self.conns_pending {
            GraphTask::Conns
        } else {
            GraphTask::Idle
        };
        TaskStep {
            graph,
            person: self.person_pending,
            ancestors: self.ancestors_pending,
            nca: self.nca_pending,
        }
    }
}


impl AppModel {
    /// Applies the outcome of the people fetch: when it is in, the graph
    /// becomes the graph of those people; when it is in or failed, the fetch
    /// is over.
    pub fn refresh_nodes(&mut self, outcome: Fetch<Vec<Person>>)
        requires
            old(self).wf(),
            outcome matches Fetch::Ready(people) ==> people.len() < u32::MAX,
        ensures
            final(self).wf(),
            match outcome {
                Fetch::Pending => *final(self) == *old(self),
                Fetch::Failed => *final(self) == (AppModel { nodes_pending: false, ..*old(self) }),
                Fetch::Ready(people) => {
                    &&& *final(self) == (AppModel { nodes_pending: false, family: final(self).family, ..*old(self) })
                    &&& final(self).family.structure().edges.len() == 0
                    &&& forall|id: u32| #[trigger] final(self).family.ids().contains_key(id)
                        <==> crate::graph::ids_of(people@).contains(id)
                    &&& forall|id: u32| #[trigger] final(self).family.ids().contains_key(id)
                        ==> final(self).family.node_index_id_spec(final(self).family.ids()[id]) == Some(id)
                    &&& exists|idx: Seq<u32>| {
                        &&& idx.len() == crate::graph::ids_of(people@).len()
                        &&& idx.no_duplicates()
                        &&& final(self).family.structure().nodes == crate::graph::loaded_nodes(crate::graph::ids_of(people@), idx)
                        &&& final(self).family.ids() == crate::graph::id_index_map(crate::graph::ids_of(people@), idx)
                    }
                },
            },
    {
        match outcome {
            Fetch::Pending => {},
            Fetch::Failed => {
                self.nodes_pending = false;
            },
            Fetch::Ready(people) => {
                let family = FamilyGraph::from_people(&people);
                proof {
                    let idx = choose|idx: Seq<u32>| {
                        &&& idx.len() == crate::graph::ids_of(people@).len()
                        &&& idx.no_duplicates()
                        &&& family.structure().nodes == crate::graph::loaded_nodes(crate::graph::ids_of(people@), idx)
                        &&& family.ids() == crate::graph::id_index_map(crate::graph::ids_of(people@), idx)
                    };
                    crate::graph::law_loaded_ids_resolve(people@, idx);
                    assert(family.structure().edges.dom() =~= Set::<u32>::empty());
                }
                self.family = family;
                self.nodes_pending = false;
            },
        }
    }

    /// Applies the outcome of the links fetch: when it is in, the edge of
    /// each link is added and the graph laid out again; when it is in or
    /// failed, the fetch is over.
    pub fn refresh_conns(&mut self, outcome: Fetch<Vec<Link>>) -> (r: LayoutOutcome)
        requires
            old(self).wf(),
            outcome matches Fetch::Ready(links) ==> {
                &&& links_resolve(old(self).family.structure(), old(self).family.ids(), links@)
                &&& old(self).family.structure().edges.len() + links.len() < u32::MAX
            },
        ensures
            final(self).wf(),
            match outcome {
                Fetch::Pending => *final(self) == *old(self) && r is Unchanged,
                Fetch::Failed => *final(self) == (AppModel { conns_pending: false, ..*old(self) }) && r is Unchanged,
                Fetch::Ready(links) => {
                    &&& *final(self) == (AppModel { conns_pending: false, family: final(self).family, ..*old(self) })
                    &&& final(self).family.ids() == old(self).family.ids()
                    &&& exists|added: Seq<u32>| {
                        &&& added.len() == links.len()
                        &&& added.no_duplicates()
                        &&& forall|k: int| 0 <= k < added.len() ==> !old(self).family.structure().edges.contains_key(#[trigger] added[k])
                        &&& final(self).family.structure() == with_links(old(self).family.structure(), old(self).family.ids(), links@, added)
                    }
                    &&& forall|roots: Seq<u32>| #[trigger] crate::layout::source_order(final(self).family.structure(), roots) ==> {
                        let cells = crate::layout::layout_cells(final(self).family.structure(), roots);
                        &&& (r is Overflow <==> !crate::layout::cells_fit(cells))
                        &&& (r matches LayoutOutcome::Placed(p) ==> p@.map_values(|q: Placement| crate::layout::placement_point(q))
                            == cells.map_values(|c: crate::layout::Cell| crate::layout::cell_point(c)))
                    }
                    &&& !(r is Unchanged)
                },
            },
    {
        match outcome {
            Fetch::Pending => LayoutOutcome::Unchanged,
            Fetch::Failed => {
                self.conns_pending = false;
                LayoutOutcome::Unchanged
            },
            Fetch::Ready(links) => {
                let _added = self.family.add_links(&links);
                self.conns_pending = false;
                match self.family.refresh_layout() {
                    Some(p) => LayoutOutcome::Placed(p),
                    None => LayoutOutcome::Overflow,
                }
            },
        }
    }

    /// Applies the outcome of the selected-person fetch.
    pub fn refresh_gperson(&mut self, outcome: Fetch<Person>)
        requires
            old(self).wf(),
        ensures
            final(self).wf(),
            match outcome {
                Fetch::Pending => *final(self) == *old(self),
                Fetch::Failed => *final(self) == (AppModel { person_pending: false, ..*old(self) }),
                Fetch::Ready(p) => *final(self) == (AppModel { person_pending: false, g_person: p, ..*old(self) }),
            },
    {
        match outcome {
            Fetch::Pending => {},
            Fetch::Failed => {
                self.person_pending = false;
            },
            Fetch::Ready(p) => {
                self.g_person = p;
                self.person_pending = false;
            },
        }
    }

    /// Handles one graph event: records its text in the log and, when it
    /// selects node `n`, shifts the selection (the last id becomes the one
    /// before, the id of `n` the last) and starts fetching that person,
    /// whose path it returns.
    pub fn handle_event(&mut self, entry: String, selected: Option<u32>) -> (r: Option<String>)
        requires
            old(self).wf(),
            selected matches Some(n) ==> old(self).family.node_index_id_spec(n) is Some,
        ensures
            final(self).wf(),
            final(self).last_events@.len() <= EVENTS_LIMIT + 1,
            selection_text(final(self).id_src@) && selection_text(final(self).id_tgt@),
            final(self).log() == logged(old(self).log(), entry@),
            *final(self) == (AppModel {
                last_events: final(self).last_events,
                id_src: final(self).id_src,
                id_tgt: final(self).id_tgt,
                person_pending: final(self).person_pending,
                ..*old(self)
            }),
            match selected {
                None => {
                    &&& r is None
                    &&& final(self).id_src == old(self).id_src
                    &&& final(self).id_tgt == old(self).id_tgt
                    &&& final(self).person_pending == old(self).person_pending
                },
                Some(n) => {
                    let id = old(self).family.node_index_id_spec(n)->0;
                    &&& r matches Some(path) && path@ == person_path_spec(id)
                    &&& final(self).id_src@ == old(self).id_tgt@
                    &&& final(self).id_tgt@ == decimal(id as nat)
                    &&& final(self).person_pending
                },
            },
    {
        record_event(&mut self.last_events, entry);
        proof {
            crate::events::law_log_bounded(old(self).log(), entry@);
        }
        match selected {
            None => None,
            Some(n) => {
                let id = self.family.node_index_id(n).unwrap();
                let text = u32_to_string(id);
                self.id_src = self.id_tgt.clone();
                self.id_tgt = text;
                self.person_pending = true;
                Some(person_path(id))
            },
        }
    }
}

/// A non-empty selection text parses to the id it was written from.
pub proof fn lemma_selection_parses(s: Seq<char>)
    requires
        selection_text(s),
        s.len() > 0,
    ensures
        parse_u32_spec(s) is Some,
        s == decimal(parse_u32_spec(s)->0 as nat),
{
    let id = choose|id: u32| s == decimal(id as nat);
    lemma_parse_decimal(id);
}

/// In a consistent state each selection text is empty or parses to the id
/// it was written from, so reading it as a number cannot fail.
pub proof fn law_selection_texts_parse(m: AppModel)
    requires
        m.wf(),
    ensures
        m.id_src@.len() > 0 ==> parse_u32_spec(m.id_src@) is Some && m.id_src@ == decimal(parse_u32_spec(m.id_src@)->0 as nat),
        m.id_tgt@.len() > 0 ==> parse_u32_spec(m.id_tgt@) is Some && m.id_tgt@ == decimal(parse_u32_spec(m.id_tgt@)->0 as nat),
{
    if m.id_src@.len() > 0 {
        lemma_selection_parses(m.id_src@);
    }
    if m.id_tgt@.len() > 0 {
        lemma_selection_parses(m.id_tgt@);
    }
}

impl AppModel {
    /// The ids of the two selected nodes (the one before and the last one),
    /// when both are set.
    pub open spec fn selection_ids(&self) -> Option<(u32, u32)> {
        if self.id_src@.len() > 0 && self.id_tgt@.len() > 0 {
            Some((parse_u32_spec(self.id_src@)->0, parse_u32_spec(self.id_tgt@)->0))
        } else {
            None
        }
    }

    /// A link between the selected people can be drawn: both ids have nodes
    /// in the graph and the edge count has room.
    pub open spec fn selection_linkable(&self) -> bool {
        self.selection_ids() matches Some((a, b)) ==> {
            &&& self.family.ids().contains_key(a)
            &&& self.family.ids().contains_key(b)
            &&& self.family.structure().nodes.contains_key(self.family.ids()[a])
            &&& self.family.structure().nodes.contains_key(self.family.ids()[b])
            &&& self.family.structure().edges.len() < u32::MAX
        }
    }

    /// The ids of the two selected people, the one selected before first,
    /// when both are set.
    pub fn selected_ids(&self) -> (r: Option<(u32, u32)>)
        requires
            self.wf(),
        ensures
            r == self.selection_ids(),
    {
        if self.id_src.as_str().unicode_len() > 0 && self.id_tgt.as_str().unicode_len() > 0 {
            proof {
                lemma_selection_parses(self.id_src@);
                lemma_selection_parses(self.id_tgt@);
            }
            let a = parse_u32(self.id_src.as_str()).unwrap();
            let b = parse_u32(self.id_tgt.as_str()).unwrap();
            Some((a, b))
        } else {
            None
        }
    }

    /// Whether `link_selection` can run.
    pub fn can_link_selection(&self) -> (r: bool)
        requires
            self.wf(),
        ensures
            r == self.selection_linkable(),
    {
        if self.id_src.as_str().unicode_len() > 0 && self.id_tgt.as_str().unicode_len() > 0 {
            proof {
                lemma_selection_parses(self.id_src@);
                lemma_selection_parses(self.id_tgt@);
            }
            let a = parse_u32(self.id_src.as_str()).unwrap();
            let b = parse_u32(self.id_tgt.as_str()).unwrap();
            match (self.family.node_of(a), self.family.node_of(b)) {
                (Some(na), Some(nb)) => {
                    self.family.contains_node(na) && self.family.contains_node(nb)
                        && self.family.edge_count() < u32::MAX as usize
                },
                _ => false,
            }
        } else {
            true
        }
    }

    /// A link key: when both selection ids are set, draws an edge labelled
    /// with `relation` from the node selected before to the node selected
    /// last and returns the two ids, for the link to be posted to the server.
    pub fn link_selection(&mut self, relation: Relation) -> (r: Option<(u32, u32)>)
        requires
            old(self).wf(),
            old(self).selection_linkable(),
        ensures
            final(self).wf(),
            r == old(self).selection_ids(),
            r is None ==> *final(self) == *old(self),
            r matches Some((a, b)) ==> {
                &&& *final(self) == (AppModel { family: final(self).family, ..*old(self) })
                &&& final(self).family.ids() == old(self).family.ids()
                &&& exists|e: u32| {
                    &&& !old(self).family.structure().edges.contains_key(e)
                    &&& #[trigger] final(self).family.structure() == old(self).family.structure().with_edge(
                        e,
                        old(self).family.ids()[a],
                        old(self).family.ids()[b],
                        relation.label_spec(),
                    )
                }
            },
    {
        if self.id_src.as_str().unicode_len() > 0 && self.id_tgt.as_str().unicode_len() > 0 {
            proof {
                lemma_selection_parses(self.id_src@);
                lemma_selection_parses(self.id_tgt@);
            }
            let a = parse_u32(self.id_src.as_str()).unwrap();
            let b = parse_u32(self.id_tgt.as_str()).unwrap();
            let _edge = self.family.add_link(a, b, relation.label());
            Some((a, b))
        } else {
            None
        }
    }

    /// The delete key: removes the selected edges, then the selected nodes,
    /// and returns the server paths to delete, as
    /// `FamilyGraph::delete_selection` does.
    pub fn delete_selection(&mut self, edge_sel: &Vec<u32>, node_sel: &Vec<u32>) -> (paths: Vec<String>)
        requires
            old(self).wf(),
            deletable(old(self).family.structure(), edge_sel@, node_sel@),
        ensures
            final(self).wf(),
            *final(self) == (AppModel { family: final(self).family, ..*old(self) }),
            final(self).family.ids() == old(self).family.ids(),
            ({
                let (w, edge_paths) = after_edge_removals(old(self).family.structure(), edge_sel@);
                let (x, node_paths) = after_node_removals(w, node_sel@);
                &&& final(self).family.structure() == x
                &&& paths@.map_values(|p: String| p@) == edge_paths + node_paths
            }),
    {
        self.family.delete_selection(edge_sel, node_sel)
    }

    /// Keeps the form's death date in step with its "is dead" box: a dead
    /// person without a date gets 2024-12-06; a living one has none.
    pub fn sync_death_date(&mut self)
        ensures
            final(self).c_person.death_dt == (if old(self).c_is_dead {
                match old(self).c_person.death_dt {
                    Some(d) => Some(d),
                    None => Some(Date { year: 2024, month: 12, day: 6 }),
                }
            } else {
                None
            }),
            *final(self) == (AppModel {
                c_person: Person { death_dt: final(self).c_person.death_dt, ..old(self).c_person },
                ..*old(self)
            }),
    {
        if self.c_is_dead {
            if self.c_person.death_dt.is_none() {
                self.c_person.death_dt = Some(default_death_date());
            }
        } else {
            self.c_person.death_dt = None;
        }
    }

    /// The "Post" button: returns a copy of the form's person, to be posted,
    /// and starts fetching the graph again.
    pub fn post_person(&mut self) -> (p: Person)
        ensures
            same_person(p, old(self).c_person),
            *final(self) == (AppModel { nodes_pending: true, conns_pending: true, ..*old(self) }),
    {
        let p = self.c_person.duplicate();
        self.refresh_graph();
        p
    }
}

impl AppModel {
    /// The ancestors query: when a person is selected, starts fetching the
    /// ancestors of the last selected person and returns the path.
    pub fn request_ancestors(&mut self) -> (r: Option<String>)
        requires
            old(self).wf(),
        ensures
            final(self).wf(),
            old(self).id_tgt@.len() == 0 ==> r is None && *final(self) == *old(self),
            old(self).id_tgt@.len() > 0 ==> {
                &&& r matches Some(p) && p@ == ancestors_path_spec(parse_u32_spec(old(self).id_tgt@)->0)
                &&& *final(self) == (AppModel { ancestors_pending: true, ..*old(self) })
            },
    {
        if self.id_tgt.as_str().unicode_len() > 0 {
            proof {
                lemma_selection_parses(self.id_tgt@);
            }
            let id = parse_u32(self.id_tgt.as_str()).unwrap();
            self.ancestors_pending = true;
            Some(ancestors_path(id))
        } else {
            None
        }
    }

    /// The nearest-common-ancestor query: when two people are selected,
    /// starts fetching the nearest common ancestor of the one selected before
    /// and the last one, and returns the path.
    pub fn request_nca(&mut self) -> (r: Option<String>)
        requires
            old(self).wf(),
        ensures
            final(self).wf(),
            old(self).selection_ids() is None ==> r is None && *final(self) == *old(self),
            old(self).selection_ids() matches Some((a, b)) ==> {
                &&& r matches Some(p) && p@ == nca_path_spec(a, b)
                &&& *final(self) == (AppModel { nca_pending: true, ..*old(self) })
            },
    {
        if self.id_src.as_str().unicode_len() > 0 && self.id_tgt.as_str().unicode_len() > 0 {
            proof {
                lemma_selection_parses(self.id_src@);
                lemma_selection_parses(self.id_tgt@);
            }
            let a = parse_u32(self.id_src.as_str()).unwrap();
            let b = parse_u32(self.id_tgt.as_str()).unwrap();
            self.nca_pending = true;
            Some(nca_path(a, b))
        } else {
            None
        }
    }

    /// Applies the outcome of the ancestors fetch.
    pub fn refresh_ancestors(&mut self, outcome: Fetch<Vec<Person>>)
        requires
            old(self).wf(),
        ensures
            final(self).wf(),
            match outcome {
                Fetch::Pending => *final(self) == *old(self),
                Fetch::Failed => *final(self) == (AppModel { ancestors_pending: false, ..*old(self) }),
                Fetch::Ready(people) => *final(self) == (AppModel { ancestors_pending: false, ancestors: people, ..*old(self) }),
            },
    {
        match outcome {
            Fetch::Pending => {},
            Fetch::Failed => {
                self.ancestors_pending = false;
            },
            Fetch::Ready(people) => {
                self.ancestors = people;
                self.ancestors_pending = false;
            },
        }
    }

    /// Applies the outcome of the nearest-common-ancestor fetch.
    pub fn refresh_nca(&mut self, outcome: Fetch<Person>)
        requires
            old(self).wf(),
        ensures
            final(self).wf(),
            match outcome {
                Fetch::Pending => *final(self) == *old(self),
                Fetch::Failed => *final(self) == (AppModel { nca_pending: false, ..*old(self) }),
                Fetch::Ready(p) => *final(self) == (AppModel { nca_pending: false, nca: Some(p), ..*old(self) }),
            },
    {
        match outcome {
            Fetch::Pending => {},
            Fetch::Failed => {
                self.nca_pending = false;
            },
            Fetch::Ready(p) => {
                self.nca = Some(p);
                self.nca_pending = false;
            },
        }
    }
}
} // verus!
