//! The family graph: people as nodes labelled with their id, relations as
//! labelled edges, held in a petgraph `StableGraph`, and the map from person
//! ids to node indices.
use vstd::prelude::*;
use petgraph::stable_graph::{NodeIndex, EdgeIndex, StableGraph};
use petgraph::{Directed, Incoming, Outgoing};
use std::collections::HashMap;
use crate::decimal::{decimal, lemma_parse_decimal, parse_u32, parse_u32_spec, u32_to_string};
use crate::person::{Link, Person};
use crate::api::{law_person_path_names_person, law_relation_path_names_people, names_relation, person_path, person_path_spec, relation_path, relation_path_spec, relation_segment, relation_segment_spec};

verus! {

/// petgraph's `StableGraph`, opaque to Verus: what it holds is given by
/// `graph_nodes` and `graph_edges`.
#[verifier::external_type_specification]
#[verifier::external_body]
#[verifier::reject_recursive_types(N)]
#[verifier::reject_recursive_types(E)]
#[verifier::reject_recursive_types(Ty)]
#[verifier::reject_recursive_types(Ix)]
pub struct ExStableGraph<N, E, Ty, Ix>(StableGraph<N, E, Ty, Ix>);

/// petgraph's marker for directed graphs, the default edge type of
/// `StableGraph`.
#[verifier::external_type_specification]
#[verifier::external_body]
pub struct ExDirected(Directed);

/// Node index to (label, outgoing edge indices).
pub type NodeMap = Map<u32, (Seq<char>, Seq<u32>)>;

/// Edge index to (source, target, label).
pub type EdgeMap = Map<u32, (u32, u32, Seq<char>)>;

/// The nodes that a `StableGraph` holds: node index to (weight, indices of
/// its outgoing edges in the order in which petgraph lists them, newest
/// first).
pub uninterp spec fn graph_nodes(g: StableGraph<String, String>) -> NodeMap;

/// The edges that a `StableGraph` holds: edge index to (source, target,
/// weight).
pub uninterp spec fn graph_edges(g: StableGraph<String, String>) -> EdgeMap;

/// What a `StableGraph<String, String>` holds, as plain values.
pub struct GraphView {
    pub nodes: NodeMap,
    pub edges: EdgeMap,
}

/// The contents of `g`.
pub open spec fn view_of(g: StableGraph<String, String>) -> GraphView {
    GraphView { nodes: graph_nodes(g), edges: graph_edges(g) }
}

/// Keeps every edge index but `e`.
pub open spec fn other_than(e: u32) -> spec_fn(u32) -> bool {
    |x: u32| x != e
}

/// Keeps the edge indices that `kept` holds.
pub open spec fn kept_in(kept: EdgeMap) -> spec_fn(u32) -> bool {
    |x: u32| kept.contains_key(x)
}

impl GraphView {
    /// The label of node `n`.
    pub open spec fn label(self, n: u32) -> Seq<char> {
        self.nodes[n].0
    }

    /// The outgoing edges of node `n`, newest first.
    pub open spec fn out_edges(self, n: u32) -> Seq<u32> {
        self.nodes[n].1
    }

    /// The targets of the outgoing edges of `n`, in the order of `out_edges`.
    pub open spec fn out_neighbors(self, n: u32) -> Seq<u32> {
        self.nodes[n].1.map_values(|e: u32| self.edges[e].1)
    }

    /// `n` is a node and no edge ends at it.
    pub open spec fn is_source(self, n: u32) -> bool {
        &&& self.nodes.contains_key(n)
        &&& forall|e: u32| #[trigger] self.edges.contains_key(e) ==> self.edges[e].1 != n
    }

    /// The consistency that petgraph keeps between nodes, edges and the
    /// adjacency lists.
    pub open spec fn wf(self) -> bool {
        &&& self.nodes.dom().finite()
        &&& self.edges.dom().finite()
        &&& forall|n: u32, i: int|
            #![trigger self.nodes[n].1[i]]
            self.nodes.contains_key(n) && 0 <= i < self.nodes[n].1.len() ==> {
                &&& self.edges.contains_key(self.nodes[n].1[i])
                &&& self.edges[self.nodes[n].1[i]].0 == n
            }
        &&& forall|n: u32| #[trigger] self.nodes.contains_key(n) ==> self.nodes[n].1.no_duplicates()
        &&& forall|e: u32|
            #[trigger] self.edges.contains_key(e) ==> {
                &&& self.nodes.contains_key(self.edges[e].0)
                &&& self.nodes.contains_key(self.edges[e].1)
                &&& self.nodes[self.edges[e].0].1.contains(e)
            }
    }

    /// A new node `n` with `label` and no edges.
    pub open spec fn with_node(self, n: u32, label: Seq<char>) -> GraphView {
        GraphView { nodes: self.nodes.insert(n, (label, Seq::empty())), edges: self.edges }
    }

    /// Node `n` with its label replaced by `label`.
    pub open spec fn relabelled(self, n: u32, label: Seq<char>) -> GraphView {
        GraphView { nodes: self.nodes.insert(n, (label, self.nodes[n].1)), edges: self.edges }
    }

    /// A new edge `e` from `a` to `b`, put at the front of the outgoing list
    /// of `a`.
    pub open spec fn with_edge(self, e: u32, a: u32, b: u32, label: Seq<char>) -> GraphView {
        GraphView {
            nodes: self.nodes.insert(a, (self.nodes[a].0, seq![e] + self.nodes[a].1)),
            edges: self.edges.insert(e, (a, b, label)),
        }
    }

    /// Edge `e` taken out of the graph and of its source's outgoing list.
    pub open spec fn without_edge(self, e: u32) -> GraphView {
        let src = self.edges[e].0;
        GraphView {
            nodes: self.nodes.insert(
                src,
                (self.nodes[src].0, self.nodes[src].1.filter(other_than(e))),
            ),
            edges: self.edges.remove(e),
        }
    }

    /// The edges that do not touch node `n`.
    pub open spec fn edges_off(self, n: u32) -> EdgeMap {
        self.edges.restrict(
            Set::new(|e: u32| self.edges.contains_key(e) && self.edges[e].0 != n && self.edges[e].1 != n),
        )
    }

    /// Node `n` taken out of the graph with every edge that touches it.
    pub open spec fn without_node(self, n: u32) -> GraphView {
        let kept = self.edges_off(n);
        GraphView {
            nodes: Map::new(
                |m: u32| self.nodes.contains_key(m) && m != n,
                |m: u32| (self.nodes[m].0, self.nodes[m].1.filter(kept_in(kept))),
            ),
            edges: kept,
        }
    }
}

/// Filtering a sequence without duplicates leaves none.
pub proof fn lemma_filter_no_duplicates(s: Seq<u32>, p: spec_fn(u32) -> bool)
    requires
        s.no_duplicates(),
    ensures
        s.filter(p).no_duplicates(),
    decreases s.len(),
{
    reveal(Seq::filter);
    if s.len() > 0 {
        let d = s.drop_last();
        assert(d.no_duplicates());
        lemma_filter_no_duplicates(d, p);
        let sub = d.filter(p);
        if p(s.last()) && sub.contains(s.last()) {
            d.lemma_filter_contains_rev(p, s.last());
            let k = choose|k: int| 0 <= k < d.len() && d[k] == s.last();
            assert(s[k] == s[s.len() - 1]);
        }
    }
}

/// Adding a node at a free index keeps the graph consistent.
pub proof fn lemma_with_node_wf(v: GraphView, n: u32, label: Seq<char>)
    requires
        v.wf(),
        !v.nodes.contains_key(n),
    ensures
        v.with_node(n, label).wf(),
{
    let w = v.with_node(n, label);
    assert forall|e: u32| #[trigger] w.edges.contains_key(e) implies w.nodes[w.edges[e].0].1.contains(e) by {
        assert(v.nodes[v.edges[e].0].1.contains(e));
    }
}

/// Relabelling a node keeps the graph consistent.
pub proof fn lemma_relabelled_wf(v: GraphView, n: u32, label: Seq<char>)
    requires
        v.wf(),
        v.nodes.contains_key(n),
    ensures
        v.relabelled(n, label).wf(),
{
    let w = v.relabelled(n, label);
    assert forall|e: u32| #[trigger] w.edges.contains_key(e) implies w.nodes[w.edges[e].0].1.contains(e) by {
        assert(v.nodes[v.edges[e].0].1.contains(e));
    }
}

/// Adding an edge at a free index between two nodes keeps the graph
/// consistent.
pub proof fn lemma_with_edge_wf(v: GraphView, e: u32, a: u32, b: u32, label: Seq<char>)
    requires
        v.wf(),
        !v.edges.contains_key(e),
        v.nodes.contains_key(a),
        v.nodes.contains_key(b),
    ensures
        v.with_edge(e, a, b, label).wf(),
{
    let w = v.with_edge(e, a, b, label);
    let la = v.nodes[a].1;
    let na = seq![e] + la;
    assert(w.nodes[a].1 == na);
    assert forall|n: u32, i: int|
        w.nodes.contains_key(n) && 0 <= i < w.nodes[n].1.len() implies {
            &&& w.edges.contains_key(#[trigger] w.nodes[n].1[i])
            &&& w.edges[w.nodes[n].1[i]].0 == n
        } by {
        if n == a {
            if i > 0 {
                assert(na[i] == la[i - 1]);
                assert(v.edges.contains_key(v.nodes[n].1[i - 1]));
            }
        } else {
            assert(v.edges.contains_key(v.nodes[n].1[i]));
        }
    }
    assert forall|n: u32| #[trigger] w.nodes.contains_key(n) implies w.nodes[n].1.no_duplicates() by {
        if n == a {
            assert(v.nodes[a].1.no_duplicates());
            assert forall|i: int, j: int| 0 <= i < j < na.len() implies na[i] != na[j] by {
                if i == 0 {
                    assert(na[j] == la[j - 1]);
                    assert(v.edges.contains_key(v.nodes[a].1[j - 1]));
                } else {
                    assert(na[i] == la[i - 1]);
                    assert(na[j] == la[j - 1]);
                }
            }
        } else {
            assert(v.nodes[n].1.no_duplicates());
        }
    }
    assert forall|x: u32| #[trigger] w.edges.contains_key(x) implies {
        &&& w.nodes.contains_key(w.edges[x].0)
        &&& w.nodes.contains_key(w.edges[x].1)
        &&& w.nodes[w.edges[x].0].1.contains(x)
    } by {
        if x == e {
            assert(na[0] == e);
        } else {
            let src = v.edges[x].0;
            assert(v.nodes[src].1.contains(x));
            if src == a {
                let k = choose|k: int| 0 <= k < la.len() && la[k] == x;
                assert(na[k + 1] == x);
            }
        }
    }
}

/// Removing an edge keeps the graph consistent.
pub proof fn lemma_without_edge_wf(v: GraphView, e: u32)
    requires
        v.wf(),
        v.edges.contains_key(e),
    ensures
        v.without_edge(e).wf(),
{
    let w = v.without_edge(e);
    let src = v.edges[e].0;
    let ls = v.nodes[src].1;
    let fs = ls.filter(other_than(e));
    assert(w.nodes[src].1 == fs);
    assert forall|n: u32, i: int|
        w.nodes.contains_key(n) && 0 <= i < w.nodes[n].1.len() implies {
            &&& w.edges.contains_key(#[trigger] w.nodes[n].1[i])
            &&& w.edges[w.nodes[n].1[i]].0 == n
        } by {
        if n == src {
            let x = fs[i];
            assert(fs.contains(x));
            ls.lemma_filter_contains_rev(other_than(e), x);
            let k = choose|k: int| 0 <= k < ls.len() && ls[k] == x;
            assert(v.edges.contains_key(v.nodes[n].1[k]));
        } else {
            assert(v.edges.contains_key(v.nodes[n].1[i]));
        }
    }
    assert forall|n: u32| #[trigger] w.nodes.contains_key(n) implies w.nodes[n].1.no_duplicates() by {
        assert(v.nodes[n].1.no_duplicates());
        if n == src {
            lemma_filter_no_duplicates(ls, other_than(e));
        }
    }
    assert forall|x: u32| #[trigger] w.edges.contains_key(x) implies {
        &&& w.nodes.contains_key(w.edges[x].0)
        &&& w.nodes.contains_key(w.edges[x].1)
        &&& w.nodes[w.edges[x].0].1.contains(x)
    } by {
        assert(v.nodes[v.edges[x].0].1.contains(x));
        if v.edges[x].0 == src {
            let k = choose|k: int| 0 <= k < ls.len() && ls[k] == x;
            ls.lemma_filter_contains(other_than(e), k);
        }
    }
}

/// Removing a node with its edges keeps the graph consistent.
pub proof fn lemma_without_node_wf(v: GraphView, n: u32)
    requires
        v.wf(),
        v.nodes.contains_key(n),
    ensures
        v.without_node(n).wf(),
{
    let w = v.without_node(n);
    let kept = v.edges_off(n);
    assert(w.nodes.dom() =~= v.nodes.dom().remove(n));
    assert(kept.dom().subset_of(v.edges.dom()));
    vstd::set_lib::lemma_set_subset_finite(v.edges.dom(), kept.dom());
    assert forall|m: u32, i: int|
        w.nodes.contains_key(m) && 0 <= i < w.nodes[m].1.len() implies {
            &&& w.edges.contains_key(#[trigger] w.nodes[m].1[i])
            &&& w.edges[w.nodes[m].1[i]].0 == m
        } by {
        let ls = v.nodes[m].1;
        let x = w.nodes[m].1[i];
        ls.lemma_filter_pred(kept_in(kept), i);
        assert(w.nodes[m].1.contains(x));
        ls.lemma_filter_contains_rev(kept_in(kept), x);
        let k = choose|k: int| 0 <= k < ls.len() && ls[k] == x;
        assert(v.edges.contains_key(v.nodes[m].1[k]));
    }
    assert forall|m: u32| #[trigger] w.nodes.contains_key(m) implies w.nodes[m].1.no_duplicates() by {
        assert(v.nodes[m].1.no_duplicates());
        lemma_filter_no_duplicates(v.nodes[m].1, kept_in(kept));
    }
    assert forall|x: u32| #[trigger] w.edges.contains_key(x) implies {
        &&& w.nodes.contains_key(w.edges[x].0)
        &&& w.nodes.contains_key(w.edges[x].1)
        &&& w.nodes[w.edges[x].0].1.contains(x)
    } by {
        let src = v.edges[x].0;
        let ls = v.nodes[src].1;
        assert(ls.contains(x));
        let k = choose|k: int| 0 <= k < ls.len() && ls[k] == x;
        ls.lemma_filter_contains(kept_in(kept), k);
    }
}

/// `StableGraph::new`: a graph with no nodes and no edges.
#[verifier::external_body]
pub(crate) fn sg_new() -> (g: StableGraph<String, String>)
    ensures
        graph_nodes(g) == NodeMap::empty(),
        graph_edges(g) == EdgeMap::empty(),
{
    StableGraph::new()
}

/// `StableGraph::add_node`: a new node holding `w`, with no edges, at an
/// index that held no node. Trusted: petgraph reuses a vacant index or
/// appends one; it panics only when the node count reaches `u32::MAX`.
#[verifier::external_body]
pub(crate) fn sg_add_node(g: &mut StableGraph<String, String>, w: String) -> (n: u32)
    requires
        graph_nodes(*old(g)).dom().finite(),
        graph_nodes(*old(g)).len() < u32::MAX,
    ensures
        !graph_nodes(*old(g)).contains_key(n),
        view_of(*final(g)) == view_of(*old(g)).with_node(n, w@),
{
    g.add_node(w).index() as u32
}

/// `StableGraph::add_edge` from `a` to `b` holding `w`. Trusted: petgraph
/// takes an index that held no edge and puts the edge at the head of the
/// outgoing list of `a` (neighbors are listed newest first); it panics when a
/// node is missing or the edge count reaches `u32::MAX`.
#[verifier::external_body]
pub(crate) fn sg_add_edge(g: &mut StableGraph<String, String>, a: u32, b: u32, w: String) -> (e: u32)
    requires
        graph_nodes(*old(g)).contains_key(a),
        graph_nodes(*old(g)).contains_key(b),
        graph_edges(*old(g)).dom().finite(),
        graph_edges(*old(g)).len() < u32::MAX,
    ensures
        !graph_edges(*old(g)).contains_key(e),
        view_of(*final(g)) == view_of(*old(g)).with_edge(e, a, b, w@),
{
    g.add_edge(NodeIndex::new(a as usize), NodeIndex::new(b as usize), w).index() as u32
}

/// `StableGraph::remove_edge`: takes edge `e` out (unlinking it from its
/// source's outgoing list, the order of the rest kept) and gives back its
/// weight; a missing edge leaves the graph as it is and gives `None`.
#[verifier::external_body]
pub(crate) fn sg_remove_edge(g: &mut StableGraph<String, String>, e: u32) -> (r: Option<String>)
    ensures
        graph_edges(*old(g)).contains_key(e) ==> {
            &&& r is Some
            &&& r->0@ == graph_edges(*old(g))[e].2
            &&& view_of(*final(g)) == view_of(*old(g)).without_edge(e)
        },
        !graph_edges(*old(g)).contains_key(e) ==> r is None && *final(g) == *old(g),
{
    g.remove_edge(EdgeIndex::new(e as usize))
}

/// `StableGraph::remove_node`: takes node `n` out with every edge that
/// touches it (the outgoing lists of the other nodes keep their order) and
/// gives back its weight; a missing node gives `None` and no change.
#[verifier::external_body]
pub(crate) fn sg_remove_node(g: &mut StableGraph<String, String>, n: u32) -> (r: Option<String>)
    ensures
        graph_nodes(*old(g)).contains_key(n) ==> {
            &&& r is Some
            &&& r->0@ == graph_nodes(*old(g))[n].0
            &&& view_of(*final(g)) == view_of(*old(g)).without_node(n)
        },
        !graph_nodes(*old(g)).contains_key(n) ==> r is None && *final(g) == *old(g),
{
    g.remove_node(NodeIndex::new(n as usize))
}

/// `StableGraph::node_weight`, cloned: the label of node `n`, if there is one.
#[verifier::external_body]
pub(crate) fn sg_node_label(g: &StableGraph<String, String>, n: u32) -> (r: Option<String>)
    ensures
        r is Some <==> graph_nodes(*g).contains_key(n),
        r matches Some(w) ==> w@ == graph_nodes(*g)[n].0,
{
    g.node_weight(NodeIndex::new(n as usize)).cloned()
}

/// `IndexMut` of `StableGraph` by a node index: replaces the label of `n`.
/// Trusted: it panics when `n` is not a node.
#[verifier::external_body]
pub(crate) fn sg_set_label(g: &mut StableGraph<String, String>, n: u32, w: String)
    requires
        graph_nodes(*old(g)).contains_key(n),
    ensures
        view_of(*final(g)) == view_of(*old(g)).relabelled(n, w@),
{
    g[NodeIndex::new(n as usize)] = w;
}

/// `StableGraph::edge_weight`, cloned: the label of edge `e`, if it is an
/// edge.
#[verifier::external_body]
pub(crate) fn sg_edge_label(g: &StableGraph<String, String>, e: u32) -> (r: Option<String>)
    ensures
        r is Some <==> graph_edges(*g).contains_key(e),
        r matches Some(w) ==> w@ == graph_edges(*g)[e].2,
{
    g.edge_weight(EdgeIndex::new(e as usize)).cloned()
}

/// `StableGraph::edge_endpoints`: source and target of edge `e`, if it is
/// an edge.
#[verifier::external_body]
pub(crate) fn sg_edge_endpoints(g: &StableGraph<String, String>, e: u32) -> (r: Option<(u32, u32)>)
    ensures
        graph_edges(*g).contains_key(e) ==> r == Some((graph_edges(*g)[e].0, graph_edges(*g)[e].1)),
        !graph_edges(*g).contains_key(e) ==> r is None,
{
    match g.edge_endpoints(EdgeIndex::new(e as usize)) {
        Some((a, b)) => Some((a.index() as u32, b.index() as u32)),
        None => None,
    }
}

/// `StableGraph::edge_count`: how many edges the graph holds.
#[verifier::external_body]
pub(crate) fn sg_edge_count(g: &StableGraph<String, String>) -> (r: usize)
    ensures
        r == graph_edges(*g).len(),
{
    g.edge_count()
}

/// `StableGraph::externals(Incoming)`: the nodes that no edge ends at, in
/// increasing index order.
#[verifier::external_body]
pub(crate) fn sg_sources(g: &StableGraph<String, String>) -> (r: Vec<u32>)
    ensures
        forall|i: int, j: int| 0 <= i < j < r@.len() ==> r@[i] < r@[j],
        forall|n: u32| r@.contains(n) <==> view_of(*g).is_source(n),
{
    let mut r = Vec::new();
    for n in g.externals(Incoming) {
        r.push(n.index() as u32);
    }
    r
}

/// `StableGraph::neighbors_directed(n, Outgoing)`: the targets of the
/// outgoing edges of `n`, newest edge first; none for a missing node.
#[verifier::external_body]
pub(crate) fn sg_out_neighbors(g: &StableGraph<String, String>, n: u32) -> (r: Vec<u32>)
    ensures
        graph_nodes(*g).contains_key(n) ==> r@ == view_of(*g).out_neighbors(n),
        !graph_nodes(*g).contains_key(n) ==> r@.len() == 0,
{
    let mut r = Vec::new();
    for m in g.neighbors_directed(NodeIndex::new(n as usize), Outgoing) {
        r.push(m.index() as u32);
    }
    r
}

} // verus!

verus! {

broadcast use vstd::std_specs::hash::group_hash_axioms;

/// The ids of the people that have one, in order.
pub open spec fn ids_of(people: Seq<Person>) -> Seq<u32>
    decreases people.len(),
{
    if people.len() == 0 {
        Seq::empty()
    } else {
        let rest = ids_of(people.drop_last());
        match people.last().id {
            Some(id) => rest.push(id),
            None => rest,
        }
    }
}

/// The map that inserting `ids[k] -> idx[k]` for `k = 0, 1, ...` builds (a
/// later id replaces an earlier equal one).
pub open spec fn id_index_map(ids: Seq<u32>, idx: Seq<u32>) -> Map<u32, u32>
    decreases ids.len(),
{
    if ids.len() == 0 || idx.len() != ids.len() {
        Map::empty()
    } else {
        id_index_map(ids.drop_last(), idx.drop_last()).insert(ids.last(), idx.last())
    }
}

/// The nodes `idx[k]` labelled with the decimal text of `ids[k]`, without
/// edges.
pub open spec fn loaded_nodes(ids: Seq<u32>, idx: Seq<u32>) -> NodeMap
    decreases ids.len(),
{
    if ids.len() == 0 || idx.len() != ids.len() {
        NodeMap::empty()
    } else {
        loaded_nodes(ids.drop_last(), idx.drop_last()).insert(
            idx.last(),
            (decimal(ids.last() as nat), Seq::empty()),
        )
    }
}

/// The family graph and the map from person id to node index.
pub struct FamilyGraph {
    pub graph: StableGraph<String, String>,
    pub node_map: HashMap<u32, u32>,
}

impl FamilyGraph {
    /// The nodes and edges of the graph.
    pub open spec fn structure(&self) -> GraphView {
        view_of(self.graph)
    }

    /// The map from person id to node index.
    pub open spec fn ids(&self) -> Map<u32, u32> {
        self.node_map@
    }

    /// The graph is consistent.
    pub open spec fn wf(&self) -> bool {
        self.structure().wf()
    }

    /// The graph shown before the first load: one node labelled
    /// `node {index}`, no edges, no ids.
    pub fn placeholder() -> (r: FamilyGraph)
        ensures
            r.wf(),
            r.ids() == Map::<u32, u32>::empty(),
            r.structure().edges == EdgeMap::empty(),
            r.structure().nodes.len() == 1,
            forall|n: u32| #[trigger] r.structure().nodes.contains_key(n) ==> {
                &&& r.structure().label(n) == "node "@ + decimal(n as nat)
                &&& r.structure().out_edges(n) == Seq::<u32>::empty()
            },
    {
        let mut g = sg_new();
        let ghost v0 = view_of(g);
        assert(v0.wf());
        let n = sg_add_node(&mut g, String::new());
        proof {
            lemma_with_node_wf(v0, n, Seq::empty());
            lemma_relabelled_wf(view_of(g), n, "node "@ + decimal(n as nat));
        }
        let mut label = String::from_str("node ");
        let digits = u32_to_string(n);
        label.append(digits.as_str());
        sg_set_label(&mut g, n, label);
        let r = FamilyGraph { graph: g, node_map: HashMap::new() };
        proof {
            assert(r.structure().nodes.dom() =~= set![n]);
        }
        r
    }
}


/// The nodes of `loaded_nodes(ids, idx)` are exactly the entries of `idx`.
pub proof fn lemma_loaded_nodes_dom(ids: Seq<u32>, idx: Seq<u32>)
    requires
        ids.len() == idx.len(),
    ensures
        loaded_nodes(ids, idx).dom() =~= idx.to_set(),
        forall|n: u32| #[trigger] loaded_nodes(ids, idx).contains_key(n)
            ==> loaded_nodes(ids, idx)[n].1 == Seq::<u32>::empty(),
    decreases ids.len(),
{
    if ids.len() > 0 {
        lemma_loaded_nodes_dom(ids.drop_last(), idx.drop_last());
        assert(idx.drop_last().push(idx.last()) =~= idx);
        idx.drop_last().lemma_push_to_set_commute(idx.last());
    } else {
        assert(idx.to_set() =~= Set::<u32>::empty());
    }
}

/// After loading, every id of the map points at a node labelled with that
/// id.
pub proof fn lemma_loaded_ids_point_at_labels(ids: Seq<u32>, idx: Seq<u32>)
    requires
        ids.len() == idx.len(),
        idx.no_duplicates(),
    ensures
        forall|id: u32| #[trigger] id_index_map(ids, idx).contains_key(id) ==> {
            &&& loaded_nodes(ids, idx).contains_key(id_index_map(ids, idx)[id])
            &&& loaded_nodes(ids, idx)[id_index_map(ids, idx)[id]].0 == decimal(id as nat)
        },
        id_index_map(ids, idx).dom() =~= ids.to_set(),
    decreases ids.len(),
{
    if ids.len() > 0 {
        let (pi, px) = (ids.drop_last(), idx.drop_last());
        assert(px.no_duplicates());
        lemma_loaded_ids_point_at_labels(pi, px);
        assert(pi.push(ids.last()) =~= ids);
        pi.lemma_push_to_set_commute(ids.last());
        lemma_loaded_nodes_dom(pi, px);
        assert forall|id: u32| #[trigger] id_index_map(ids, idx).contains_key(id) implies {
            &&& loaded_nodes(ids, idx).contains_key(id_index_map(ids, idx)[id])
            &&& loaded_nodes(ids, idx)[id_index_map(ids, idx)[id]].0 == decimal(id as nat)
        } by {
            if id != ids.last() {
                let m = id_index_map(pi, px)[id];
                assert(px.to_set().contains(m));
                if m == idx.last() {
                    let k = choose|k: int| 0 <= k < px.len() && px[k] == m;
                    assert(idx[k] == idx[idx.len() - 1]);
                }
            }
        }
    } else {
        assert(ids.to_set() =~= Set::<u32>::empty());
    }
}

impl FamilyGraph {
    /// Builds the graph of the loaded people: one node per person with an
    /// id, labelled with the id's decimal text, no edges, and the map from
    /// each id to its node (the last node for an id given twice).
    pub fn from_people(people: &Vec<Person>) -> (r: FamilyGraph)
        requires
            people.len() < u32::MAX,
        ensures
            r.wf(),
            r.structure().edges == EdgeMap::empty(),
            exists|idx: Seq<u32>| {
                &&& idx.len() == ids_of(people@).len()
                &&& idx.no_duplicates()
                &&& r.structure().nodes == loaded_nodes(ids_of(people@), idx)
                &&& r.ids() == id_index_map(ids_of(people@), idx)
            },
    {
        let mut g = sg_new();
        let mut node_map: HashMap<u32, u32> = HashMap::new();
        let ghost mut idx: Seq<u32> = Seq::empty();
        let mut i: usize = 0;
        proof {
            lemma_loaded_nodes_dom(Seq::empty(), Seq::empty());
            assert(people@.take(0) =~= Seq::<Person>::empty());
            assert(node_map@ =~= id_index_map(Seq::empty(), Seq::empty()));
            assert(view_of(g).nodes =~= loaded_nodes(Seq::empty(), Seq::empty()));
        }
        while i < people.len()
            invariant
                i <= people.len() < u32::MAX,
                idx.len() == ids_of(people@.take(i as int)).len(),
                idx.len() <= i,
                idx.no_duplicates(),
                view_of(g).nodes == loaded_nodes(ids_of(people@.take(i as int)), idx),
                view_of(g).edges == EdgeMap::empty(),
                node_map@ == id_index_map(ids_of(people@.take(i as int)), idx),
            decreases people.len() - i,
        {
            let ghost ids = ids_of(people@.take(i as int));
            assert(people@.take(i + 1).drop_last() =~= people@.take(i as int));
            match people[i].id {
                Some(id) => {
                    proof {
                        lemma_loaded_nodes_dom(ids, idx);
                        idx.unique_seq_to_set();
                    }
                    let n = sg_add_node(&mut g, u32_to_string(id));
                    node_map.insert(id, n);
                    proof {
                        assert(!idx.contains(n));
                        let nidx = idx.push(n);
                        assert(nidx.drop_last() =~= idx);
                        assert(people@.take(i + 1).last() == people@[i as int]);
                        assert(ids_of(people@.take(i + 1)) == ids.push(id));
                        assert(ids.push(id).drop_last() =~= ids);
                        idx = nidx;
                    }
                },
                None => {
                    assert(people@.take(i + 1).last() == people@[i as int]);
                    assert(ids_of(people@.take(i + 1)) == ids);
                },
            }
            i = i + 1;
        }
        assert(people@.take(people.len() as int) =~= people@);
        let r = FamilyGraph { graph: g, node_map };
        proof {
            let ids = ids_of(people@);
            lemma_loaded_nodes_dom(ids, idx);
            assert(r.structure().nodes.dom().finite());
            assert(r.structure().edges.dom() =~= Set::<u32>::empty());
            assert(r.structure().wf());
        }
        r
    }

    /// The id in the label of node `n`, if it is a node with a number label.
    pub open spec fn node_index_id_spec(&self, n: u32) -> Option<u32> {
        if self.structure().nodes.contains_key(n) {
            parse_u32_spec(self.structure().label(n))
        } else {
            None
        }
    }

    /// The person id that node `n` is labelled with: the label parsed as a
    /// `u32`, or `None` when there is no such node or its label is no number.
    pub fn node_index_id(&self, n: u32) -> (r: Option<u32>)
        ensures
            r == self.node_index_id_spec(n),
    {
        match sg_node_label(&self.graph, n) {
            Some(label) => parse_u32(label.as_str()),
            None => None,
        }
    }
}

/// Every link names two ids of `ids` whose nodes are in `v`.
pub open spec fn links_resolve(v: GraphView, ids: Map<u32, u32>, links: Seq<Link>) -> bool {
    forall|i: int| #![trigger links[i]] 0 <= i < links.len() ==> {
        &&& ids.contains_key(links[i].id_src)
        &&& ids.contains_key(links[i].id_tgt)
        &&& v.nodes.contains_key(ids[links[i].id_src])
        &&& v.nodes.contains_key(ids[links[i].id_tgt])
    }
}

/// `v` with the edge of each link added in turn at index `added[k]`, from the
/// node of its source id to the node of its target id, labelled with its
/// relation.
pub open spec fn with_links(v: GraphView, ids: Map<u32, u32>, links: Seq<Link>, added: Seq<u32>) -> GraphView
    decreases links.len(),
{
    if links.len() == 0 || added.len() != links.len() {
        v
    } else {
        with_links(v, ids, links.drop_last(), added.drop_last()).with_edge(
            added.last(),
            ids[links.last().id_src],
            ids[links.last().id_tgt],
            links.last().relation@,
        )
    }
}

/// The id written in the label of node `n` (meaningful where it parses).
pub open spec fn label_id(v: GraphView, n: u32) -> u32 {
    parse_u32_spec(v.label(n))->0
}

/// Removing the selected edges `sel` in turn: the graph after, and the
/// deletion path `/person/{src}/{relation}/{tgt}` of each edge that was
/// still there, from the ids in the labels of its ends and the segment of its
/// relation label.
pub open spec fn after_edge_removals(v: GraphView, sel: Seq<u32>) -> (GraphView, Seq<Seq<char>>)
    decreases sel.len(),
{
    if sel.len() == 0 {
        (v, Seq::empty())
    } else {
        let (w, paths) = after_edge_removals(v, sel.drop_last());
        let e = sel.last();
        if w.edges.contains_key(e) {
            (
                w.without_edge(e),
                paths.push(relation_path_spec(
                    label_id(w, w.edges[e].0),
                    relation_segment_spec(w.edges[e].2),
                    label_id(w, w.edges[e].1),
                )),
            )
        } else {
            (w, paths)
        }
    }
}

/// Removing the selected nodes `sel` in turn: the graph after, and the
/// deletion path of each, from the id in its label.
pub open spec fn after_node_removals(v: GraphView, sel: Seq<u32>) -> (GraphView, Seq<Seq<char>>)
    decreases sel.len(),
{
    if sel.len() == 0 {
        (v, Seq::empty())
    } else {
        let (w, paths) = after_node_removals(v, sel.drop_last());
        let n = sel.last();
        (w.without_node(n), paths.push(person_path_spec(label_id(w, n))))
    }
}

/// The labels of the nodes parse as ids wherever the edges and nodes
/// selected for deletion need them to, and the node selection names distinct
/// nodes of the graph.
pub open spec fn deletable(v: GraphView, edge_sel: Seq<u32>, node_sel: Seq<u32>) -> bool {
    &&& forall|i: int| #![trigger edge_sel[i]] 0 <= i < edge_sel.len() && v.edges.contains_key(edge_sel[i]) ==> {
        &&& parse_u32_spec(v.label(v.edges[edge_sel[i]].0)) is Some
        &&& parse_u32_spec(v.label(v.edges[edge_sel[i]].1)) is Some
    }
    &&& node_sel.no_duplicates()
    &&& forall|i: int| #![trigger node_sel[i]] 0 <= i < node_sel.len() ==> {
        &&& v.nodes.contains_key(node_sel[i])
        &&& parse_u32_spec(v.label(node_sel[i])) is Some
    }
}

impl FamilyGraph {
    /// How many edges the graph holds.
    pub fn edge_count(&self) -> (r: usize)
        ensures
            r == self.structure().edges.len(),
    {
        sg_edge_count(&self.graph)
    }

    /// The node of person `id`, if the map has one.
    pub fn node_of(&self, id: u32) -> (r: Option<u32>)
        ensures
            r == (if self.ids().contains_key(id) { Some(self.ids()[id]) } else { None }),
    {
        match self.node_map.get(&id) {
            Some(n) => Some(*n),
            None => None,
        }
    }

    /// Whether `n` is a node of the graph.
    pub fn contains_node(&self, n: u32) -> (r: bool)
        ensures
            r == self.structure().nodes.contains_key(n),
    {
        sg_node_label(&self.graph, n).is_some()
    }

    /// Whether every link names two ids whose nodes are in the graph, as
    /// `add_links` needs.
    pub fn links_resolve(&self, links: &Vec<Link>) -> (r: bool)
        ensures
            r == links_resolve(self.structure(), self.ids(), links@),
    {
        let mut i: usize = 0;
        while i < links.len()
            invariant
                i <= links.len(),
                forall|k: int| #![trigger links@[k]] 0 <= k < i ==> {
                    &&& self.ids().contains_key(links@[k].id_src)
                    &&& self.ids().contains_key(links@[k].id_tgt)
                    &&& self.structure().nodes.contains_key(self.ids()[links@[k].id_src])
                    &&& self.structure().nodes.contains_key(self.ids()[links@[k].id_tgt])
                },
            decreases links.len() - i,
        {
            let a = self.node_of(links[i].id_src);
            let b = self.node_of(links[i].id_tgt);
            match (a, b) {
                (Some(a), Some(b)) => {
                    if !self.contains_node(a) || !self.contains_node(b) {
                        return false;
                    }
                },
                _ => {
                    return false;
                },
            }
            i = i + 1;
        }
        true
    }

    /// Adds the edge of each link, in order: from the node of its source id
    /// to the node of its target id, labelled with its relation. Returns the
    /// new edge indices.
    pub fn add_links(&mut self, links: &Vec<Link>) -> (added: Vec<u32>)
        requires
            old(self).wf(),
            links_resolve(old(self).structure(), old(self).ids(), links@),
            old(self).structure().edges.len() + links.len() < u32::MAX,
        ensures
            final(self).wf(),
            final(self).ids() == old(self).ids(),
            added@.len() == links@.len(),
            added@.no_duplicates(),
            forall|k: int| 0 <= k < added@.len() ==> !old(self).structure().edges.contains_key(#[trigger] added@[k]),
            final(self).structure() == with_links(old(self).structure(), old(self).ids(), links@, added@),
    {
        let ghost v0 = self.structure();
        let ghost ids = self.ids();
        let mut added: Vec<u32> = Vec::new();
        let mut i: usize = 0;
        assert(links@.take(0) =~= Seq::<Link>::empty());
        while i < links.len()
            invariant
                i <= links.len(),
                v0.wf(),
                v0.edges.len() + links.len() < u32::MAX,
                links_resolve(v0, ids, links@),
                self.ids() == ids,
                self.wf(),
                added@.len() == i,
                added@.no_duplicates(),
                forall|k: int| 0 <= k < i ==> !v0.edges.contains_key(#[trigger] added@[k]),
                forall|k: int| 0 <= k < i ==> self.structure().edges.contains_key(#[trigger] added@[k]),
                self.structure().nodes.dom() == v0.nodes.dom(),
                forall|x: u32| v0.edges.contains_key(x) ==> #[trigger] self.structure().edges.contains_key(x),
                self.structure().edges.len() == v0.edges.len() + i,
                self.structure() == with_links(v0, ids, links@.take(i as int), added@),
            decreases links.len() - i,
        {
            let ghost before = self.structure();
            let l = &links[i];
            let a = *self.node_map.get(&l.id_src).unwrap();
            let b = *self.node_map.get(&l.id_tgt).unwrap();
            let e = sg_add_edge(&mut self.graph, a, b, l.relation.clone());
            proof {
                lemma_with_edge_wf(before, e, a, b, l.relation@);
                assert(self.structure().nodes.dom() =~= v0.nodes.dom());
                let t = links@.take(i + 1);
                assert(t.drop_last() =~= links@.take(i as int));
                assert(t.last() == links@[i as int]);
                let na = added@.push(e);
                assert(na.drop_last() =~= added@);
                assert forall|k: int| 0 <= k < i + 1 implies !v0.edges.contains_key(#[trigger] na[k]) by {
                    if k == i {
                        assert(na[k] == e);
                        if v0.edges.contains_key(e) {
                            assert(before.edges.contains_key(e));
                        }
                    }
                }
            }
            added.push(e);
            i = i + 1;
        }
        assert(links@.take(links.len() as int) =~= links@);
        added
    }

    /// Adds an edge labelled `relation` from the node of person `src_id` to
    /// the node of person `tgt_id`. Returns the new edge index.
    pub fn add_link(&mut self, src_id: u32, tgt_id: u32, relation: String) -> (e: u32)
        requires
            old(self).wf(),
            old(self).ids().contains_key(src_id),
            old(self).ids().contains_key(tgt_id),
            old(self).structure().nodes.contains_key(old(self).ids()[src_id]),
            old(self).structure().nodes.contains_key(old(self).ids()[tgt_id]),
            old(self).structure().edges.len() < u32::MAX,
        ensures
            final(self).wf(),
            final(self).ids() == old(self).ids(),
            !old(self).structure().edges.contains_key(e),
            final(self).structure() == old(self).structure().with_edge(
                e,
                old(self).ids()[src_id],
                old(self).ids()[tgt_id],
                relation@,
            ),
    {
        let a = *self.node_map.get(&src_id).unwrap();
        let b = *self.node_map.get(&tgt_id).unwrap();
        let ghost before = self.structure();
        let ghost label = relation@;
        let e = sg_add_edge(&mut self.graph, a, b, relation);
        proof {
            lemma_with_edge_wf(before, e, a, b, label);
        }
        e
    }

    /// Adds a `PARENT_OF` edge from the node of person `src_id` to the node of
    /// person `tgt_id`. Returns the new edge index.
    pub fn add_parent_link(&mut self, src_id: u32, tgt_id: u32) -> (e: u32)
        requires
            old(self).wf(),
            old(self).ids().contains_key(src_id),
            old(self).ids().contains_key(tgt_id),
            old(self).structure().nodes.contains_key(old(self).ids()[src_id]),
            old(self).structure().nodes.contains_key(old(self).ids()[tgt_id]),
            old(self).structure().edges.len() < u32::MAX,
        ensures
            final(self).wf(),
            final(self).ids() == old(self).ids(),
            !old(self).structure().edges.contains_key(e),
            final(self).structure() == old(self).structure().with_edge(
                e,
                old(self).ids()[src_id],
                old(self).ids()[tgt_id],
                "PARENT_OF"@,
            ),
    {
        self.add_link(src_id, tgt_id, String::from_str("PARENT_OF"))
    }
}

/// Removing edges keeps every node and its label, and only takes edges away.
pub proof fn lemma_after_edge_removals_keeps_nodes(v: GraphView, sel: Seq<u32>)
    requires
        v.wf(),
    ensures
        after_edge_removals(v, sel).0.wf(),
        after_edge_removals(v, sel).0.nodes.dom() == v.nodes.dom(),
        forall|n: u32| #[trigger] v.nodes.contains_key(n)
            ==> after_edge_removals(v, sel).0.nodes[n].0 == v.nodes[n].0,
        forall|e: u32| #[trigger] after_edge_removals(v, sel).0.edges.contains_key(e) ==> {
            &&& v.edges.contains_key(e)
            &&& after_edge_removals(v, sel).0.edges[e] == v.edges[e]
        },
    decreases sel.len(),
{
    if sel.len() > 0 {
        lemma_after_edge_removals_keeps_nodes(v, sel.drop_last());
        let w = after_edge_removals(v, sel.drop_last()).0;
        let e = sel.last();
        if w.edges.contains_key(e) {
            lemma_without_edge_wf(w, e);
            assert(w.without_edge(e).nodes.dom() =~= w.nodes.dom());
        }
    }
}

impl FamilyGraph {
    /// Deletes the selected edges, then the selected nodes (each with the
    /// edges that touch it), in order. Returns the server paths to delete:
    /// `/person/{src}/{relation}/{tgt}` for each selected edge that was still
    /// there (`child` for a `PARENT_OF` edge, `cousin` for a `COUSIN_OF`
    /// edge), then `/person/{id}` for each selected node, the ids read from
    /// the node labels.
    pub fn delete_selection(&mut self, edge_sel: &Vec<u32>, node_sel: &Vec<u32>) -> (paths: Vec<String>)
        requires
            old(self).wf(),
            deletable(old(self).structure(), edge_sel@, node_sel@),
        ensures
            final(self).wf(),
            final(self).ids() == old(self).ids(),
            ({
                let (w, edge_paths) = after_edge_removals(old(self).structure(), edge_sel@);
                let (x, node_paths) = after_node_removals(w, node_sel@);
                &&& final(self).structure() == x
                &&& paths@.map_values(|p: String| p@) == edge_paths + node_paths
            }),
    {
        let ghost v0 = self.structure();
        let mut paths: Vec<String> = Vec::new();
        let mut i: usize = 0;
        assert(edge_sel@.take(0) =~= Seq::<u32>::empty());
        assert(paths@.map_values(|p: String| p@) =~= Seq::<Seq<char>>::empty());
        while i < edge_sel.len()
            invariant
                i <= edge_sel.len(),
                v0.wf(),
                deletable(v0, edge_sel@, node_sel@),
                self.ids() == old(self).ids(),
                self.structure() == after_edge_removals(v0, edge_sel@.take(i as int)).0,
                paths@.map_values(|p: String| p@) == after_edge_removals(v0, edge_sel@.take(i as int)).1,
            decreases edge_sel.len() - i,
        {
            let ghost t = edge_sel@.take(i as int);
            let ghost w = self.structure();
            let e = edge_sel[i];
            proof {
                lemma_after_edge_removals_keeps_nodes(v0, t);
                assert(edge_sel@.take(i + 1).drop_last() =~= t);
                assert(edge_sel@.take(i + 1).last() == e);
            }
            match sg_edge_endpoints(&self.graph, e) {
                Some((a, b)) => {
                    proof {
                        assert(v0.edges.contains_key(e));
                        assert(edge_sel@[i as int] == e);
                    }
                    let id_a = self.node_index_id(a).unwrap();
                    let id_b = self.node_index_id(b).unwrap();
                    let label = sg_edge_label(&self.graph, e).unwrap();
                    let segment = relation_segment(&label);
                    let path = relation_path(id_a, segment.as_str(), id_b);
                    let ghost before = paths@.map_values(|p: String| p@);
                    paths.push(path);
                    assert(paths@.map_values(|p: String| p@) =~= before.push(
                        relation_path_spec(id_a, relation_segment_spec(w.edges[e].2), id_b),
                    ));
                },
                None => {},
            }
            sg_remove_edge(&mut self.graph, e);
            i = i + 1;
        }
        assert(edge_sel@.take(edge_sel.len() as int) =~= edge_sel@);
        proof {
            lemma_after_edge_removals_keeps_nodes(v0, edge_sel@);
        }
        let ghost w0 = self.structure();
        let ghost edge_paths = paths@.map_values(|p: String| p@);
        let mut j: usize = 0;
        assert(node_sel@.take(0) =~= Seq::<u32>::empty());
        assert(edge_paths + after_node_removals(w0, node_sel@.take(0)).1 =~= edge_paths);
        while j < node_sel.len()
            invariant
                j <= node_sel.len(),
                w0.wf(),
                w0.nodes.dom() == v0.nodes.dom(),
                forall|n: u32| #[trigger] v0.nodes.contains_key(n) ==> w0.nodes[n].0 == v0.nodes[n].0,
                deletable(v0, edge_sel@, node_sel@),
                self.ids() == old(self).ids(),
                self.wf(),
                self.structure() == after_node_removals(w0, node_sel@.take(j as int)).0,
                forall|k: int| #![trigger node_sel@[k]] j <= k < node_sel.len() ==> {
                    &&& self.structure().nodes.contains_key(node_sel@[k])
                    &&& self.structure().nodes[node_sel@[k]].0 == v0.nodes[node_sel@[k]].0
                },
                paths@.map_values(|p: String| p@) == edge_paths + after_node_removals(w0, node_sel@.take(j as int)).1,
            decreases node_sel.len() - j,
        {
            let ghost t = node_sel@.take(j as int);
            let ghost w = self.structure();
            let n = node_sel[j];
            proof {
                assert(node_sel@.take(j + 1).drop_last() =~= t);
                assert(node_sel@.take(j + 1).last() == n);
                assert(node_sel@[j as int] == n);
            }
            let id = self.node_index_id(n).unwrap();
            let path = person_path(id);
            let ghost before = paths@.map_values(|p: String| p@);
            paths.push(path);
            assert(paths@.map_values(|p: String| p@) =~= before.push(person_path_spec(id)));
            sg_remove_node(&mut self.graph, n);
            proof {
                lemma_without_node_wf(w, n);
                let nt = after_node_removals(w0, node_sel@.take(j + 1)).1;
                assert(nt == after_node_removals(w0, t).1.push(person_path_spec(id)));
                assert(edge_paths + nt =~= (edge_paths + after_node_removals(w0, t).1).push(person_path_spec(id)));
                assert forall|k: int| #![trigger node_sel@[k]] j + 1 <= k < node_sel.len() implies {
                    &&& self.structure().nodes.contains_key(node_sel@[k])
                    &&& self.structure().nodes[node_sel@[k]].0 == v0.nodes[node_sel@[k]].0
                } by {
                    assert(node_sel@[k] != node_sel@[j as int]);
                }
            }
            j = j + 1;
        }
        assert(node_sel@.take(node_sel.len() as int) =~= node_sel@);
        paths
    }
}

/// Loading people gives one node per person with an id; the map covers
/// exactly the loaded ids, and the node of each id carries a label that
/// reads back as that id.
pub proof fn law_loaded_ids_resolve(people: Seq<Person>, idx: Seq<u32>)
    requires
        idx.len() == ids_of(people).len(),
        idx.no_duplicates(),
    ensures
        loaded_nodes(ids_of(people), idx).len() == ids_of(people).len(),
        forall|id: u32| #[trigger] id_index_map(ids_of(people), idx).contains_key(id) <==> ids_of(people).contains(id),
        forall|id: u32| #[trigger] id_index_map(ids_of(people), idx).contains_key(id) ==> {
            let n = id_index_map(ids_of(people), idx)[id];
            &&& loaded_nodes(ids_of(people), idx).contains_key(n)
            &&& parse_u32_spec(loaded_nodes(ids_of(people), idx)[n].0) == Some(id)
        },
{
    let ids = ids_of(people);
    lemma_loaded_ids_point_at_labels(ids, idx);
    lemma_loaded_nodes_dom(ids, idx);
    idx.unique_seq_to_set();
    assert forall|id: u32| #[trigger] id_index_map(ids, idx).contains_key(id) implies {
        let n = id_index_map(ids, idx)[id];
        &&& loaded_nodes(ids, idx).contains_key(n)
        &&& parse_u32_spec(loaded_nodes(ids, idx)[n].0) == Some(id)
    } by {
        lemma_parse_decimal(id);
    }
}

/// Removing edges and nodes never adds any.
proof fn lemma_removals_shrink(v: GraphView, edge_sel: Seq<u32>, node_sel: Seq<u32>)
    requires
        v.wf(),
    ensures
        forall|e: u32| #[trigger] after_edge_removals(v, edge_sel).0.edges.contains_key(e) ==> v.edges.contains_key(e),
        after_edge_removals(v, edge_sel).0.nodes.dom().subset_of(v.nodes.dom()),
        forall|e: u32| #[trigger] after_node_removals(v, node_sel).0.edges.contains_key(e) ==> v.edges.contains_key(e),
        after_node_removals(v, node_sel).0.nodes.dom().subset_of(v.nodes.dom()),
    decreases edge_sel.len() + node_sel.len(),
{
    lemma_after_edge_removals_keeps_nodes(v, edge_sel);
    if node_sel.len() > 0 {
        lemma_removals_shrink(v, Seq::empty(), node_sel.drop_last());
    }
}

/// After deleting a selection, none of the selected edges and none of the
/// selected nodes is left.
pub proof fn law_deleted_are_gone(v: GraphView, edge_sel: Seq<u32>, node_sel: Seq<u32>)
    requires
        v.wf(),
    ensures
        forall|i: int| 0 <= i < edge_sel.len()
            ==> !after_edge_removals(v, edge_sel).0.edges.contains_key(#[trigger] edge_sel[i]),
        forall|i: int| 0 <= i < node_sel.len()
            ==> !after_node_removals(after_edge_removals(v, edge_sel).0, node_sel).0.nodes.contains_key(#[trigger] node_sel[i]),
        forall|i: int| 0 <= i < edge_sel.len()
            ==> !after_node_removals(after_edge_removals(v, edge_sel).0, node_sel).0.edges.contains_key(#[trigger] edge_sel[i]),
    decreases edge_sel.len() + node_sel.len(),
{
    let w = after_edge_removals(v, edge_sel).0;
    if edge_sel.len() > 0 {
        let d = edge_sel.drop_last();
        law_deleted_are_gone(v, d, Seq::empty());
        let w0 = after_edge_removals(v, d).0;
        let e = edge_sel.last();
        assert forall|i: int| 0 <= i < edge_sel.len() implies !w.edges.contains_key(#[trigger] edge_sel[i]) by {
            if i < edge_sel.len() - 1 {
                assert(edge_sel[i] == d[i]);
                assert(!w0.edges.contains_key(d[i]));
            }
        }
    }
    if node_sel.len() > 0 {
        let d = node_sel.drop_last();
        law_deleted_are_gone(v, edge_sel, d);
        let x0 = after_node_removals(w, d).0;
        let n = node_sel.last();
        lemma_after_edge_removals_keeps_nodes(v, edge_sel);
        lemma_removals_shrink(w, Seq::empty(), node_sel);
        assert forall|i: int| 0 <= i < node_sel.len()
            implies !after_node_removals(w, node_sel).0.nodes.contains_key(#[trigger] node_sel[i]) by {
            if i < node_sel.len() - 1 {
                assert(node_sel[i] == d[i]);
                assert(!x0.nodes.contains_key(d[i]));
            }
        }
    } else {
        lemma_after_edge_removals_keeps_nodes(v, edge_sel);
        lemma_removals_shrink(w, Seq::empty(), node_sel);
    }
}

impl FamilyGraph {
    /// Whether `delete_selection` can run on this selection: the ends of
    /// each selected edge carry id labels, and the selected nodes are
    /// distinct nodes with id labels.
    pub fn can_delete(&self, edge_sel: &Vec<u32>, node_sel: &Vec<u32>) -> (r: bool)
        requires
            self.wf(),
        ensures
            r == deletable(self.structure(), edge_sel@, node_sel@),
    {
        let ghost v = self.structure();
        let mut i: usize = 0;
        while i < edge_sel.len()
            invariant
                v == self.structure(),
                v.wf(),
                i <= edge_sel.len(),
                forall|k: int| #![trigger edge_sel@[k]] 0 <= k < i && v.edges.contains_key(edge_sel@[k]) ==> {
                    &&& parse_u32_spec(v.label(v.edges[edge_sel@[k]].0)) is Some
                    &&& parse_u32_spec(v.label(v.edges[edge_sel@[k]].1)) is Some
                },
            decreases edge_sel.len() - i,
        {
            let e = edge_sel[i];
            match sg_edge_endpoints(&self.graph, e) {
                Some((a, b)) => {
                    if self.node_index_id(a).is_none() || self.node_index_id(b).is_none() {
                        assert(edge_sel@[i as int] == e);
                        return false;
                    }
                },
                None => {},
            }
            i = i + 1;
        }
        let mut j: usize = 0;
        while j < node_sel.len()
            invariant
                v == self.structure(),
                j <= node_sel.len(),
                forall|k: int| #![trigger node_sel@[k]] 0 <= k < j ==> {
                    &&& v.nodes.contains_key(node_sel@[k])
                    &&& parse_u32_spec(v.label(node_sel@[k])) is Some
                },
                forall|k: int, l: int| 0 <= k < l < j ==> node_sel@[k] != node_sel@[l],
            decreases node_sel.len() - j,
        {
            let n = node_sel[j];
            if self.node_index_id(n).is_none() {
                assert(node_sel@[j as int] == n);
                return false;
            }
            let mut k: usize = 0;
            while k < j
                invariant
                    j < node_sel.len(),
                    n == node_sel@[j as int],
                    k <= j,
                    forall|m: int| 0 <= m < k ==> node_sel@[m] != n,
                decreases j - k,
            {
                if node_sel[k] == n {
                    assert(!node_sel@.no_duplicates());
                    return false;
                }
                k = k + 1;
            }
            j = j + 1;
        }
        true
    }
}

/// Adding the edges of resolvable links at fresh, distinct indices keeps
/// every node and its label, keeps every old edge, and gives each link one
/// edge from the node of its source id to the node of its target id,
/// labelled with its relation.
pub proof fn law_links_become_edges(v: GraphView, ids: Map<u32, u32>, links: Seq<Link>, added: Seq<u32>)
    requires
        v.wf(),
        links_resolve(v, ids, links),
        added.len() == links.len(),
        added.no_duplicates(),
        forall|k: int| 0 <= k < added.len() ==> !v.edges.contains_key(#[trigger] added[k]),
    ensures
        with_links(v, ids, links, added).wf(),
        with_links(v, ids, links, added).nodes.dom() == v.nodes.dom(),
        forall|n: u32| #[trigger] v.nodes.contains_key(n) ==> with_links(v, ids, links, added).nodes[n].0 == v.nodes[n].0,
        forall|e: u32| #[trigger] with_links(v, ids, links, added).edges.contains_key(e)
            <==> (v.edges.contains_key(e) || added.contains(e)),
        forall|e: u32| #[trigger] v.edges.contains_key(e) ==> with_links(v, ids, links, added).edges[e] == v.edges[e],
        forall|k: int| 0 <= k < links.len() ==> with_links(v, ids, links, added).edges[#[trigger] added[k]]
            == (ids[links[k].id_src], ids[links[k].id_tgt], links[k].relation@),
    decreases links.len(),
{
    if links.len() > 0 {
        let (pl, pa) = (links.drop_last(), added.drop_last());
        assert(pa.no_duplicates());
        assert forall|i: int| 0 <= i < pl.len() implies {
            &&& ids.contains_key(#[trigger] pl[i].id_src)
            &&& ids.contains_key(pl[i].id_tgt)
            &&& v.nodes.contains_key(ids[pl[i].id_src])
            &&& v.nodes.contains_key(ids[pl[i].id_tgt])
        } by {
            assert(pl[i] == links[i]);
        }
        law_links_become_edges(v, ids, pl, pa);
        let w = with_links(v, ids, pl, pa);
        let l = links.last();
        let e = added.last();
        assert(links[links.len() - 1] == l);
        assert(!w.edges.contains_key(e)) by {
            if w.edges.contains_key(e) {
                if pa.contains(e) {
                    let k = choose|k: int| 0 <= k < pa.len() && pa[k] == e;
                    assert(added[k] == added[added.len() - 1]);
                }
            }
        }
        lemma_with_edge_wf(w, e, ids[l.id_src], ids[l.id_tgt], l.relation@);
        let r = with_links(v, ids, links, added);
        assert(r == w.with_edge(e, ids[l.id_src], ids[l.id_tgt], l.relation@));
        assert(r.nodes.dom() =~= v.nodes.dom());
        assert forall|x: u32| #[trigger] r.edges.contains_key(x) <==> (v.edges.contains_key(x) || added.contains(x)) by {
            if added.contains(x) && x != e {
                let k = choose|k: int| 0 <= k < added.len() && added[k] == x;
                assert(pa[k] == x);
            }
            if pa.contains(x) {
                let k = choose|k: int| 0 <= k < pa.len() && pa[k] == x;
                assert(added[k] == x);
            }
        }
        assert forall|k: int| 0 <= k < links.len() implies r.edges[#[trigger] added[k]]
            == (ids[links[k].id_src], ids[links[k].id_tgt], links[k].relation@) by {
            if k < links.len() - 1 {
                assert(added[k] == pa[k] && links[k] == pl[k]);
                assert(added[k] != e);
            }
        }
        assert forall|x: u32| #[trigger] v.edges.contains_key(x) implies r.edges[x] == v.edges[x] by {
            assert(x != e);
        }
    } else {
        assert forall|x: u32| #[trigger] with_links(v, ids, links, added).edges.contains_key(x)
            <==> (v.edges.contains_key(x) || added.contains(x)) by {
            if added.contains(x) {
                let k = choose|k: int| 0 <= k < added.len() && added[k] == x;
            }
        }
    }
}

/// Loading people and then links whose ids are all ids of those people: every
/// link resolves; the nodes are the loaded ones, the node of each id still
/// reads back as that id, and each link gives one edge from the node of its
/// source id to the node of its target id, labelled with its relation, and
/// no other edge is there.
pub proof fn law_people_then_links(people: Seq<Person>, idx: Seq<u32>, links: Seq<Link>, added: Seq<u32>)
    requires
        idx.len() == ids_of(people).len(),
        idx.no_duplicates(),
        forall|k: int| #![trigger links[k]] 0 <= k < links.len()
            ==> ids_of(people).contains(links[k].id_src) && ids_of(people).contains(links[k].id_tgt),
        added.len() == links.len(),
        added.no_duplicates(),
    ensures
        ({
            let ids = ids_of(people);
            let m = id_index_map(ids, idx);
            let v = GraphView { nodes: loaded_nodes(ids, idx), edges: EdgeMap::empty() };
            let w = with_links(v, m, links, added);
            &&& links_resolve(v, m, links)
            &&& w.wf()
            &&& w.nodes.dom() == idx.to_set()
            &&& forall|id: u32| #[trigger] m.contains_key(id) <==> ids.contains(id)
            &&& forall|id: u32| #[trigger] m.contains_key(id) ==> parse_u32_spec(w.nodes[m[id]].0) == Some(id)
            &&& forall|e: u32| #[trigger] w.edges.contains_key(e) <==> added.contains(e)
            &&& forall|k: int| 0 <= k < links.len() ==> w.edges[#[trigger] added[k]]
                == (m[links[k].id_src], m[links[k].id_tgt], links[k].relation@)
        }),
{
    let ids = ids_of(people);
    let m = id_index_map(ids, idx);
    let v = GraphView { nodes: loaded_nodes(ids, idx), edges: EdgeMap::empty() };
    lemma_loaded_nodes_dom(ids, idx);
    lemma_loaded_ids_point_at_labels(ids, idx);
    law_loaded_ids_resolve(people, idx);
    assert(v.wf());
    assert forall|i: int| #![trigger links[i]] 0 <= i < links.len() implies {
        &&& m.contains_key(links[i].id_src)
        &&& m.contains_key(links[i].id_tgt)
        &&& v.nodes.contains_key(m[links[i].id_src])
        &&& v.nodes.contains_key(m[links[i].id_tgt])
    } by {
        assert(m.contains_key(links[i].id_src));
        assert(m.contains_key(links[i].id_tgt));
    }
    law_links_become_edges(v, m, links, added);
}

/// `p` is the deletion path of edge `e` of `v`: it names the ids read from
/// the labels of the edge's source and target, and the segment of its
/// relation.
#[verifier::opaque]
pub open spec fn deletes_edge(v: GraphView, e: u32, p: Seq<char>) -> bool {
    names_relation(p, label_id(v, v.edges[e].0), relation_segment_spec(v.edges[e].2), label_id(v, v.edges[e].1))
}

/// An edge of `v` that removing `sel` takes out is one of `sel`.
proof fn lemma_removed_edges_selected(v: GraphView, sel: Seq<u32>, e: u32)
    requires
        v.edges.contains_key(e),
        !after_edge_removals(v, sel).0.edges.contains_key(e),
    ensures
        sel.contains(e),
    decreases sel.len(),
{
    if sel.len() > 0 {
        let d = sel.drop_last();
        let w = after_edge_removals(v, d).0;
        if e != sel.last() {
            if w.edges.contains_key(e) {
                assert(after_edge_removals(v, sel).0.edges.contains_key(e));
            }
            lemma_removed_edges_selected(v, d, e);
            let k = choose|k: int| 0 <= k < d.len() && d[k] == e;
            assert(sel[k] == e);
        } else {
            assert(sel[sel.len() - 1] == e);
        }
    }
}

/// One step of removing selected edges: when the last selected edge is still
/// there, one path is added, and it is that edge's deletion path; otherwise
/// nothing is added.
proof fn lemma_edge_deletion_step(v: GraphView, sel: Seq<u32>)
    requires
        v.wf(),
        sel.len() > 0,
        v.edges.contains_key(sel.last()) ==> {
            &&& parse_u32_spec(v.label(v.edges[sel.last()].0)) is Some
            &&& parse_u32_spec(v.label(v.edges[sel.last()].1)) is Some
        },
    ensures
        ({
            let (w, ps) = after_edge_removals(v, sel.drop_last());
            let paths = after_edge_removals(v, sel).1;
            &&& w.edges.contains_key(sel.last()) ==> {
                &&& v.edges.contains_key(sel.last())
                &&& paths == ps.push(paths.last())
                &&& deletes_edge(v, sel.last(), paths.last())
            }
            &&& !w.edges.contains_key(sel.last()) ==> paths == ps
        }),
{
    let d = sel.drop_last();
    lemma_after_edge_removals_keeps_nodes(v, d);
    let (w, ps) = after_edge_removals(v, d);
    let e = sel.last();
    if w.edges.contains_key(e) {
        let (a, b) = (w.edges[e].0, w.edges[e].1);
        assert(w.edges[e] == v.edges[e]);
        assert(v.nodes.contains_key(a) && v.nodes.contains_key(b));
        let p = relation_path_spec(label_id(w, a), relation_segment_spec(w.edges[e].2), label_id(w, b));
        assert(after_edge_removals(v, sel).1 == ps.push(p));
        law_relation_path_names_people(label_id(w, a), relation_segment_spec(w.edges[e].2), label_id(w, b));
        assert(label_id(w, a) == label_id(v, a) && label_id(w, b) == label_id(v, b));
        assert(deletes_edge(v, e, p)) by {
            reveal(deletes_edge);
        }
    }
}

/// Each edge deletion path names the ids in the labels of the source and
/// target of a selected edge of the graph, and the segment of its relation;
/// there are no more paths than selected edges.
#[verifier::spinoff_prover]
proof fn lemma_edge_paths_sound(v: GraphView, sel: Seq<u32>)
    requires
        v.wf(),
        forall|i: int| #![trigger sel[i]] 0 <= i < sel.len() && v.edges.contains_key(sel[i]) ==> {
            &&& parse_u32_spec(v.label(v.edges[sel[i]].0)) is Some
            &&& parse_u32_spec(v.label(v.edges[sel[i]].1)) is Some
        },
    ensures
        after_edge_removals(v, sel).1.len() <= sel.len(),
        forall|p: Seq<char>| #[trigger] after_edge_removals(v, sel).1.contains(p)
            ==> exists|j: int| 0 <= j < sel.len() && v.edges.contains_key(sel[j])
                && #[trigger] deletes_edge(v, sel[j], p),
    decreases sel.len(),
{
    if sel.len() > 0 {
        let d = sel.drop_last();
        assert forall|i: int| #![trigger d[i]] 0 <= i < d.len() && v.edges.contains_key(d[i]) implies {
            &&& parse_u32_spec(v.label(v.edges[d[i]].0)) is Some
            &&& parse_u32_spec(v.label(v.edges[d[i]].1)) is Some
        } by {
            assert(d[i] == sel[i]);
        }
        lemma_edge_paths_sound(v, d);
        assert(sel[sel.len() - 1] == sel.last());
        lemma_edge_deletion_step(v, sel);
        let ps = after_edge_removals(v, d).1;
        let paths = after_edge_removals(v, sel).1;
        let last = sel.len() - 1;
        assert forall|p: Seq<char>| #[trigger] paths.contains(p)
            implies exists|j: int| 0 <= j < sel.len() && v.edges.contains_key(sel[j])
                && #[trigger] deletes_edge(v, sel[j], p) by {
            let k = choose|k: int| 0 <= k < paths.len() && paths[k] == p;
            if k < ps.len() {
                assert(paths[k] == ps[k]);
                assert(ps.contains(p));
                let j = choose|j: int| 0 <= j < d.len() && v.edges.contains_key(d[j])
                    && #[trigger] deletes_edge(v, d[j], p);
                assert(sel[j] == d[j]);
            } else {
                assert(deletes_edge(v, sel[last], p));
            }
        }
    }
}

/// Every selected edge of the graph gets a deletion path that names the ids
/// in the labels of its source and target, and the segment of its relation.
#[verifier::spinoff_prover]
proof fn lemma_edge_paths_complete(v: GraphView, sel: Seq<u32>)
    requires
        v.wf(),
        forall|i: int| #![trigger sel[i]] 0 <= i < sel.len() && v.edges.contains_key(sel[i]) ==> {
            &&& parse_u32_spec(v.label(v.edges[sel[i]].0)) is Some
            &&& parse_u32_spec(v.label(v.edges[sel[i]].1)) is Some
        },
    ensures
        forall|j: int| #![trigger sel[j]] 0 <= j < sel.len() && v.edges.contains_key(sel[j])
            ==> exists|k: int| 0 <= k < after_edge_removals(v, sel).1.len()
                && #[trigger] deletes_edge(v, sel[j], after_edge_removals(v, sel).1[k]),
    decreases sel.len(),
{
    if sel.len() > 0 {
        let d = sel.drop_last();
        assert forall|i: int| #![trigger d[i]] 0 <= i < d.len() && v.edges.contains_key(d[i]) implies {
            &&& parse_u32_spec(v.label(v.edges[d[i]].0)) is Some
            &&& parse_u32_spec(v.label(v.edges[d[i]].1)) is Some
        } by {
            assert(d[i] == sel[i]);
        }
        lemma_edge_paths_complete(v, d);
        assert(sel[sel.len() - 1] == sel.last());
        lemma_edge_deletion_step(v, sel);
        let (w, ps) = after_edge_removals(v, d);
        let paths = after_edge_removals(v, sel).1;
        let e = sel.last();
        assert forall|j: int| #![trigger sel[j]] 0 <= j < sel.len() && v.edges.contains_key(sel[j])
            implies exists|k: int| 0 <= k < paths.len() && #[trigger] deletes_edge(v, sel[j], paths[k]) by {
            if j < d.len() {
                assert(d[j] == sel[j]);
                let k = choose|k: int| 0 <= k < ps.len() && #[trigger] deletes_edge(v, d[j], ps[k]);
                assert(paths[k] == ps[k]);
            } else if w.edges.contains_key(e) {
                assert(paths[ps.len() as int] == paths.last());
            } else {
                lemma_removed_edges_selected(v, d, e);
                let j2 = choose|j2: int| 0 <= j2 < d.len() && d[j2] == e;
                assert(v.edges.contains_key(d[j2]));
                let k = choose|k: int| 0 <= k < ps.len() && #[trigger] deletes_edge(v, d[j2], ps[k]);
                assert(paths[k] == ps[k]);
            }
        }
    }
}

/// The edge deletion paths are exactly those of the selected edges: each
/// path names the ids in the labels of the source and target of a selected
/// edge of the graph, and the segment of its relation; every selected edge
/// of the graph gets such a path; there are no more paths than selected
/// edges.
pub proof fn law_edge_deletion_paths(v: GraphView, sel: Seq<u32>)
    requires
        v.wf(),
        forall|i: int| #![trigger sel[i]] 0 <= i < sel.len() && v.edges.contains_key(sel[i]) ==> {
            &&& parse_u32_spec(v.label(v.edges[sel[i]].0)) is Some
            &&& parse_u32_spec(v.label(v.edges[sel[i]].1)) is Some
        },
    ensures
        after_edge_removals(v, sel).1.len() <= sel.len(),
        forall|p: Seq<char>| #[trigger] after_edge_removals(v, sel).1.contains(p)
            ==> exists|j: int| 0 <= j < sel.len() && v.edges.contains_key(sel[j])
                && #[trigger] deletes_edge(v, sel[j], p),
        forall|j: int| #![trigger sel[j]] 0 <= j < sel.len() && v.edges.contains_key(sel[j])
            ==> exists|k: int| 0 <= k < after_edge_removals(v, sel).1.len()
                && #[trigger] deletes_edge(v, sel[j], after_edge_removals(v, sel).1[k]),
{
    lemma_edge_paths_sound(v, sel);
    lemma_edge_paths_complete(v, sel);
}

/// The ids of the people are exactly the ids that some person carries.
proof fn lemma_ids_of_people(people: Seq<Person>)
    ensures
        forall|k: int| #![trigger people[k]] 0 <= k < people.len() && people[k].id is Some
            ==> ids_of(people).contains(people[k].id->0),
        forall|id: u32| #[trigger] ids_of(people).contains(id)
            ==> exists|k: int| 0 <= k < people.len() && #[trigger] people[k].id == Some(id),
    decreases people.len(),
{
    if people.len() > 0 {
        let d = people.drop_last();
        lemma_ids_of_people(d);
        let rest = ids_of(d);
        let last = people.len() - 1;
        assert(people[last] == people.last());
        assert forall|k: int| #![trigger people[k]] 0 <= k < people.len() && people[k].id is Some
            implies ids_of(people).contains(people[k].id->0) by {
            if k < last {
                assert(people[k] == d[k]);
                let x = people[k].id->0;
                let m = choose|m: int| 0 <= m < rest.len() && rest[m] == x;
                match people.last().id {
                    Some(i) => { assert(ids_of(people)[m] == x); },
                    None => {},
                }
            } else {
                let x = people[k].id->0;
                assert(ids_of(people) == rest.push(x));
                assert(ids_of(people)[rest.len() as int] == x);
            }
        }
        assert forall|id: u32| #[trigger] ids_of(people).contains(id)
            implies exists|k: int| 0 <= k < people.len() && #[trigger] people[k].id == Some(id) by {
            let m = choose|m: int| 0 <= m < ids_of(people).len() && ids_of(people)[m] == id;
            if m < rest.len() {
                match people.last().id {
                    Some(i) => { assert(ids_of(people)[m] == rest[m]); },
                    None => {},
                }
                assert(rest.contains(id));
                let k = choose|k: int| 0 <= k < d.len() && #[trigger] d[k].id == Some(id);
                assert(people[k] == d[k]);
            } else {
                assert(people[last].id == Some(id));
            }
        }
    }
}

/// Loading people puts every id that a person carries (0 included) in the
/// id map, at a node whose label reads back as that id, and no other id.
pub proof fn law_every_person_id_loaded(people: Seq<Person>, idx: Seq<u32>)
    requires
        idx.len() == ids_of(people).len(),
        idx.no_duplicates(),
    ensures
        forall|k: int| #![trigger people[k]] 0 <= k < people.len() && people[k].id is Some ==> {
            let id = people[k].id->0;
            &&& id_index_map(ids_of(people), idx).contains_key(id)
            &&& loaded_nodes(ids_of(people), idx).contains_key(id_index_map(ids_of(people), idx)[id])
            &&& parse_u32_spec(loaded_nodes(ids_of(people), idx)[id_index_map(ids_of(people), idx)[id]].0) == Some(id)
        },
        forall|id: u32| #[trigger] id_index_map(ids_of(people), idx).contains_key(id)
            ==> exists|k: int| 0 <= k < people.len() && #[trigger] people[k].id == Some(id),
{
    lemma_ids_of_people(people);
    law_loaded_ids_resolve(people, idx);
    assert forall|k: int| #![trigger people[k]] 0 <= k < people.len() && people[k].id is Some implies {
        let id = people[k].id->0;
        &&& id_index_map(ids_of(people), idx).contains_key(id)
        &&& loaded_nodes(ids_of(people), idx).contains_key(id_index_map(ids_of(people), idx)[id])
        &&& parse_u32_spec(loaded_nodes(ids_of(people), idx)[id_index_map(ids_of(people), idx)[id]].0) == Some(id)
    } by {
        let id = people[k].id->0;
        assert(ids_of(people).contains(id));
        assert(id_index_map(ids_of(people), idx).contains_key(id));
    }
    assert forall|id: u32| #[trigger] id_index_map(ids_of(people), idx).contains_key(id)
        implies exists|k: int| 0 <= k < people.len() && #[trigger] people[k].id == Some(id) by {
        assert(ids_of(people).contains(id));
    }
}

/// Removing distinct nodes `sel` in turn gives one path per node, the `k`-th
/// that of `sel[k]` with the id in its label in `v`; nodes not selected keep
/// their labels.
proof fn lemma_node_paths(v: GraphView, sel: Seq<u32>)
    requires
        sel.no_duplicates(),
        forall|k: int| #![trigger sel[k]] 0 <= k < sel.len() ==> v.nodes.contains_key(sel[k]),
    ensures
        after_node_removals(v, sel).1.len() == sel.len(),
        forall|k: int| #![trigger after_node_removals(v, sel).1[k]] 0 <= k < sel.len()
            ==> after_node_removals(v, sel).1[k] == person_path_spec(label_id(v, sel[k])),
        forall|m: u32| #[trigger] v.nodes.contains_key(m) && !sel.contains(m) ==> {
            &&& after_node_removals(v, sel).0.nodes.contains_key(m)
            &&& after_node_removals(v, sel).0.nodes[m].0 == v.nodes[m].0
        },
    decreases sel.len(),
{
    if sel.len() > 0 {
        let d = sel.drop_last();
        assert(d.no_duplicates());
        assert forall|k: int| #![trigger d[k]] 0 <= k < d.len() implies v.nodes.contains_key(d[k]) by {
            assert(d[k] == sel[k]);
        }
        lemma_node_paths(v, d);
        let (w, ps) = after_node_removals(v, d);
        let n = sel.last();
        let last = sel.len() - 1;
        assert(sel[last] == n);
        assert(!d.contains(n)) by {
            if d.contains(n) {
                let k = choose|k: int| 0 <= k < d.len() && d[k] == n;
                assert(sel[k] == sel[last]);
            }
        }
        assert(v.nodes.contains_key(n));
        assert(label_id(w, n) == label_id(v, n));
        let paths = after_node_removals(v, sel).1;
        assert(paths == ps.push(person_path_spec(label_id(w, n))));
        assert forall|k: int| #![trigger paths[k]] 0 <= k < sel.len()
            implies paths[k] == person_path_spec(label_id(v, sel[k])) by {
            if k < last {
                assert(paths[k] == ps[k]);
                assert(sel[k] == d[k]);
            }
        }
        assert forall|m: u32| #[trigger] v.nodes.contains_key(m) && !sel.contains(m) implies {
            &&& after_node_removals(v, sel).0.nodes.contains_key(m)
            &&& after_node_removals(v, sel).0.nodes[m].0 == v.nodes[m].0
        } by {
            assert(!d.contains(m)) by {
                if d.contains(m) {
                    let k = choose|k: int| 0 <= k < d.len() && d[k] == m;
                    assert(sel[k] == m);
                }
            }
            assert(m != n);
        }
    }
}

/// The `k`-th node deletion path names the `k`-th selected node: it is
/// `/person/` and a text that reads back as the id in that node's label.
pub proof fn law_node_deletion_paths(v: GraphView, sel: Seq<u32>)
    requires
        sel.no_duplicates(),
        forall|k: int| #![trigger sel[k]] 0 <= k < sel.len()
            ==> v.nodes.contains_key(sel[k]) && parse_u32_spec(v.label(sel[k])) is Some,
    ensures
        after_node_removals(v, sel).1.len() == sel.len(),
        forall|k: int| #![trigger after_node_removals(v, sel).1[k]] 0 <= k < sel.len()
            ==> exists|a: Seq<char>| #[trigger] parse_u32_spec(a) == parse_u32_spec(v.label(sel[k]))
                && after_node_removals(v, sel).1[k] == "/person/"@ + a,
{
    lemma_node_paths(v, sel);
    assert forall|k: int| #![trigger after_node_removals(v, sel).1[k]] 0 <= k < sel.len()
        implies exists|a: Seq<char>| #[trigger] parse_u32_spec(a) == parse_u32_spec(v.label(sel[k]))
            && after_node_removals(v, sel).1[k] == "/person/"@ + a by {
        let id = label_id(v, sel[k]);
        law_person_path_names_person(id);
        let a = choose|a: Seq<char>| #[trigger] parse_u32_spec(a) == Some(id) && person_path_spec(id) == "/person/"@ + a;
        assert(parse_u32_spec(a) == parse_u32_spec(v.label(sel[k])));
    }
}
} // verus!
