//! Tree layout of the family graph: every source node starts a tree, each
//! node is put one row below its parent and its children spread to the right.
use vstd::prelude::*;
use std::collections::HashSet;
use crate::graph::{FamilyGraph, GraphView, sg_out_neighbors, sg_sources};

verus! {

broadcast use vstd::std_specs::hash::group_hash_axioms;

/// Distance between two grid rows or columns.
pub const GRID_STEP: usize = 50;

/// A node put at grid row `row`, column `col`.
pub struct Cell {
    pub node: u32,
    pub row: nat,
    pub col: nat,
}

/// A node put at the point `(x, y)`.
#[derive(Clone, Copy, Debug)]
pub struct Placement {
    pub node: u32,
    pub x: usize,
    pub y: usize,
}

/// The point of a grid cell.
pub open spec fn cell_point(c: Cell) -> (u32, nat, nat) {
    (c.node, c.col * 50, c.row * 50)
}

/// The point of a placement.
pub open spec fn placement_point(p: Placement) -> (u32, nat, nat) {
    (p.node, p.x as nat, p.y as nat)
}

/// The cell's point fits in a `usize`.
pub open spec fn cell_fits(c: Cell) -> bool {
    c.col * 50 <= usize::MAX && c.row * 50 <= usize::MAX
}

/// Every cell's point fits in a `usize`.
pub open spec fn cells_fit(cells: Seq<Cell>) -> bool {
    forall|i: int| 0 <= i < cells.len() ==> cell_fits(#[trigger] cells[i])
}

/// Walks the tree below `node` (already visited), placed at `(row, col)`:
/// the node's cell, then the trees of its unvisited outgoing neighbors in
/// petgraph's order, the `i`-th at `(row + 1, col + i)`. `fuel` bounds the
/// depth; it is never short when it is at least the number of unvisited
/// nodes. Gives the cells in order and the visited set after.
pub open spec fn walk(v: GraphView, visited: Set<u32>, node: u32, row: nat, col: nat, fuel: nat) -> (Seq<Cell>, Set<u32>)
    decreases fuel, 1nat, 0nat,
{
    let (cells, vis) = walk_children(v, visited, v.out_neighbors(node), 0, row, col, fuel);
    (seq![Cell { node, row, col }] + cells, vis)
}

/// The trees of the neighbors `nbrs[i..]` of a node placed at `(row, col)`.
pub open spec fn walk_children(
    v: GraphView,
    visited: Set<u32>,
    nbrs: Seq<u32>,
    i: nat,
    row: nat,
    col: nat,
    fuel: nat,
) -> (Seq<Cell>, Set<u32>)
    decreases fuel, 0nat, nbrs.len() - i,
{
    if i >= nbrs.len() {
        (Seq::empty(), visited)
    } else if visited.contains(nbrs[i as int]) || fuel == 0 {
        walk_children(v, visited, nbrs, i + 1, row, col, fuel)
    } else {
        let nb = nbrs[i as int];
        let (c1, vis1) = walk(v, visited.insert(nb), nb, row + 1, col + i, (fuel - 1) as nat);
        let (c2, vis2) = walk_children(v, vis1, nbrs, i + 1, row, col, fuel);
        (c1 + c2, vis2)
    }
}

/// The layout of the trees of the first `k` roots, root `j` at row 0,
/// column `j`, each root marked visited before its tree is walked.
pub open spec fn layout_prefix(v: GraphView, roots: Seq<u32>, k: nat) -> (Seq<Cell>, Set<u32>)
    decreases k,
{
    if k == 0 {
        (Seq::empty(), Set::empty())
    } else {
        let (c, vis) = layout_prefix(v, roots, (k - 1) as nat);
        let r = roots[k - 1];
        let (c2, vis2) = walk(v, vis.insert(r), r, 0, (k - 1) as nat, v.nodes.len());
        (c + c2, vis2)
    }
}

/// `roots` lists the source nodes of `v` in increasing order.
pub open spec fn source_order(v: GraphView, roots: Seq<u32>) -> bool {
    &&& forall|i: int, j: int| 0 <= i < j < roots.len() ==> roots[i] < roots[j]
    &&& forall|n: u32| roots.contains(n) <==> v.is_source(n)
}

/// The cells of the layout of `v`, with `roots` its sources in order.
pub open spec fn layout_cells(v: GraphView, roots: Seq<u32>) -> Seq<Cell> {
    layout_prefix(v, roots, roots.len()).0
}

proof fn lemma_fewer_unvisited(dom: Set<u32>, visited: Set<u32>, nb: u32)
    requires
        dom.finite(),
        dom.contains(nb),
        !visited.contains(nb),
    ensures
        dom.difference(visited.insert(nb)).len() + 1 == dom.difference(visited).len(),
{
    assert(dom.difference(visited.insert(nb)) =~= dom.difference(visited).remove(nb));
    vstd::set_lib::lemma_set_subset_finite(dom, dom.difference(visited));
}

proof fn lemma_unvisited_shrinks(dom: Set<u32>, small: Set<u32>, big: Set<u32>)
    requires
        dom.finite(),
        small.subset_of(big),
    ensures
        dom.difference(big).len() <= dom.difference(small).len(),
{
    vstd::set_lib::lemma_set_subset_finite(dom, dom.difference(small));
    vstd::set_lib::lemma_len_subset(dom.difference(big), dom.difference(small));
}

/// The largest column of the cells (0 for none).
pub open spec fn cells_max_col(c: Seq<Cell>) -> nat
    decreases c.len(),
{
    if c.len() == 0 {
        0
    } else {
        let m = cells_max_col(c.drop_last());
        if c.last().col > m { c.last().col } else { m }
    }
}

/// The largest column of two runs of cells is the larger of theirs.
proof fn lemma_max_col_concat(a: Seq<Cell>, b: Seq<Cell>)
    ensures
        cells_max_col(a + b) == (if cells_max_col(a) >= cells_max_col(b) { cells_max_col(a) } else { cells_max_col(b) }),
    decreases b.len(),
{
    if b.len() == 0 {
        assert(a + b =~= a);
    } else {
        lemma_max_col_concat(a, b.drop_last());
        assert((a + b).drop_last() =~= a + b.drop_last());
    }
}

/// Places the tree below `node` (already in `visited`) at `(row, col)`,
/// appending its placements to `out`, and returns the largest column it
/// placed. Returns `None`, leaving `out` and `visited` partly filled, when a
/// coordinate overflows a `usize`.
fn build_tree(
    fam: &FamilyGraph,
    visited: &mut HashSet<u32>,
    out: &mut Vec<Placement>,
    node: u32,
    row: usize,
    col: usize,
    Ghost(fuel): Ghost<nat>,
) -> (max_col: Option<usize>)
    requires
        fam.wf(),
        fam.structure().nodes.contains_key(node),
        old(visited)@.contains(node),
        fuel >= fam.structure().nodes.dom().difference(old(visited)@).len(),
    ensures
        old(visited)@.subset_of(final(visited)@),
        max_col matches Some(m) ==> {
            &&& m == cells_max_col(walk(fam.structure(), old(visited)@, node, row as nat, col as nat, fuel).0)
            &&& m >= col
        },
        max_col is Some == cells_fit(walk(fam.structure(), old(visited)@, node, row as nat, col as nat, fuel).0),
        max_col is Some ==> final(visited)@ == walk(fam.structure(), old(visited)@, node, row as nat, col as nat, fuel).1,
        max_col is Some ==> final(out)@.map_values(|p: Placement| placement_point(p))
            == old(out)@.map_values(|p: Placement| placement_point(p))
                + walk(fam.structure(), old(visited)@, node, row as nat, col as nat, fuel).0.map_values(|c: Cell| cell_point(c)),
    decreases fuel,
{
    let ghost v = fam.structure();
    let ghost vis0 = visited@;
    let ghost out0 = out@.map_values(|p: Placement| placement_point(p));
    let ghost total = walk_children(v, vis0, v.out_neighbors(node), 0, row as nat, col as nat, fuel);
    if col > usize::MAX / GRID_STEP || row > usize::MAX / GRID_STEP {
        proof {
            let ghost w = walk(v, vis0, node, row as nat, col as nat, fuel).0;
            assert(w[0] == Cell { node, row: row as nat, col: col as nat });
            assert(col * 50 > usize::MAX || row * 50 > usize::MAX) by (nonlinear_arith)
                requires col > usize::MAX / 50 || row > usize::MAX / 50;
            assert(!cell_fits(w[0]));
        }
        return None;
    }
    out.push(Placement { node, x: col * GRID_STEP, y: row * GRID_STEP });
    let nbrs = sg_out_neighbors(&fam.graph, node);
    let ghost done_start = out0.push(cell_point(Cell { node, row: row as nat, col: col as nat }));
    assert(out@.map_values(|p: Placement| placement_point(p)) =~= done_start);
    let mut i: usize = 0;
    let mut max_col: usize = col;
    let ghost root = Cell { node, row: row as nat, col: col as nat };
    let ghost mut done: Seq<Cell> = Seq::empty();
    assert(total.0 =~= done + total.0);
    assert(seq![root] + done =~= seq![root]);
    assert(seq![root].drop_last() =~= Seq::<Cell>::empty());
    assert(seq![root].last() == root);
    assert(cells_max_col(Seq::<Cell>::empty()) == 0);
    assert(cells_max_col(seq![root]) == col as nat);
    assert(done_start + done.map_values(|c: Cell| cell_point(c)) =~= done_start);
    while i < nbrs.len()
        invariant
            fam.wf(),
            v == fam.structure(),
            nbrs@ == v.out_neighbors(node),
            v.nodes.contains_key(node),
            i <= nbrs.len(),
            col * 50 <= usize::MAX,
            row * 50 <= usize::MAX,
            vis0.subset_of(visited@),
            vis0 == old(visited)@,
            out0 == old(out)@.map_values(|p: Placement| placement_point(p)),
            fuel >= v.nodes.dom().difference(vis0).len(),
            total == walk_children(v, vis0, nbrs@, 0, row as nat, col as nat, fuel),
            root == (Cell { node, row: row as nat, col: col as nat }),
            max_col == cells_max_col(seq![root] + done),
            max_col >= col,
            ({
                let rest = walk_children(v, visited@, nbrs@, i as nat, row as nat, col as nat, fuel);
                &&& total.1 == rest.1
                &&& total.0 == done + rest.0
                &&& cells_fit(done)
                &&& out@.map_values(|p: Placement| placement_point(p))
                    == done_start + done.map_values(|c: Cell| cell_point(c))
            }),
        decreases nbrs.len() - i,
    {
        let nb = nbrs[i];
        let ghost vis_i = visited@;
        let ghost rest = walk_children(v, vis_i, nbrs@, i as nat, row as nat, col as nat, fuel);
        if visited.contains(&nb) {
            i = i + 1;
            continue;
        }
        proof {
            let k = i as int;
            assert(v.nodes[node].1.map_values(|e: u32| v.edges[e].1)[k] == v.edges[v.nodes[node].1[k]].1);
            assert(v.edges.contains_key(v.nodes[node].1[k]));
            assert(v.nodes.contains_key(nb));
            lemma_unvisited_shrinks(v.nodes.dom(), vis0, vis_i);
            lemma_fewer_unvisited(v.nodes.dom(), vis_i, nb);
        }
        if i > usize::MAX - col || row >= usize::MAX {
            assert(rest.0 == walk(v, vis_i.insert(nb), nb, (row + 1) as nat, (col + i) as nat, (fuel - 1) as nat).0
                + walk_children(v, walk(v, vis_i.insert(nb), nb, (row + 1) as nat, (col + i) as nat, (fuel - 1) as nat).1, nbrs@, (i + 1) as nat, row as nat, col as nat, fuel).0);
            let ghost sw = walk(v, vis_i.insert(nb), nb, (row + 1) as nat, (col + i) as nat, (fuel - 1) as nat).0;
            assert(sw[0] == Cell { node: nb, row: (row + 1) as nat, col: (col + i) as nat });
            assert(total.0[done.len() as int] == rest.0[0]);
            assert(rest.0[0] == sw[0]);
            assert(!cell_fits(total.0[done.len() as int]));
            let ghost w = walk(v, vis0, node, row as nat, col as nat, fuel).0;
            assert(w == seq![Cell { node, row: row as nat, col: col as nat }] + total.0);
            assert(w[done.len() + 1int] == total.0[done.len() as int]);
            return None;
        }
        visited.insert(nb);
        let sub_max = build_tree(fam, visited, out, nb, row + 1, col + i, Ghost((fuel - 1) as nat));
        let ghost sub = walk(v, vis_i.insert(nb), nb, (row + 1) as nat, (col + i) as nat, (fuel - 1) as nat);
        let ghost after = walk_children(v, sub.1, nbrs@, (i + 1) as nat, row as nat, col as nat, fuel);
        assert(rest == (sub.0 + after.0, after.1));
        if sub_max.is_none() {
            assert(vis0.subset_of(visited@));
            assert(total.0 =~= done + sub.0 + after.0);
            let ghost w = walk(v, vis0, node, row as nat, col as nat, fuel).0;
            assert(w == seq![Cell { node, row: row as nat, col: col as nat }] + total.0);
            let ghost j = choose|j: int| 0 <= j < sub.0.len() && !cell_fits(#[trigger] sub.0[j]);
            assert(w[done.len() + 1 + j] == sub.0[j]);
            return None;
        }
        let m = sub_max.unwrap();
        if m > max_col {
            max_col = m;
        }
        proof {
            let nd = done + sub.0;
            lemma_max_col_concat(seq![root] + done, sub.0);
            assert(seq![root] + nd =~= (seq![root] + done) + sub.0);
            assert(total.0 =~= nd + after.0);
            assert(nd.map_values(|c: Cell| cell_point(c)) =~= done.map_values(|c: Cell| cell_point(c)) + sub.0.map_values(|c: Cell| cell_point(c)));
            assert(out@.map_values(|p: Placement| placement_point(p)) =~= done_start + nd.map_values(|c: Cell| cell_point(c)));
            assert(cells_fit(nd));
            done = nd;
        }
        i = i + 1;
    }
    proof {
        let rest = walk_children(v, visited@, nbrs@, i as nat, row as nat, col as nat, fuel);
        assert(rest.0 =~= Seq::<Cell>::empty());
        assert(done =~= total.0);
        let w = walk(v, vis0, node, row as nat, col as nat, fuel).0;
        assert(w =~= seq![Cell { node, row: row as nat, col: col as nat }] + total.0);
        assert(w.map_values(|c: Cell| cell_point(c)) =~= seq![cell_point(Cell { node, row: row as nat, col: col as nat })] + total.0.map_values(|c: Cell| cell_point(c)));
        assert(out@.map_values(|p: Placement| placement_point(p)) =~= out0 + w.map_values(|c: Cell| cell_point(c)));
        assert forall|j: int| 0 <= j < w.len() implies cell_fits(#[trigger] w[j]) by {
            if j > 0 {
                assert(w[j] == total.0[j - 1]);
            }
        }
        assert(w =~= seq![root] + done);
    }
    Some(max_col)
}


/// Two increasing sequences with the same elements are equal: the order of
/// the sources is determined by the graph.
pub proof fn lemma_increasing_unique(a: Seq<u32>, b: Seq<u32>)
    requires
        forall|i: int, j: int| 0 <= i < j < a.len() ==> a[i] < a[j],
        forall|i: int, j: int| 0 <= i < j < b.len() ==> b[i] < b[j],
        forall|x: u32| a.contains(x) <==> b.contains(x),
    ensures
        a == b,
    decreases a.len(),
{
    if a.len() == 0 {
        if b.len() > 0 {
            assert(b.contains(b[0]));
        }
        assert(a =~= b);
    } else {
        assert(a.contains(a[0]));
        assert(b.len() > 0);
        assert(b.contains(b[0]));
        let j = choose|j: int| 0 <= j < b.len() && b[j] == a[0];
        let k = choose|k: int| 0 <= k < a.len() && a[k] == b[0];
        if j > 0 {
            assert(b[0] < b[j]);
            assert(k > 0);
            assert(false);
        }
        let (a1, b1) = (a.drop_first(), b.drop_first());
        assert forall|x: u32| a1.contains(x) <==> b1.contains(x) by {
            if a1.contains(x) {
                let p = choose|p: int| 0 <= p < a1.len() && a1[p] == x;
                assert(a[p + 1] == x && a[0] < a[p + 1]);
                assert(a.contains(x));
                let q = choose|q: int| 0 <= q < b.len() && b[q] == x;
                assert(q > 0);
                assert(b1[q - 1] == x);
            }
            if b1.contains(x) {
                let p = choose|p: int| 0 <= p < b1.len() && b1[p] == x;
                assert(b[p + 1] == x && b[0] < b[p + 1]);
                assert(b.contains(x));
                let q = choose|q: int| 0 <= q < a.len() && a[q] == x;
                assert(q > 0);
                assert(a1[q - 1] == x);
            }
        }
        lemma_increasing_unique(a1, b1);
        assert(a =~= seq![a[0]] + a1);
        assert(b =~= seq![b[0]] + b1);
    }
}

/// The layout of fewer roots is a prefix of the layout of more.
proof fn lemma_layout_prefix_grows(v: GraphView, roots: Seq<u32>, k: nat, k2: nat)
    requires
        k <= k2,
    ensures
        layout_prefix(v, roots, k).0.len() <= layout_prefix(v, roots, k2).0.len(),
        forall|j: int| 0 <= j < layout_prefix(v, roots, k).0.len()
            ==> layout_prefix(v, roots, k2).0[j] == #[trigger] layout_prefix(v, roots, k).0[j],
    decreases k2,
{
    if k < k2 {
        lemma_layout_prefix_grows(v, roots, k, (k2 - 1) as nat);
    }
}

impl FamilyGraph {
    /// The tree layout: for each source node, in increasing index order, the
    /// source is marked visited and its tree is walked from row 0, column
    /// equal to the source's position. `None` when a coordinate overflows a
    /// `usize`.
    pub fn refresh_layout(&self) -> (r: Option<Vec<Placement>>)
        requires
            self.wf(),
        ensures
            exists|roots: Seq<u32>| source_order(self.structure(), roots),
            forall|roots: Seq<u32>| #[trigger] source_order(self.structure(), roots) ==> {
                &&& (r is Some <==> cells_fit(layout_cells(self.structure(), roots)))
                &&& (r matches Some(p) ==> p@.map_values(|q: Placement| placement_point(q))
                    == layout_cells(self.structure(), roots).map_values(|c: Cell| cell_point(c)))
            },
    {
        let ghost v = self.structure();
        let roots = sg_sources(&self.graph);
        let mut visited: HashSet<u32> = HashSet::new();
        let mut out: Vec<Placement> = Vec::new();
        let mut i: usize = 0;
        proof {
            assert(source_order(v, roots@));
            assert forall|other: Seq<u32>| #[trigger] source_order(v, other) implies other == roots@ by {
                lemma_increasing_unique(other, roots@);
            }
            assert(visited@ =~= Set::<u32>::empty());
            assert(out@.map_values(|q: Placement| placement_point(q)) =~= Seq::<(u32, nat, nat)>::empty());
            assert(layout_prefix(v, roots@, 0).0.map_values(|c: Cell| cell_point(c)) =~= Seq::<(u32, nat, nat)>::empty());
        }
        while i < roots.len()
            invariant
                self.wf(),
                v == self.structure(),
                source_order(v, roots@),
                forall|other: Seq<u32>| #[trigger] source_order(v, other) ==> other == roots@,
                i <= roots.len(),
                visited@ == layout_prefix(v, roots@, i as nat).1,
                cells_fit(layout_prefix(v, roots@, i as nat).0),
                out@.map_values(|q: Placement| placement_point(q))
                    == layout_prefix(v, roots@, i as nat).0.map_values(|c: Cell| cell_point(c)),
            decreases roots.len() - i,
        {
            let r = roots[i];
            let ghost prev = layout_prefix(v, roots@, i as nat);
            proof {
                assert(roots@.contains(r));
                vstd::set_lib::lemma_len_difference(v.nodes.dom(), visited@.insert(r));
            }
            visited.insert(r);
            let placed = build_tree(self, &mut visited, &mut out, r, 0, i, Ghost(v.nodes.len()));
            let ghost w = walk(v, prev.1.insert(r), r, 0, i as nat, v.nodes.len());
            assert(layout_prefix(v, roots@, (i + 1) as nat) == (prev.0 + w.0, w.1));
            if placed.is_none() {
                proof {
                    let jj = choose|jj: int| 0 <= jj < w.0.len() && !cell_fits(#[trigger] w.0[jj]);
                    let full = layout_prefix(v, roots@, roots@.len());
                    lemma_layout_prefix_grows(v, roots@, (i + 1) as nat, roots@.len());
                    let cur = layout_prefix(v, roots@, (i + 1) as nat).0;
                    assert(cur[prev.0.len() + jj] == w.0[jj]);
                    assert(full.0[prev.0.len() + jj] == cur[prev.0.len() + jj]);
                    assert(!cell_fits(full.0[prev.0.len() + jj]));
                    assert(!cells_fit(layout_cells(v, roots@)));
                }
                return None;
            }
            proof {
                let cur = prev.0 + w.0;
                assert(cur.map_values(|c: Cell| cell_point(c)) =~= prev.0.map_values(|c: Cell| cell_point(c)) + w.0.map_values(|c: Cell| cell_point(c)));
                assert forall|j: int| 0 <= j < cur.len() implies cell_fits(#[trigger] cur[j]) by {
                    if j < prev.0.len() {
                        assert(cur[j] == prev.0[j]);
                    } else {
                        assert(cur[j] == w.0[j - prev.0.len()]);
                    }
                }
            }
            i = i + 1;
        }
        Some(out)
    }
}

/// The trees below the neighbors `nbrs[i..]` place only nodes that were
/// not visited, each once, none of them a source, all of them marked visited
/// after; nothing else becomes visited.
proof fn lemma_children_place_fresh(
    v: GraphView,
    vis: Set<u32>,
    nbrs: Seq<u32>,
    i: nat,
    row: nat,
    col: nat,
    fuel: nat,
)
    requires
        v.wf(),
        forall|k: int| 0 <= k < nbrs.len() ==> v.nodes.contains_key(#[trigger] nbrs[k]) && !v.is_source(nbrs[k]),
    ensures
        ({
            let (c, out) = walk_children(v, vis, nbrs, i, row, col, fuel);
            &&& vis.subset_of(out)
            &&& forall|j: int| #![trigger c[j]] 0 <= j < c.len() ==> {
                &&& out.contains(c[j].node)
                &&& !vis.contains(c[j].node)
                &&& !v.is_source(c[j].node)
                &&& v.nodes.contains_key(c[j].node)
            }
            &&& forall|x: u32| #[trigger] out.contains(x) && !vis.contains(x) ==> !v.is_source(x) && v.nodes.contains_key(x)
            &&& forall|j: int, k: int| 0 <= j < k < c.len() ==> #[trigger] c[j].node != #[trigger] c[k].node
        }),
    decreases fuel, 0nat, nbrs.len() - i,
{
    if i >= nbrs.len() {
    } else if vis.contains(nbrs[i as int]) || fuel == 0 {
        lemma_children_place_fresh(v, vis, nbrs, i + 1, row, col, fuel);
    } else {
        let nb = nbrs[i as int];
        let f1 = (fuel - 1) as nat;
        lemma_walk_places_fresh(v, vis.insert(nb), nb, row + 1, col + i, f1);
        let (c1, vis1) = walk(v, vis.insert(nb), nb, row + 1, col + i, f1);
        lemma_children_place_fresh(v, vis1, nbrs, i + 1, row, col, fuel);
        let (c2, vis2) = walk_children(v, vis1, nbrs, i + 1, row, col, fuel);
        let c = c1 + c2;
        assert forall|j: int| #![trigger c[j]] 0 <= j < c.len() implies {
            &&& vis2.contains(c[j].node)
            &&& !vis.contains(c[j].node)
            &&& !v.is_source(c[j].node)
            &&& v.nodes.contains_key(c[j].node)
        } by {
            if j < c1.len() {
                assert(c[j] == c1[j]);
                if j == 0 {
                    assert(c1[0].node == nb);
                }
            } else {
                assert(c[j] == c2[j - c1.len()]);
            }
        }
        assert forall|j: int, k: int| 0 <= j < k < c.len() implies #[trigger] c[j].node != #[trigger] c[k].node by {
            if k < c1.len() {
                assert(c[j] == c1[j] && c[k] == c1[k]);
            } else if j >= c1.len() {
                assert(c[j] == c2[j - c1.len()] && c[k] == c2[k - c1.len()]);
            } else {
                assert(c[j] == c1[j] && c[k] == c2[k - c1.len()]);
                assert(vis1.contains(c1[j].node));
            }
        }
    }
}

/// The tree below `node` starts with `node`'s own cell and then places only
/// nodes that were not visited, each once, none of them a source.
proof fn lemma_walk_places_fresh(v: GraphView, vis: Set<u32>, node: u32, row: nat, col: nat, fuel: nat)
    requires
        v.wf(),
        v.nodes.contains_key(node),
        vis.contains(node),
    ensures
        ({
            let (c, out) = walk(v, vis, node, row, col, fuel);
            &&& c.len() >= 1
            &&& c[0] == Cell { node, row, col }
            &&& vis.subset_of(out)
            &&& forall|j: int| #![trigger c[j]] 0 <= j < c.len() ==> out.contains(c[j].node) && v.nodes.contains_key(c[j].node)
            &&& forall|j: int| #![trigger c[j]] 1 <= j < c.len() ==> !vis.contains(c[j].node) && !v.is_source(c[j].node)
            &&& forall|x: u32| #[trigger] out.contains(x) && !vis.contains(x) ==> !v.is_source(x) && v.nodes.contains_key(x)
            &&& forall|j: int, k: int| 0 <= j < k < c.len() ==> #[trigger] c[j].node != #[trigger] c[k].node
        }),
    decreases fuel, 1nat, 0nat,
{
    let nbrs = v.out_neighbors(node);
    assert forall|k: int| 0 <= k < nbrs.len() implies v.nodes.contains_key(#[trigger] nbrs[k]) && !v.is_source(nbrs[k]) by {
        let e = v.nodes[node].1[k];
        assert(v.edges.contains_key(e));
        assert(nbrs[k] == v.edges[e].1);
    }
    lemma_children_place_fresh(v, vis, nbrs, 0, row, col, fuel);
    let (cs, out) = walk_children(v, vis, nbrs, 0, row, col, fuel);
    let c = seq![Cell { node, row, col }] + cs;
    assert forall|j: int| #![trigger c[j]] 1 <= j < c.len() implies !vis.contains(c[j].node) && !v.is_source(c[j].node) by {
        assert(c[j] == cs[j - 1]);
    }
    assert forall|j: int| #![trigger c[j]] 0 <= j < c.len() implies out.contains(c[j].node) && v.nodes.contains_key(c[j].node) by {
        if j > 0 {
            assert(c[j] == cs[j - 1]);
        }
    }
    assert forall|j: int, k: int| 0 <= j < k < c.len() implies #[trigger] c[j].node != #[trigger] c[k].node by {
        assert(c[k] == cs[k - 1]);
        if j > 0 {
            assert(c[j] == cs[j - 1]);
        }
    }
}

/// The layout of the first `k` roots places each node at most once, only
/// nodes of the graph, and root `j` at row 0, column `j`.
proof fn lemma_layout_prefix_places_once(v: GraphView, roots: Seq<u32>, k: nat)
    requires
        v.wf(),
        source_order(v, roots),
        k <= roots.len(),
    ensures
        ({
            let (c, out) = layout_prefix(v, roots, k);
            &&& forall|j: int| #![trigger c[j]] 0 <= j < c.len() ==> out.contains(c[j].node) && v.nodes.contains_key(c[j].node)
            &&& forall|x: u32| #[trigger] out.contains(x) ==> v.nodes.contains_key(x)
                && (v.is_source(x) ==> exists|m: int| 0 <= m < k && roots[m] == x)
            &&& forall|j: int, l: int| 0 <= j < l < c.len() ==> #[trigger] c[j].node != #[trigger] c[l].node
            &&& forall|m: int| 0 <= m < k ==> #[trigger] c.contains(Cell { node: roots[m], row: 0, col: m as nat })
        }),
    decreases k,
{
    if k > 0 {
        let km = (k - 1) as nat;
        lemma_layout_prefix_places_once(v, roots, km);
        let (c0, out0) = layout_prefix(v, roots, km);
        let r = roots[km as int];
        assert(roots.contains(r));
        assert(!out0.contains(r)) by {
            if out0.contains(r) {
                let m = choose|m: int| 0 <= m < km && roots[m] == r;
                assert(roots[m] < roots[km as int]);
            }
        }
        lemma_walk_places_fresh(v, out0.insert(r), r, 0, km, v.nodes.len());
        let (c1, out1) = walk(v, out0.insert(r), r, 0, km, v.nodes.len());
        let c = c0 + c1;
        assert forall|j: int| #![trigger c[j]] 0 <= j < c.len() implies out1.contains(c[j].node) && v.nodes.contains_key(c[j].node) by {
            if j < c0.len() {
                assert(c[j] == c0[j]);
            } else {
                assert(c[j] == c1[j - c0.len()]);
            }
        }
        assert forall|x: u32| #[trigger] out1.contains(x) implies v.nodes.contains_key(x)
            && (v.is_source(x) ==> exists|m: int| 0 <= m < k && roots[m] == x) by {
            if out0.contains(x) {
                if v.is_source(x) {
                    let m = choose|m: int| 0 <= m < km && roots[m] == x;
                    assert(0 <= m < k && roots[m] == x);
                }
            } else if x == r {
                assert(roots[km as int] == x);
            }
        }
        assert forall|j: int, l: int| 0 <= j < l < c.len() implies #[trigger] c[j].node != #[trigger] c[l].node by {
            if l < c0.len() {
                assert(c[j] == c0[j] && c[l] == c0[l]);
            } else if j >= c0.len() {
                assert(c[j] == c1[j - c0.len()] && c[l] == c1[l - c0.len()]);
            } else {
                assert(c[j] == c0[j] && c[l] == c1[l - c0.len()]);
                assert(out0.contains(c0[j].node));
                if l - c0.len() == 0 {
                    assert(c1[0].node == r);
                }
            }
        }
        assert forall|m: int| 0 <= m < k implies #[trigger] c.contains(Cell { node: roots[m], row: 0, col: m as nat }) by {
            if m < km {
                assert(c0.contains(Cell { node: roots[m], row: 0, col: m as nat }));
                let p = choose|p: int| 0 <= p < c0.len() && c0[p] == Cell { node: roots[m], row: 0, col: m as nat };
                assert(c[p] == c0[p]);
            } else {
                assert(c[c0.len() as int] == c1[0]);
                assert(c1[0] == Cell { node: roots[m], row: 0, col: m as nat });
            }
        }
    }
}

/// The layout places every node at most once, places only nodes of the
/// graph, and puts the `k`-th source (in index order) at row 0, column `k`.
pub proof fn law_layout_places_each_node_once(v: GraphView, roots: Seq<u32>)
    requires
        v.wf(),
        source_order(v, roots),
    ensures
        forall|j: int, l: int| 0 <= j < l < layout_cells(v, roots).len()
            ==> #[trigger] layout_cells(v, roots)[j].node != #[trigger] layout_cells(v, roots)[l].node,
        forall|j: int| 0 <= j < layout_cells(v, roots).len()
            ==> v.nodes.contains_key(#[trigger] layout_cells(v, roots)[j].node),
        forall|k: int| 0 <= k < roots.len()
            ==> #[trigger] layout_cells(v, roots).contains(Cell { node: roots[k], row: 0, col: k as nat }),
{
    lemma_layout_prefix_places_once(v, roots, roots.len());
    let c = layout_cells(v, roots);
    assert forall|j: int| 0 <= j < c.len() implies v.nodes.contains_key(#[trigger] c[j].node) by {
        assert(layout_prefix(v, roots, roots.len()).1.contains(c[j].node));
    }
}

/// The node `n` has a cell in `c`.
pub open spec fn has_cell(c: Seq<Cell>, n: u32) -> bool {
    exists|j: int| 0 <= j < c.len() && #[trigger] c[j].node == n
}

/// With enough fuel, the trees below `nbrs[i..]` mark every one of those
/// neighbors visited, give a cell to every node they newly visit, and every
/// newly visited node has all its children visited.
proof fn lemma_children_close(v: GraphView, vis: Set<u32>, nbrs: Seq<u32>, i: nat, row: nat, col: nat, fuel: nat)
    requires
        v.wf(),
        forall|k: int| 0 <= k < nbrs.len() ==> v.nodes.contains_key(#[trigger] nbrs[k]),
        fuel >= v.nodes.dom().difference(vis).len(),
    ensures
        ({
            let (c, out) = walk_children(v, vis, nbrs, i, row, col, fuel);
            &&& vis.subset_of(out)
            &&& forall|k: int| i <= k < nbrs.len() ==> out.contains(#[trigger] nbrs[k])
            &&& forall|x: u32| #[trigger] out.contains(x) && !vis.contains(x) ==> has_cell(c, x)
            &&& forall|x: u32, k: int| #![trigger out.contains(x), v.out_neighbors(x)[k]]
                out.contains(x) && !vis.contains(x) && 0 <= k < v.out_neighbors(x).len()
                ==> out.contains(v.out_neighbors(x)[k])
        }),
    decreases fuel, 0nat, nbrs.len() - i,
{
    if i >= nbrs.len() {
    } else if vis.contains(nbrs[i as int]) || fuel == 0 {
        if !vis.contains(nbrs[i as int]) {
            lemma_fewer_unvisited(v.nodes.dom(), vis, nbrs[i as int]);
        }
        lemma_children_close(v, vis, nbrs, i + 1, row, col, fuel);
    } else {
        let nb = nbrs[i as int];
        let f1 = (fuel - 1) as nat;
        let vi = vis.insert(nb);
        lemma_fewer_unvisited(v.nodes.dom(), vis, nb);
        lemma_walk_closes(v, vi, nb, row + 1, col + i, f1);
        let (c1, vis1) = walk(v, vi, nb, row + 1, col + i, f1);
        lemma_unvisited_shrinks(v.nodes.dom(), vi, vis1);
        lemma_children_close(v, vis1, nbrs, i + 1, row, col, fuel);
        let (c2, vis2) = walk_children(v, vis1, nbrs, i + 1, row, col, fuel);
        let c = c1 + c2;
        assert(walk_children(v, vis, nbrs, i, row, col, fuel) == (c, vis2));
        assert forall|x: u32| #[trigger] vis2.contains(x) && !vis.contains(x) implies has_cell(c, x) by {
            if vis1.contains(x) {
                if x == nb {
                    assert(c[0] == c1[0]);
                } else {
                    let j = choose|j: int| 0 <= j < c1.len() && #[trigger] c1[j].node == x;
                    assert(c[j] == c1[j]);
                }
            } else {
                let j = choose|j: int| 0 <= j < c2.len() && #[trigger] c2[j].node == x;
                assert(c[c1.len() + j] == c2[j]);
            }
        }
        assert forall|k: int| i <= k < nbrs.len() implies vis2.contains(#[trigger] nbrs[k]) by {
            if k == i {
                assert(vi.contains(nb));
            }
        }
        assert forall|x: u32, k: int| #![trigger vis2.contains(x), v.out_neighbors(x)[k]]
            vis2.contains(x) && !vis.contains(x) && 0 <= k < v.out_neighbors(x).len()
            implies vis2.contains(v.out_neighbors(x)[k]) by {
            if vis1.contains(x) {
                assert(vis1.contains(v.out_neighbors(x)[k]));
            }
        }
    }
}

/// With enough fuel, the tree below `node` gives a cell to every node it
/// newly visits, and `node` and every newly visited node have all their
/// children visited.
proof fn lemma_walk_closes(v: GraphView, vis: Set<u32>, node: u32, row: nat, col: nat, fuel: nat)
    requires
        v.wf(),
        v.nodes.contains_key(node),
        vis.contains(node),
        fuel >= v.nodes.dom().difference(vis).len(),
    ensures
        ({
            let (c, out) = walk(v, vis, node, row, col, fuel);
            &&& vis.subset_of(out)
            &&& c[0].node == node
            &&& forall|x: u32| #[trigger] out.contains(x) && !vis.contains(x) ==> has_cell(c, x)
            &&& forall|x: u32, k: int| #![trigger out.contains(x), v.out_neighbors(x)[k]]
                out.contains(x) && (!vis.contains(x) || x == node) && 0 <= k < v.out_neighbors(x).len()
                ==> out.contains(v.out_neighbors(x)[k])
        }),
    decreases fuel, 1nat, 0nat,
{
    let nbrs = v.out_neighbors(node);
    assert forall|k: int| 0 <= k < nbrs.len() implies v.nodes.contains_key(#[trigger] nbrs[k]) by {
        let e = v.nodes[node].1[k];
        assert(v.edges.contains_key(e));
        assert(nbrs[k] == v.edges[e].1);
    }
    lemma_children_close(v, vis, nbrs, 0, row, col, fuel);
    let (cs, out) = walk_children(v, vis, nbrs, 0, row, col, fuel);
    let c = seq![Cell { node, row, col }] + cs;
    assert forall|x: u32| #[trigger] out.contains(x) && !vis.contains(x) implies has_cell(c, x) by {
        let j = choose|j: int| 0 <= j < cs.len() && #[trigger] cs[j].node == x;
        assert(c[j + 1] == cs[j]);
    }
    assert forall|x: u32, k: int| #![trigger out.contains(x), v.out_neighbors(x)[k]]
        out.contains(x) && (!vis.contains(x) || x == node) && 0 <= k < v.out_neighbors(x).len()
        implies out.contains(v.out_neighbors(x)[k]) by {
        if x == node {
            assert(out.contains(nbrs[k]));
        }
    }
}

/// The layout of the first `k` roots visits those roots, gives a cell to
/// every node it visits, and visits every child of a node it visits.
proof fn lemma_layout_prefix_closes(v: GraphView, roots: Seq<u32>, k: nat)
    requires
        v.wf(),
        source_order(v, roots),
        k <= roots.len(),
    ensures
        ({
            let (c, out) = layout_prefix(v, roots, k);
            &&& forall|m: int| 0 <= m < k ==> out.contains(#[trigger] roots[m])
            &&& forall|x: u32| #[trigger] out.contains(x) ==> has_cell(c, x)
            &&& forall|x: u32, i: int| #![trigger out.contains(x), v.out_neighbors(x)[i]]
                out.contains(x) && 0 <= i < v.out_neighbors(x).len() ==> out.contains(v.out_neighbors(x)[i])
        }),
    decreases k,
{
    if k > 0 {
        let km = (k - 1) as nat;
        lemma_layout_prefix_closes(v, roots, km);
        let (c0, out0) = layout_prefix(v, roots, km);
        let r = roots[km as int];
        assert(roots.contains(r));
        let vi = out0.insert(r);
        vstd::set_lib::lemma_len_subset(v.nodes.dom().difference(vi), v.nodes.dom());
        lemma_walk_closes(v, vi, r, 0, km, v.nodes.len());
        let (c1, out1) = walk(v, vi, r, 0, km, v.nodes.len());
        let c = c0 + c1;
        assert(layout_prefix(v, roots, k) == (c, out1));
        assert forall|m: int| 0 <= m < k implies out1.contains(#[trigger] roots[m]) by {
            if m < km {
                assert(out0.contains(roots[m]));
            }
        }
        assert forall|x: u32| #[trigger] out1.contains(x) implies has_cell(c, x) by {
            if out0.contains(x) {
                let j = choose|j: int| 0 <= j < c0.len() && #[trigger] c0[j].node == x;
                assert(c[j] == c0[j]);
            } else if x == r {
                assert(c[c0.len() as int] == c1[0]);
            } else {
                let j = choose|j: int| 0 <= j < c1.len() && #[trigger] c1[j].node == x;
                assert(c[c0.len() + j] == c1[j]);
            }
        }
        assert forall|x: u32, i: int| #![trigger out1.contains(x), v.out_neighbors(x)[i]]
            out1.contains(x) && 0 <= i < v.out_neighbors(x).len() implies out1.contains(v.out_neighbors(x)[i]) by {
            if out0.contains(x) {
                assert(out0.contains(v.out_neighbors(x)[i]));
            }
        }
    }
}

/// The layout places every node that a source reaches: every source has a
/// cell, and so has every child of a node that has one.
pub proof fn law_layout_places_descendants(v: GraphView, roots: Seq<u32>)
    requires
        v.wf(),
        source_order(v, roots),
    ensures
        forall|n: u32| #[trigger] v.is_source(n) ==> has_cell(layout_cells(v, roots), n),
        forall|n: u32, i: int| #![trigger has_cell(layout_cells(v, roots), n), v.out_neighbors(n)[i]]
            has_cell(layout_cells(v, roots), n) && 0 <= i < v.out_neighbors(n).len()
            ==> has_cell(layout_cells(v, roots), v.out_neighbors(n)[i]),
{
    lemma_layout_prefix_closes(v, roots, roots.len());
    lemma_layout_prefix_places_once(v, roots, roots.len());
    let (c, out) = layout_prefix(v, roots, roots.len());
    assert forall|n: u32| #[trigger] v.is_source(n) implies has_cell(c, n) by {
        assert(roots.contains(n));
        let m = choose|m: int| 0 <= m < roots.len() && roots[m] == n;
        assert(out.contains(roots[m]));
    }
    assert forall|n: u32, i: int| #![trigger has_cell(c, n), v.out_neighbors(n)[i]]
        has_cell(c, n) && 0 <= i < v.out_neighbors(n).len() implies has_cell(c, v.out_neighbors(n)[i]) by {
        let j = choose|j: int| 0 <= j < c.len() && #[trigger] c[j].node == n;
        assert(out.contains(c[j].node));
        assert(out.contains(v.out_neighbors(n)[i]));
    }
}

/// `b` is one of the children of `a`.
pub open spec fn child_of(v: GraphView, a: u32, b: u32) -> bool {
    exists|i: int| 0 <= i < v.out_neighbors(a).len() && #[trigger] v.out_neighbors(a)[i] == b
}

/// Each cell of the trees below `nbrs[i..]` is one of those neighbors or a
/// child of the node of an earlier cell.
proof fn lemma_children_parented(v: GraphView, vis: Set<u32>, nbrs: Seq<u32>, i: nat, row: nat, col: nat, fuel: nat)
    ensures
        ({
            let c = walk_children(v, vis, nbrs, i, row, col, fuel).0;
            forall|j: int| #![trigger c[j]] 0 <= j < c.len() ==> {
                ||| exists|k: int| i <= k < nbrs.len() && #[trigger] nbrs[k] == c[j].node
                ||| exists|l: int| 0 <= l < j && #[trigger] child_of(v, c[l].node, c[j].node)
            }
        }),
    decreases fuel, 0nat, nbrs.len() - i,
{
    if i >= nbrs.len() {
    } else if vis.contains(nbrs[i as int]) || fuel == 0 {
        lemma_children_parented(v, vis, nbrs, i + 1, row, col, fuel);
        let c = walk_children(v, vis, nbrs, i, row, col, fuel).0;
        assert(c == walk_children(v, vis, nbrs, i + 1, row, col, fuel).0);
        assert forall|j: int| #![trigger c[j]] 0 <= j < c.len() implies {
            ||| exists|k: int| i <= k < nbrs.len() && #[trigger] nbrs[k] == c[j].node
            ||| exists|l: int| 0 <= l < j && #[trigger] child_of(v, c[l].node, c[j].node)
        } by {
            if exists|k: int| i + 1 <= k < nbrs.len() && #[trigger] nbrs[k] == c[j].node {
                let k = choose|k: int| i + 1 <= k < nbrs.len() && #[trigger] nbrs[k] == c[j].node;
                assert(i <= k);
            }
        }
    } else {
        let nb = nbrs[i as int];
        let f1 = (fuel - 1) as nat;
        let (c1, vis1) = walk(v, vis.insert(nb), nb, row + 1, col + i, f1);
        assert(c1[0].node == nb);
        lemma_children_parented(v, vis1, nbrs, i + 1, row, col, fuel);
        let c2 = walk_children(v, vis1, nbrs, i + 1, row, col, fuel).0;
        let c = walk_children(v, vis, nbrs, i, row, col, fuel).0;
        assert(c =~= c1 + c2);
        assert forall|j: int| #![trigger c[j]] 0 <= j < c.len() implies {
            ||| exists|k: int| i <= k < nbrs.len() && #[trigger] nbrs[k] == c[j].node
            ||| exists|l: int| 0 <= l < j && #[trigger] child_of(v, c[l].node, c[j].node)
        } by {
            if j < c1.len() {
                assert(c[j] == c1[j]);
                if j == 0 {
                    assert(nbrs[i as int] == c[j].node);
                    assert(i <= i < nbrs.len());
                } else {
                    let l = lemma_walk_cell_parent(v, vis.insert(nb), nb, row + 1, col + i, f1, j);
                    assert(c[l] == c1[l]);
                    assert(child_of(v, c[l].node, c[j].node));
                }
            } else {
                let j2 = j - c1.len();
                assert(c[j] == c2[j2]);
                if exists|l: int| 0 <= l < j2 && #[trigger] child_of(v, c2[l].node, c2[j2].node) {
                    let l = choose|l: int| 0 <= l < j2 && #[trigger] child_of(v, c2[l].node, c2[j2].node);
                    assert(c[c1.len() + l] == c2[l]);
                    assert(child_of(v, c[c1.len() + l].node, c[j].node));
                } else {
                    let k = choose|k: int| i + 1 <= k < nbrs.len() && #[trigger] nbrs[k] == c2[j2].node;
                    assert(nbrs[k] == c[j].node);
                }
            }
        }
    }
}

/// The parent cell of cell `j` (after the first) of the tree below `node`:
/// an earlier cell whose node has the node of cell `j` as a child.
proof fn lemma_walk_cell_parent(v: GraphView, vis: Set<u32>, node: u32, row: nat, col: nat, fuel: nat, j: int) -> (l: int)
    requires
        1 <= j < walk(v, vis, node, row, col, fuel).0.len(),
    ensures
        0 <= l < j,
        child_of(v, walk(v, vis, node, row, col, fuel).0[l].node, walk(v, vis, node, row, col, fuel).0[j].node),
    decreases fuel, 1nat, 0nat,
{
    let nbrs = v.out_neighbors(node);
    lemma_children_parented(v, vis, nbrs, 0, row, col, fuel);
    let cs = walk_children(v, vis, nbrs, 0, row, col, fuel).0;
    let c = walk(v, vis, node, row, col, fuel).0;
    assert(c =~= seq![Cell { node, row, col }] + cs);
    assert(c[j] == cs[j - 1]);
    if exists|k: int| 0 <= k < nbrs.len() && #[trigger] nbrs[k] == cs[j - 1].node {
        let k = choose|k: int| 0 <= k < nbrs.len() && #[trigger] nbrs[k] == cs[j - 1].node;
        assert(v.out_neighbors(c[0].node)[k] == c[j].node);
        0
    } else {
        let l = choose|l: int| 0 <= l < j - 1 && #[trigger] child_of(v, cs[l].node, cs[j - 1].node);
        assert(c[l + 1] == cs[l]);
        l + 1
    }
}

/// Each cell of the layout of the first `k` roots is a source's or a child
/// of the node of an earlier cell.
proof fn lemma_layout_prefix_parented(v: GraphView, roots: Seq<u32>, k: nat)
    requires
        source_order(v, roots),
        k <= roots.len(),
    ensures
        ({
            let c = layout_prefix(v, roots, k).0;
            forall|j: int| #![trigger c[j]] 0 <= j < c.len() ==> {
                ||| v.is_source(c[j].node)
                ||| exists|l: int| 0 <= l < j && #[trigger] child_of(v, c[l].node, c[j].node)
            }
        }),
    decreases k,
{
    if k > 0 {
        let km = (k - 1) as nat;
        lemma_layout_prefix_parented(v, roots, km);
        let (c0, out0) = layout_prefix(v, roots, km);
        let r = roots[km as int];
        assert(roots.contains(r));
        let c1 = walk(v, out0.insert(r), r, 0, km, v.nodes.len()).0;
        assert(c1[0].node == r);
        let c = c0 + c1;
        assert(layout_prefix(v, roots, k).0 == c);
        assert forall|j: int| #![trigger c[j]] 0 <= j < c.len() implies {
            ||| v.is_source(c[j].node)
            ||| exists|l: int| 0 <= l < j && #[trigger] child_of(v, c[l].node, c[j].node)
        } by {
            if j < c0.len() {
                assert(c[j] == c0[j]);
                if !v.is_source(c[j].node) {
                    let l = choose|l: int| 0 <= l < j && #[trigger] child_of(v, c0[l].node, c0[j].node);
                    assert(c[l] == c0[l]);
                }
            } else {
                let j1 = j - c0.len();
                assert(c[j] == c1[j1]);
                if j1 > 0 {
                    let l = lemma_walk_cell_parent(v, out0.insert(r), r, 0, km, v.nodes.len(), j1);
                    assert(c[c0.len() + l] == c1[l]);
                    assert(child_of(v, c[c0.len() + l].node, c[j].node));
                }
            }
        }
    }
}

/// The layout places only nodes that a source reaches: each cell is a
/// source's, or a child of the node of an earlier cell.
pub proof fn law_layout_places_only_descendants(v: GraphView, roots: Seq<u32>)
    requires
        source_order(v, roots),
    ensures
        forall|j: int| #![trigger layout_cells(v, roots)[j]] 0 <= j < layout_cells(v, roots).len() ==> {
            ||| v.is_source(layout_cells(v, roots)[j].node)
            ||| exists|l: int| 0 <= l < j
                && #[trigger] child_of(v, layout_cells(v, roots)[l].node, layout_cells(v, roots)[j].node)
        },
{
    lemma_layout_prefix_parented(v, roots, roots.len());
}

/// Cell `c` is put under cell `p` as the `(c.col - p.col)`-th child of
/// `p`'s node: one row below, as many columns to the right as the child's
/// position among the node's outgoing neighbors.
pub open spec fn placed_under(v: GraphView, p: Cell, c: Cell) -> bool {
    &&& c.row == p.row + 1
    &&& p.col <= c.col
    &&& c.col - p.col < v.out_neighbors(p.node).len()
    &&& v.out_neighbors(p.node)[c.col - p.col] == c.node
}

/// Each cell of the trees below `nbrs[i..]`, laid out under a node placed at
/// `(row, col)`, is the `k`-th neighbor at `(row + 1, col + k)`, or placed
/// under an earlier cell.
proof fn lemma_children_positioned(v: GraphView, vis: Set<u32>, nbrs: Seq<u32>, i: nat, row: nat, col: nat, fuel: nat)
    ensures
        ({
            let c = walk_children(v, vis, nbrs, i, row, col, fuel).0;
            forall|j: int| #![trigger c[j]] 0 <= j < c.len() ==> {
                ||| exists|k: int| i <= k < nbrs.len() && #[trigger] nbrs[k] == c[j].node
                    && c[j].row == row + 1 && c[j].col == col + k
                ||| exists|l: int| 0 <= l < j && #[trigger] placed_under(v, c[l], c[j])
            }
        }),
    decreases fuel, 0nat, nbrs.len() - i,
{
    if i >= nbrs.len() {
    } else if vis.contains(nbrs[i as int]) || fuel == 0 {
        lemma_children_positioned(v, vis, nbrs, i + 1, row, col, fuel);
        let c = walk_children(v, vis, nbrs, i, row, col, fuel).0;
        assert(c == walk_children(v, vis, nbrs, i + 1, row, col, fuel).0);
        assert forall|j: int| #![trigger c[j]] 0 <= j < c.len() implies {
            ||| exists|k: int| i <= k < nbrs.len() && #[trigger] nbrs[k] == c[j].node
                && c[j].row == row + 1 && c[j].col == col + k
            ||| exists|l: int| 0 <= l < j && #[trigger] placed_under(v, c[l], c[j])
        } by {
            if exists|k: int| i + 1 <= k < nbrs.len() && #[trigger] nbrs[k] == c[j].node
                && c[j].row == row + 1 && c[j].col == col + k {
                let k = choose|k: int| i + 1 <= k < nbrs.len() && #[trigger] nbrs[k] == c[j].node
                    && c[j].row == row + 1 && c[j].col == col + k;
                assert(i <= k);
            }
        }
    } else {
        let nb = nbrs[i as int];
        let f1 = (fuel - 1) as nat;
        let (c1, vis1) = walk(v, vis.insert(nb), nb, row + 1, col + i, f1);
        assert(c1[0] == Cell { node: nb, row: row + 1, col: col + i });
        lemma_children_positioned(v, vis1, nbrs, i + 1, row, col, fuel);
        let c2 = walk_children(v, vis1, nbrs, i + 1, row, col, fuel).0;
        let c = walk_children(v, vis, nbrs, i, row, col, fuel).0;
        assert(c =~= c1 + c2);
        assert forall|j: int| #![trigger c[j]] 0 <= j < c.len() implies {
            ||| exists|k: int| i <= k < nbrs.len() && #[trigger] nbrs[k] == c[j].node
                && c[j].row == row + 1 && c[j].col == col + k
            ||| exists|l: int| 0 <= l < j && #[trigger] placed_under(v, c[l], c[j])
        } by {
            if j < c1.len() {
                assert(c[j] == c1[j]);
                if j == 0 {
                    assert(nbrs[i as int] == c[j].node && c[j].row == row + 1 && c[j].col == col + i);
                } else {
                    let l = lemma_walk_cell_under(v, vis.insert(nb), nb, row + 1, col + i, f1, j);
                    assert(c[l] == c1[l]);
                    assert(placed_under(v, c[l], c[j]));
                }
            } else {
                let j2 = j - c1.len();
                assert(c[j] == c2[j2]);
                if exists|l: int| 0 <= l < j2 && #[trigger] placed_under(v, c2[l], c2[j2]) {
                    let l = choose|l: int| 0 <= l < j2 && #[trigger] placed_under(v, c2[l], c2[j2]);
                    assert(c[c1.len() + l] == c2[l]);
                    assert(placed_under(v, c[c1.len() + l], c[j]));
                } else {
                    let k = choose|k: int| i + 1 <= k < nbrs.len() && #[trigger] nbrs[k] == c2[j2].node
                        && c2[j2].row == row + 1 && c2[j2].col == col + k;
                    assert(nbrs[k] == c[j].node && c[j].row == row + 1 && c[j].col == col + k);
                }
            }
        }
    }
}

/// The cell that cell `j` (after the first) of the tree below `node` is
/// placed under.
proof fn lemma_walk_cell_under(v: GraphView, vis: Set<u32>, node: u32, row: nat, col: nat, fuel: nat, j: int) -> (l: int)
    requires
        1 <= j < walk(v, vis, node, row, col, fuel).0.len(),
    ensures
        0 <= l < j,
        placed_under(v, walk(v, vis, node, row, col, fuel).0[l], walk(v, vis, node, row, col, fuel).0[j]),
    decreases fuel, 1nat, 0nat,
{
    let nbrs = v.out_neighbors(node);
    lemma_children_positioned(v, vis, nbrs, 0, row, col, fuel);
    let cs = walk_children(v, vis, nbrs, 0, row, col, fuel).0;
    let c = walk(v, vis, node, row, col, fuel).0;
    assert(c =~= seq![Cell { node, row, col }] + cs);
    assert(c[j] == cs[j - 1]);
    if exists|k: int| 0 <= k < nbrs.len() && #[trigger] nbrs[k] == cs[j - 1].node
        && cs[j - 1].row == row + 1 && cs[j - 1].col == col + k {
        let k = choose|k: int| 0 <= k < nbrs.len() && #[trigger] nbrs[k] == cs[j - 1].node
            && cs[j - 1].row == row + 1 && cs[j - 1].col == col + k;
        assert(c[0] == Cell { node, row, col });
        assert(c[j].col - c[0].col == k);
        assert(placed_under(v, c[0], c[j]));
        0
    } else {
        let l = choose|l: int| 0 <= l < j - 1 && #[trigger] placed_under(v, cs[l], cs[j - 1]);
        assert(c[l + 1] == cs[l]);
        l + 1
    }
}

/// Each cell of the layout of the first `k` roots is root `m`'s cell at row
/// 0, column `m`, or placed under an earlier cell.
proof fn lemma_layout_prefix_positioned(v: GraphView, roots: Seq<u32>, k: nat)
    requires
        k <= roots.len(),
    ensures
        ({
            let c = layout_prefix(v, roots, k).0;
            forall|j: int| #![trigger c[j]] 0 <= j < c.len() ==> {
                ||| c[j].row == 0 && c[j].col < roots.len() && roots[c[j].col as int] == c[j].node
                ||| exists|l: int| 0 <= l < j && #[trigger] placed_under(v, c[l], c[j])
            }
        }),
    decreases k,
{
    if k > 0 {
        let km = (k - 1) as nat;
        lemma_layout_prefix_positioned(v, roots, km);
        let (c0, out0) = layout_prefix(v, roots, km);
        let r = roots[km as int];
        let c1 = walk(v, out0.insert(r), r, 0, km, v.nodes.len()).0;
        assert(c1[0] == Cell { node: r, row: 0, col: km });
        let c = c0 + c1;
        assert(layout_prefix(v, roots, k).0 == c);
        assert forall|j: int| #![trigger c[j]] 0 <= j < c.len() implies {
            ||| c[j].row == 0 && c[j].col < roots.len() && roots[c[j].col as int] == c[j].node
            ||| exists|l: int| 0 <= l < j && #[trigger] placed_under(v, c[l], c[j])
        } by {
            if j < c0.len() {
                assert(c[j] == c0[j]);
                if exists|l: int| 0 <= l < j && #[trigger] placed_under(v, c0[l], c0[j]) {
                    let l = choose|l: int| 0 <= l < j && #[trigger] placed_under(v, c0[l], c0[j]);
                    assert(c[l] == c0[l]);
                    assert(placed_under(v, c[l], c[j]));
                }
            } else {
                let j1 = j - c0.len();
                assert(c[j] == c1[j1]);
                if j1 > 0 {
                    let l = lemma_walk_cell_under(v, out0.insert(r), r, 0, km, v.nodes.len(), j1);
                    assert(c[c0.len() + l] == c1[l]);
                    assert(placed_under(v, c[c0.len() + l], c[j]));
                }
            }
        }
    }
}

/// Where the layout puts each node: the `m`-th source at row 0, column `m`;
/// every other cell one row below an earlier cell and as many columns to its
/// right as the position of its node among the outgoing neighbors of that
/// cell's node. So a child at position `i` of a node at `(row, col)`, when
/// placed under it, is at `(row + 1, col + i)`, and two children of one node
/// placed under the same cell never share a column.
pub proof fn law_layout_positions(v: GraphView, roots: Seq<u32>)
    ensures
        forall|j: int| #![trigger layout_cells(v, roots)[j]] 0 <= j < layout_cells(v, roots).len() ==> {
            ||| layout_cells(v, roots)[j].row == 0 && layout_cells(v, roots)[j].col < roots.len()
                && roots[layout_cells(v, roots)[j].col as int] == layout_cells(v, roots)[j].node
            ||| exists|l: int| 0 <= l < j
                && #[trigger] placed_under(v, layout_cells(v, roots)[l], layout_cells(v, roots)[j])
        },
{
    lemma_layout_prefix_positioned(v, roots, roots.len());
}
} // verus!
