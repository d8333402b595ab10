//! The move-sequence catalogue and the state graph.
//!
//! The catalogue maps a label `<ply>_<variant>` to the move sequence that
//! reaches that ply count along one scripted line of play.  The graph has a
//! node per catalogue entry and a directed edge wherever one entry's
//! sequence extends another's by exactly one move.

use vstd::prelude::*;

verus! {

/// Which player made a move.  The machine always opens.
#[derive(Debug, Clone, Copy, PartialEq, Eq, Structural)]
pub enum Player {
    Machine,
    Human,
}

/// A single move: `player` took cell `idx` of the 3x3 board (row-major,
/// 0 = top-left, 8 = bottom-right).
#[derive(Debug, Clone, Copy, PartialEq, Eq, Structural)]
pub struct Tile {
    pub idx: usize,
    pub player: Player,
}

impl Tile {
    pub fn new(idx: usize, player: Player) -> (t: Tile)
        ensures
            t == (Tile { idx, player }),
    {
        Tile { idx, player }
    }
}

/// Names one catalogue entry: the state after `ply` moves, along scripted
/// line `variant`.  Written `<ply>_<variant>`, e.g. `4_2`.
#[derive(Debug, Clone, Copy, PartialEq, Eq, Structural)]
pub struct StateLabel {
    pub ply: u8,
    pub variant: u8,
}

/// One catalogue entry: a labelled move sequence.
#[derive(Debug, Clone)]
pub struct StateEntry {
    pub label: StateLabel,
    pub steps: Vec<Tile>,
}

/// The player whose turn it is at ply `k` (the machine opens, so even plies
/// are machine moves).
pub open spec fn turn_player(k: int) -> Player {
    if k % 2 == 0 {
        Player::Machine
    } else {
        Player::Human
    }
}

/// The move sequence along one scripted line, given only its cells: players
/// strictly alternate, machine first.
pub open spec fn line_tiles(cells: Seq<u8>) -> Seq<Tile> {
    Seq::new(cells.len(), |k: int| Tile { idx: cells[k] as usize, player: turn_player(k) })
}

/// The cells of the scripted lines of play, in move order.  Each line is a
/// complete game in which the machine wins; the catalogue holds every prefix
/// of every line.  Lines 0 to 4 open at the centre, lines 5 to 9 at the
/// top-left corner.
pub open spec fn script_cells() -> Seq<Seq<u8>> {
    seq![
        seq![4u8, 0, 2, 8, 6],
        seq![4u8, 0, 2, 6, 8, 3, 5],
        seq![4u8, 8, 0, 2, 3, 5, 6],
        seq![4u8, 8, 0, 1, 2, 7, 6],
        seq![4u8, 0, 2, 6, 8, 5, 1, 3, 7],
        seq![0u8, 4, 2, 5, 1],
        seq![0u8, 4, 2, 1, 3, 5, 6],
        seq![0u8, 8, 1, 4, 2],
        seq![0u8, 8, 1, 2, 4, 6, 7],
        seq![0u8, 4, 2, 1, 3, 6, 5, 7, 8],
    ]
}

/// The catalogue entries contributed by scripted line `v`: one entry per
/// nonempty prefix, labelled `<prefix length>_<v>`.
pub open spec fn line_entries(v: int) -> Seq<(StateLabel, Seq<Tile>)> {
    Seq::new(
        script_cells()[v].len(),
        |n: int|
            (
                StateLabel { ply: (n + 1) as u8, variant: v as u8 },
                line_tiles(script_cells()[v]).take(n + 1),
            ),
    )
}

/// The catalogue restricted to the root entry plus the first `v` scripted
/// lines.
pub open spec fn catalogue_upto(v: int) -> Seq<(StateLabel, Seq<Tile>)>
    decreases v,
{
    if v <= 0 {
        seq![(StateLabel { ply: 0u8, variant: 0u8 }, Seq::<Tile>::empty())]
    } else {
        catalogue_upto(v - 1) + line_entries(v - 1)
    }
}

/// The whole catalogue: the empty root state plus every prefix of every
/// scripted line.
pub open spec fn catalogue() -> Seq<(StateLabel, Seq<Tile>)> {
    catalogue_upto(script_cells().len() as int)
}

/// The view of a built entry list: label and sequence of each entry.
pub open spec fn entries_view(s: Seq<StateEntry>) -> Seq<(StateLabel, Seq<Tile>)> {
    s.map_values(|e: StateEntry| (e.label, e.steps@))
}

/// One entry's sequence reaches the other's state one move later: `b` is
/// `a` plus exactly one further move.
pub open spec fn extends_rel(a: Seq<Tile>, b: Seq<Tile>) -> bool {
    b.len() == a.len() + 1 && b.take(a.len() as int) == a
}

/// A graph node's payload: the entry's label packed into one integer.  The
/// packing is injective for the label bounds the catalogue keeps.
pub open spec fn encode_label(l: StateLabel) -> u64 {
    ((l.ply as int) * 100 + (l.variant as int)) as u64
}

// ---------------------------------------------------------------------------
// The state graph is held in a petgraph directed graph, reached through the
// trusted declarations below.  `graph_nodes` names the node payloads in
// index order; `graph_edge_list` names the directed edges in the order they
// were added.
// ---------------------------------------------------------------------------

#[verifier::external_type_specification]
#[verifier::external_body]
#[verifier::reject_recursive_types(N)]
#[verifier::reject_recursive_types(E)]
#[verifier::reject_recursive_types(Ty)]
#[verifier::reject_recursive_types(Ix)]
pub struct ExGraph<N, E, Ty, Ix>(petgraph::graph::Graph<N, E, Ty, Ix>);

#[verifier::external_type_specification]
#[verifier::external_body]
pub struct ExDirected(petgraph::Directed);

/// The node payloads of a state graph, in node-index order.
pub uninterp spec fn graph_nodes(g: petgraph::graph::Graph<u64, ()>) -> Seq<u64>;

/// The directed edges of a state graph, as (source index, target index), in
/// the order they were added.
pub uninterp spec fn graph_edge_list(g: petgraph::graph::Graph<u64, ()>) -> Seq<(usize, usize)>;

/// Relies on petgraph::Graph::new: creates a graph with no nodes and no
/// edges.
#[verifier::external_body]
fn graph_new() -> (g: petgraph::graph::Graph<u64, ()>)
    ensures
        graph_nodes(g) == Seq::<u64>::empty(),
        graph_edge_list(g) == Seq::<(usize, usize)>::empty(),
{
    petgraph::graph::Graph::new()
}

/// Relies on petgraph::Graph::add_node: appends one node, whose index is
/// the previous node count.
#[verifier::external_body]
fn graph_add_node(g: &mut petgraph::graph::Graph<u64, ()>, w: u64) -> (i: usize)
    requires
        graph_nodes(*old(g)).len() < 0xffff_ffff,
    ensures
        graph_nodes(*final(g)) == graph_nodes(*old(g)).push(w),
        graph_edge_list(*final(g)) == graph_edge_list(*old(g)),
        i == graph_nodes(*old(g)).len(),
{
    g.add_node(w).index()
}

/// Relies on petgraph::Graph::add_edge: appends one directed edge from `a`
/// to `b`.
#[verifier::external_body]
fn graph_add_edge(g: &mut petgraph::graph::Graph<u64, ()>, a: usize, b: usize)
    requires
        a < graph_nodes(*old(g)).len(),
        b < graph_nodes(*old(g)).len(),
        graph_edge_list(*old(g)).len() < 0xffff_ffff,
    ensures
        graph_nodes(*final(g)) == graph_nodes(*old(g)),
        graph_edge_list(*final(g)) == graph_edge_list(*old(g)).push((a, b)),
{
    g.add_edge(
        petgraph::graph::NodeIndex::new(a),
        petgraph::graph::NodeIndex::new(b),
        (),
    );
}

/// Relies on petgraph::Graph::node_count: the number of nodes.
#[verifier::external_body]
pub(crate) fn graph_node_count(g: &petgraph::graph::Graph<u64, ()>) -> (n: usize)
    ensures
        n == graph_nodes(*g).len(),
{
    g.node_count()
}

/// Relies on petgraph::Graph::node_weight: the payload of node `i`.
#[verifier::external_body]
pub(crate) fn graph_node_weight(g: &petgraph::graph::Graph<u64, ()>, i: usize) -> (w: u64)
    requires
        i < graph_nodes(*g).len(),
    ensures
        w == graph_nodes(*g)[i as int],
{
    *g.node_weight(petgraph::graph::NodeIndex::new(i)).unwrap()
}

/// Relies on petgraph::Graph::neighbors: iterates the targets of the
/// outgoing edges of `a`.  Stated both ways: everything returned is an edge
/// target of `a`, and every edge target of `a` is returned.
#[verifier::external_body]
pub(crate) fn graph_neighbors(g: &petgraph::graph::Graph<u64, ()>, a: usize) -> (r: Vec<usize>)
    requires
        a < graph_nodes(*g).len(),
    ensures
        forall|x: int| 0 <= x < r@.len() ==> graph_edge_list(*g).contains((a, #[trigger] r@[x])),
        forall|b: usize| #[trigger] graph_edge_list(*g).contains((a, b)) ==> r@.contains(b),
{
    g.neighbors(petgraph::graph::NodeIndex::new(a)).map(|n| n.index()).collect()
}

/// An entry is well formed: the label's ply count equals the sequence
/// length, both label fields stay small, and the players alternate with the
/// machine moving first.
pub open spec fn entry_wf(e: (StateLabel, Seq<Tile>)) -> bool {
    &&& e.1.len() == e.0.ply
    &&& e.0.ply <= 9
    &&& e.0.variant < 10
    &&& forall|j: int| 0 <= j < e.1.len() ==> (#[trigger] e.1[j]).player == turn_player(j)
}

proof fn lemma_catalogue_upto_wf(v: int)
    requires
        0 <= v <= script_cells().len(),
    ensures
        catalogue_upto(v).len() >= 1,
        catalogue_upto(v)[0] == (StateLabel { ply: 0u8, variant: 0u8 }, Seq::<Tile>::empty()),
        forall|k: int|
            0 <= k < catalogue_upto(v).len() ==> entry_wf(#[trigger] catalogue_upto(v)[k]),
        forall|k: int|
            1 <= k < catalogue_upto(v).len() ==> (#[trigger] catalogue_upto(v)[k]).0.ply >= 1
                && catalogue_upto(v)[k].0.variant < v,
        forall|k: int, l: int|
            0 <= k < l < catalogue_upto(v).len() ==> (#[trigger] catalogue_upto(v)[k]).0 != (
            #[trigger] catalogue_upto(v)[l]).0,
    decreases v,
{
    lemma_script_lens();
    if v > 0 {
        lemma_catalogue_upto_wf(v - 1);
        let old_part = catalogue_upto(v - 1);
        let new_part = line_entries(v - 1);
        let whole = catalogue_upto(v);
        let lc = script_cells()[v - 1];
        assert(whole == old_part + new_part);
        assert forall|n: int| 0 <= n < new_part.len() implies entry_wf(#[trigger] new_part[n])
            && new_part[n].0.ply == n + 1 && new_part[n].0.variant == v - 1 by {
            assert(new_part[n].1 =~= line_tiles(lc).take(n + 1));
            assert(new_part[n].1.len() == n + 1);
        }
        assert forall|k: int, l: int|
            0 <= k < l < whole.len() implies (#[trigger] whole[k]).0 != (#[trigger] whole[l]).0 by {
            if l >= old_part.len() {
                assert(whole[l] == new_part[l - old_part.len()]);
                if k >= old_part.len() {
                    assert(whole[k] == new_part[k - old_part.len()]);
                } else if k == 0 {
                    assert(whole[k].0.ply == 0);
                } else {
                    assert(whole[k].0.variant < v - 1);
                }
            }
        }
    }
}

/// Catalogue well-formedness: a label `<n>_<i>` always maps to a sequence
/// of exactly `n` moves, the players of which alternate starting with the
/// machine; and no two entries carry the same label.
pub proof fn lemma_catalogue_wf()
    ensures
        catalogue().len() >= 1,
        catalogue().len() <= 91,
        catalogue()[0] == (StateLabel { ply: 0u8, variant: 0u8 }, Seq::<Tile>::empty()),
        forall|k: int| 0 <= k < catalogue().len() ==> entry_wf(#[trigger] catalogue()[k]),
        forall|k: int, l: int|
            0 <= k < l < catalogue().len() ==> (#[trigger] catalogue()[k]).0 != (
            #[trigger] catalogue()[l]).0,
{
    lemma_catalogue_upto_wf(script_cells().len() as int);
    lemma_catalogue_upto_len(script_cells().len() as int);
}

/// The label packing is injective within the bounds the catalogue keeps.
pub proof fn lemma_encode_injective(l1: StateLabel, l2: StateLabel)
    requires
        l1.variant < 100,
        l2.variant < 100,
        encode_label(l1) == encode_label(l2),
    ensures
        l1 == l2,
{
}

/// Graph/catalogue consistency: wherever the graph has an edge — that is,
/// wherever `extends_rel` holds between two catalogue sequences — the deeper
/// sequence has exactly one more move than the shallower one and contains
/// every move of it.
pub proof fn lemma_edge_consistency(k: int, j: int)
    requires
        0 <= k < catalogue().len(),
        0 <= j < catalogue().len(),
        extends_rel(catalogue()[k].1, catalogue()[j].1),
    ensures
        catalogue()[j].1.len() == catalogue()[k].1.len() + 1,
        catalogue()[j].1.drop_last() == catalogue()[k].1,
        catalogue()[j].1.to_multiset() == catalogue()[k].1.to_multiset().insert(
            catalogue()[j].1.last(),
        ),
        forall|x: Tile|
            catalogue()[k].1.to_multiset().count(x) <= catalogue()[j].1.to_multiset().count(x),
{
    broadcast use vstd::seq_lib::group_to_multiset_ensures;
    broadcast use vstd::multiset::group_multiset_axioms;

    let a = catalogue()[k].1;
    let b = catalogue()[j].1;
    assert(b.drop_last() =~= a);
    assert(b =~= a.push(b.last()));
    assert(a.push(b.last()).to_multiset() =~= a.to_multiset().insert(b.last()));
}

/// How often cell `x` occurs among the first `n` cells of a list.
pub open spec fn count_cell_upto(c: Seq<u8>, x: u8, n: int) -> nat
    decreases n,
{
    if n <= 0 {
        0nat
    } else {
        count_cell_upto(c, x, n - 1) + if c[n - 1] == x {
            1nat
        } else {
            0nat
        }
    }
}

/// The first `n` cells of a list are legal: on the board, none repeated.
pub open spec fn cells_ok_upto(c: Seq<u8>, n: int) -> bool
    decreases n,
{
    if n <= 0 {
        true
    } else {
        cells_ok_upto(c, n - 1) && c[n - 1] < 9 && count_cell_upto(c, c[n - 1], n - 1) == 0
    }
}

/// A legal cell list: every cell on the board, no cell played twice.
pub open spec fn cells_ok(c: Seq<u8>) -> bool {
    cells_ok_upto(c, c.len() as int)
}

proof fn lemma_count_zero(c: Seq<u8>, x: u8, n: int)
    requires
        count_cell_upto(c, x, n) == 0,
    ensures
        forall|j: int| 0 <= j < n ==> c[j] != x,
    decreases n,
{
    if n > 0 {
        lemma_count_zero(c, x, n - 1);
    }
}

proof fn lemma_cells_ok_index_upto(c: Seq<u8>, n: int)
    requires
        cells_ok_upto(c, n),
        n <= c.len(),
    ensures
        forall|j: int| 0 <= j < n ==> c[j] < 9,
        forall|j: int, k: int| 0 <= j < k < n ==> c[j] != c[k],
    decreases n,
{
    if n > 0 {
        lemma_cells_ok_index_upto(c, n - 1);
        lemma_count_zero(c, c[n - 1], n - 1);
    }
}

proof fn lemma_cells_ok_index(c: Seq<u8>)
    requires
        cells_ok(c),
    ensures
        forall|j: int| 0 <= j < c.len() ==> c[j] < 9,
        forall|j: int, k: int| 0 <= j < k < c.len() ==> c[j] != c[k],
{
    lemma_cells_ok_index_upto(c, c.len() as int);
}

/// Every scripted line is a legal game: cells on the board, none played
/// twice.
proof fn lemma_script_cells_ok()
    ensures
        forall|v: int| 0 <= v < script_cells().len() ==> cells_ok(#[trigger] script_cells()[v]),
{
    assert forall|v: int|
        0 <= v < script_cells().len() implies cells_ok(#[trigger] script_cells()[v]) by {
        reveal_with_fuel(cells_ok_upto, 11);
        reveal_with_fuel(count_cell_upto, 11);
        assert(cells_ok(script_cells()[0]));
        assert(cells_ok(script_cells()[1]));
        assert(cells_ok(script_cells()[2]));
        assert(cells_ok(script_cells()[3]));
        assert(cells_ok(script_cells()[4]));
        assert(cells_ok(script_cells()[5]));
        assert(cells_ok(script_cells()[6]));
        assert(cells_ok(script_cells()[7]));
        assert(cells_ok(script_cells()[8]));
        assert(cells_ok(script_cells()[9]));
    }
}

/// An entry's cells are legal: on the board, and no cell played twice.
pub open spec fn entry_cells_wf(e: (StateLabel, Seq<Tile>)) -> bool {
    &&& forall|j: int| 0 <= j < e.1.len() ==> (#[trigger] e.1[j]).idx < 9
    &&& forall|j: int, k: int| 0 <= j < k < e.1.len() ==> e.1[j].idx != e.1[k].idx
}

/// Catalogue cell legality: every entry's moves lie on the board and no
/// entry plays a cell twice.
pub proof fn lemma_catalogue_cells()
    ensures
        forall|k: int| 0 <= k < catalogue().len() ==> entry_cells_wf(#[trigger] catalogue()[k]),
{
    lemma_script_cells_ok();
    lemma_catalogue_cells_upto(script_cells().len() as int);
}

proof fn lemma_catalogue_cells_upto(v: int)
    requires
        0 <= v <= script_cells().len(),
        forall|w: int| 0 <= w < script_cells().len() ==> cells_ok(#[trigger] script_cells()[w]),
    ensures
        forall|k: int|
            0 <= k < catalogue_upto(v).len() ==> entry_cells_wf(#[trigger] catalogue_upto(v)[k]),
    decreases v,
{
    if v > 0 {
        lemma_catalogue_cells_upto(v - 1);
        let old_part = catalogue_upto(v - 1);
        let new_part = line_entries(v - 1);
        let whole = catalogue_upto(v);
        let lc = script_cells()[v - 1];
        lemma_cells_ok_index(lc);
        assert(whole == old_part + new_part);
        assert forall|n: int| 0 <= n < new_part.len() implies entry_cells_wf(
            #[trigger] new_part[n],
        ) by {
            let s = new_part[n].1;
            assert(s =~= line_tiles(lc).take(n + 1));
            assert forall|j: int| 0 <= j < s.len() implies (#[trigger] s[j]).idx < 9 by {
                assert(s[j].idx == lc[j]);
            }
            assert forall|j: int, k: int| 0 <= j < k < s.len() implies s[j].idx != s[k].idx by {
                assert(s[j].idx == lc[j]);
                assert(s[k].idx == lc[k]);
            }
        }
        assert forall|k: int| 0 <= k < whole.len() implies entry_cells_wf(
            #[trigger] whole[k],
        ) by {
            if k < old_part.len() {
                assert(whole[k] == old_part[k]);
            } else {
                assert(whole[k] == new_part[k - old_part.len()]);
            }
        }
    }
}

/// A shorter catalogue stage is a prefix of every later one.
pub proof fn lemma_catalogue_upto_prefix(v: int, w: int)
    requires
        0 <= v <= w <= script_cells().len(),
    ensures
        catalogue_upto(v).len() <= catalogue_upto(w).len(),
        forall|k: int|
            0 <= k < catalogue_upto(v).len() ==> #[trigger] catalogue_upto(w)[k]
                == catalogue_upto(v)[k],
    decreases w - v,
{
    if v < w {
        lemma_catalogue_upto_prefix(v, w - 1);
    }
}

/// Every nonempty catalogue sequence opens with the machine at the centre
/// or the top-left corner.
pub proof fn lemma_catalogue_opening()
    ensures
        forall|k: int|
            0 <= k < catalogue().len() && (#[trigger] catalogue()[k]).1.len() > 0 ==> (
            catalogue()[k].1[0].idx == 4 || catalogue()[k].1[0].idx == 0),
{
    assert forall|v: int|
        0 <= v < script_cells().len() implies ((#[trigger] script_cells()[v])[0] == 4
        || script_cells()[v][0] == 0) by {
        assert(script_cells()[0][0] == 4);
        assert(script_cells()[1][0] == 4);
        assert(script_cells()[2][0] == 4);
        assert(script_cells()[3][0] == 4);
        assert(script_cells()[4][0] == 4);
        assert(script_cells()[5][0] == 0);
        assert(script_cells()[6][0] == 0);
        assert(script_cells()[7][0] == 0);
        assert(script_cells()[8][0] == 0);
        assert(script_cells()[9][0] == 0);
    }
    lemma_catalogue_opening_upto(script_cells().len() as int);
}

proof fn lemma_catalogue_opening_upto(v: int)
    requires
        0 <= v <= script_cells().len(),
        forall|w: int|
            0 <= w < script_cells().len() ==> ((#[trigger] script_cells()[w])[0] == 4
                || script_cells()[w][0] == 0),
    ensures
        forall|k: int|
            0 <= k < catalogue_upto(v).len() && (#[trigger] catalogue_upto(v)[k]).1.len() > 0 ==> (
            catalogue_upto(v)[k].1[0].idx == 4 || catalogue_upto(v)[k].1[0].idx == 0),
    decreases v,
{
    if v > 0 {
        lemma_catalogue_opening_upto(v - 1);
        let old_part = catalogue_upto(v - 1);
        let new_part = line_entries(v - 1);
        let whole = catalogue_upto(v);
        let lc = script_cells()[v - 1];
        assert(whole == old_part + new_part);
        assert forall|k: int|
            0 <= k < whole.len() && (#[trigger] whole[k]).1.len() > 0 implies (whole[k].1[0].idx
            == 4 || whole[k].1[0].idx == 0) by {
            if k < old_part.len() {
                assert(whole[k] == old_part[k]);
            } else {
                assert(whole[k] == new_part[k - old_part.len()]);
                assert(whole[k].1[0] == line_tiles(lc)[0]);
            }
        }
    }
}

/// A scripted continuation plays a new cell: the move it adds did not occur
/// in the anchor's sequence.
pub proof fn lemma_continuation_new_move(k: int, j: int)
    requires
        0 <= k < catalogue().len(),
        0 <= j < catalogue().len(),
        extends_rel(catalogue()[k].1, catalogue()[j].1),
    ensures
        !catalogue()[k].1.contains(catalogue()[j].1.last()),
{
    lemma_catalogue_cells();
    let a = catalogue()[k].1;
    let b = catalogue()[j].1;
    assert(b.drop_last() =~= a);
    if a.contains(b.last()) {
        let m = choose|m: int| 0 <= m < a.len() && a[m] == b.last();
        assert(b[m] == b.last());
        assert(b[m].idx != b[b.len() - 1].idx);
    }
}

/// Every scripted line fits on the board: at most nine moves.
proof fn lemma_script_lens()
    ensures
        forall|v: int|
            0 <= v < script_cells().len() ==> (#[trigger] script_cells()[v]).len() <= 9,
{
    assert forall|v: int|
        0 <= v < script_cells().len() implies (#[trigger] script_cells()[v]).len() <= 9 by {
        assert(script_cells()[0].len() == 5);
        assert(script_cells()[1].len() == 7);
        assert(script_cells()[2].len() == 7);
        assert(script_cells()[3].len() == 7);
        assert(script_cells()[4].len() == 9);
        assert(script_cells()[5].len() == 5);
        assert(script_cells()[6].len() == 7);
        assert(script_cells()[7].len() == 5);
        assert(script_cells()[8].len() == 7);
        assert(script_cells()[9].len() == 9);
    }
}

/// The scripted lines as runtime data, in the order of `script_cells`.
fn script_cells_exec() -> (r: Vec<Vec<u8>>)
    ensures
        r@.len() == script_cells().len(),
        forall|v: int| 0 <= v < r@.len() ==> (#[trigger] r@[v])@ == script_cells()[v],
{
    let r: Vec<Vec<u8>> = vec![
        vec![4u8, 0, 2, 8, 6],
        vec![4u8, 0, 2, 6, 8, 3, 5],
        vec![4u8, 8, 0, 2, 3, 5, 6],
        vec![4u8, 8, 0, 1, 2, 7, 6],
        vec![4u8, 0, 2, 6, 8, 5, 1, 3, 7],
        vec![0u8, 4, 2, 5, 1],
        vec![0u8, 4, 2, 1, 3, 5, 6],
        vec![0u8, 8, 1, 4, 2],
        vec![0u8, 8, 1, 2, 4, 6, 7],
        vec![0u8, 4, 2, 1, 3, 6, 5, 7, 8],
    ];
    proof {
        assert(r@[0]@ =~= script_cells()[0]);
        assert(r@[1]@ =~= script_cells()[1]);
        assert(r@[2]@ =~= script_cells()[2]);
        assert(r@[3]@ =~= script_cells()[3]);
        assert(r@[4]@ =~= script_cells()[4]);
        assert(r@[5]@ =~= script_cells()[5]);
        assert(r@[6]@ =~= script_cells()[6]);
        assert(r@[7]@ =~= script_cells()[7]);
        assert(r@[8]@ =~= script_cells()[8]);
        assert(r@[9]@ =~= script_cells()[9]);
    }
    r
}

/// The catalogue stays small: the root entry plus at most nine entries per
/// scripted line.
proof fn lemma_catalogue_upto_len(v: int)
    requires
        0 <= v <= script_cells().len(),
    ensures
        catalogue_upto(v).len() <= 1 + 9 * v,
    decreases v,
{
    lemma_script_lens();
    if v > 0 {
        lemma_catalogue_upto_len(v - 1);
    }
}

/// Checks whether `b` extends `a` by exactly one move.
fn extends_exec(a: &Vec<Tile>, b: &Vec<Tile>) -> (r: bool)
    ensures
        r == extends_rel(a@, b@),
{
    if b.len() < 1 || b.len() - 1 != a.len() {
        return false;
    }
    let mut i: usize = 0;
    while i < a.len()
        invariant
            b@.len() == a@.len() + 1,
            i <= a.len(),
            forall|k: int| 0 <= k < i ==> a@[k] == b@[k],
        decreases a.len() - i,
    {
        if a[i] != b[i] {
            proof {
                assert(b@.take(a@.len() as int)[i as int] != a@[i as int]);
            }
            return false;
        }
        i += 1;
    }
    proof {
        assert(b@.take(a@.len() as int) =~= a@);
    }
    true
}

/// The label packing, at runtime.
pub(crate) fn encode_exec(l: StateLabel) -> (w: u64)
    ensures
        w == encode_label(l),
{
    (l.ply as u64) * 100 + (l.variant as u64)
}

/// Membership in a pushed sequence.
proof fn lemma_push_contains<A>(s: Seq<A>, e: A, x: A)
    ensures
        s.push(e).contains(x) <==> (s.contains(x) || x == e),
{
    if s.contains(x) {
        let i = choose|i: int| 0 <= i < s.len() && s[i] == x;
        assert(s.push(e)[i] == x);
    }
    if x == e {
        assert(s.push(e)[s.len() as int] == x);
    }
    if s.push(e).contains(x) {
        let i = choose|i: int| 0 <= i < s.push(e).len() && s.push(e)[i] == x;
        if i < s.len() {
            assert(s[i] == x);
        }
    }
}

/// Copies a move sequence.
fn copy_steps(v: &Vec<Tile>) -> (r: Vec<Tile>)
    ensures
        r@ == v@,
{
    let mut r: Vec<Tile> = Vec::new();
    let mut i: usize = 0;
    while i < v.len()
        invariant
            i <= v.len(),
            r@ == v@.take(i as int),
        decreases v.len() - i,
    {
        proof {
            assert(v@.take(i + 1) =~= v@.take(i as int).push(v@[i as int]));
        }
        r.push(v[i]);
        i += 1;
    }
    proof {
        assert(v@.take(v@.len() as int) =~= v@);
    }
    r
}

/// The catalogue and the graph over it.
pub struct WinGraph {}

impl WinGraph {
    /// Builds the move-sequence catalogue: the empty root state plus, for
    /// each scripted line `v` and each prefix length `n`, an entry labelled
    /// `<n>_<v>` holding the line's first `n` moves.
    pub fn init_steps_map() -> (r: Vec<StateEntry>)
        ensures
            entries_view(r@) == catalogue(),
    {
        proof {
            lemma_script_lens();
        }
        let cells = script_cells_exec();
        let mut entries: Vec<StateEntry> = Vec::new();
        entries.push(StateEntry { label: StateLabel { ply: 0, variant: 0 }, steps: Vec::new() });
        proof {
            assert(entries_view(entries@) =~= catalogue_upto(0));
        }
        let mut v: usize = 0;
        while v < cells.len()
            invariant
                v <= cells.len(),
                cells@.len() == script_cells().len(),
                forall|w: int| 0 <= w < cells@.len() ==> (#[trigger] cells@[w])@ == script_cells()[w],
                forall|w: int|
                    0 <= w < script_cells().len() ==> (#[trigger] script_cells()[w]).len() <= 9,
                entries_view(entries@) == catalogue_upto(v as int),
            decreases cells.len() - v,
        {
            let line = &cells[v];
            let ghost lc = script_cells()[v as int];
            let mut steps: Vec<Tile> = Vec::new();
            let mut n: usize = 0;
            while n < line.len()
                invariant
                    n <= line.len(),
                    0 <= v < cells@.len(),
                    cells@.len() == script_cells().len(),
                    forall|w: int|
                        0 <= w < cells@.len() ==> (#[trigger] cells@[w])@ == script_cells()[w],
                    line == &cells@[v as int],
                    lc == script_cells()[v as int],
                    lc.len() <= 9,
                    steps@ == line_tiles(lc).take(n as int),
                    entries_view(entries@) == catalogue_upto(v as int) + line_entries(
                        v as int,
                    ).take(n as int),
                decreases line.len() - n,
            {
                let p = if n % 2 == 0 {
                    Player::Machine
                } else {
                    Player::Human
                };
                steps.push(Tile::new(line[n] as usize, p));
                proof {
                    assert(steps@ =~= line_tiles(lc).take(n + 1));
                }
                let entry = StateEntry {
                    label: StateLabel { ply: (n + 1) as u8, variant: v as u8 },
                    steps: copy_steps(&steps),
                };
                let ghost entries0 = entries@;
                entries.push(entry);
                proof {
                    assert(entries_view(entries@) =~= entries_view(entries0).push(
                        (entry.label, entry.steps@),
                    ));
                    assert(line_entries(v as int)[n as int] == (
                        StateLabel { ply: (n + 1) as u8, variant: v as u8 },
                        line_tiles(lc).take(n + 1),
                    ));
                    assert(line_entries(v as int).take(n + 1) =~= line_entries(v as int).take(
                        n as int,
                    ).push(line_entries(v as int)[n as int]));
                    assert(entries_view(entries@) =~= catalogue_upto(v as int) + line_entries(
                        v as int,
                    ).take(n + 1));
                }
                n += 1;
            }
            proof {
                assert(line_entries(v as int).take(lc.len() as int) =~= line_entries(v as int));
                assert(entries_view(entries@) =~= catalogue_upto(v + 1));
            }
            v += 1;
        }
        entries
    }

    /// Builds the state graph: one node per catalogue entry, its payload the
    /// packed label, and a directed edge wherever one entry's sequence
    /// extends another's by exactly one move.
    pub fn build_graph() -> (g: petgraph::graph::Graph<u64, ()>)
        ensures
            graph_nodes(g).len() == catalogue().len(),
            forall|k: int|
                0 <= k < catalogue().len() ==> graph_nodes(g)[k] == encode_label(
                    #[trigger] catalogue()[k].0,
                ),
            forall|k: int, j: int|
                0 <= k < catalogue().len() && 0 <= j < catalogue().len() ==> (#[trigger] graph_edge_list(g).contains((k as usize, j as usize)) <==> extends_rel(
                    catalogue()[k].1,
                    catalogue()[j].1,
                )),
            forall|e: (usize, usize)| #[trigger]
                graph_edge_list(g).contains(e) ==> e.0 < catalogue().len() && e.1
                    < catalogue().len(),
    {
        proof {
            lemma_catalogue_upto_len(script_cells().len() as int);
        }
        let entries = Self::init_steps_map();
        let n = entries.len();
        let mut g = graph_new();
        let mut k: usize = 0;
        while k < n
            invariant
                entries_view(entries@) == catalogue(),
                n == entries@.len(),
                n <= 91,
                k <= n,
                graph_nodes(g).len() == k,
                forall|i: int|
                    0 <= i < k ==> graph_nodes(g)[i] == encode_label(#[trigger] catalogue()[i].0),
                graph_edge_list(g).len() == 0,
            decreases n - k,
        {
            let w = encode_exec(entries[k].label);
            proof {
                assert(entries_view(entries@)[k as int] == (entries@[k as int].label, entries@[k as int].steps@));
            }
            graph_add_node(&mut g, w);
            k += 1;
        }
        let mut a: usize = 0;
        while a < n
            invariant
                entries_view(entries@) == catalogue(),
                n == entries@.len(),
                n <= 91,
                a <= n,
                graph_nodes(g).len() == n,
                forall|i: int|
                    0 <= i < n ==> graph_nodes(g)[i] == encode_label(#[trigger] catalogue()[i].0),
                graph_edge_list(g).len() <= a * n,
                forall|e: (usize, usize)| #[trigger]
                    graph_edge_list(g).contains(e) ==> e.0 < n && e.1 < n,
                forall|x: int, y: int|
                    0 <= x < n && 0 <= y < n ==> (#[trigger] graph_edge_list(g).contains(
                        (x as usize, y as usize),
                    ) <==> (extends_rel(catalogue()[x].1, catalogue()[y].1) && x < a)),
            decreases n - a,
        {
            let mut b: usize = 0;
            while b < n
                invariant
                    entries_view(entries@) == catalogue(),
                    n == entries@.len(),
                    n <= 91,
                    a < n,
                    b <= n,
                    graph_nodes(g).len() == n,
                    forall|i: int|
                        0 <= i < n ==> graph_nodes(g)[i] == encode_label(
                            #[trigger] catalogue()[i].0,
                        ),
                    graph_edge_list(g).len() <= a * n + b,
                    forall|e: (usize, usize)| #[trigger]
                        graph_edge_list(g).contains(e) ==> e.0 < n && e.1 < n,
                    forall|x: int, y: int|
                        0 <= x < n && 0 <= y < n ==> (#[trigger] graph_edge_list(g).contains(
                            (x as usize, y as usize),
                        ) <==> (extends_rel(catalogue()[x].1, catalogue()[y].1) && (x < a
                            || (x == a && y < b)))),
                decreases n - b,
            {
                proof {
                    assert(entries_view(entries@)[a as int] == (entries@[a as int].label, entries@[a as int].steps@));
                    assert(entries_view(entries@)[b as int] == (entries@[b as int].label, entries@[b as int].steps@));
                }
                if extends_exec(&entries[a].steps, &entries[b].steps) {
                    let ghost el0 = graph_edge_list(g);
                    proof {
                        assert(a * n + b < 0xffff_ffff) by (nonlinear_arith)
                            requires
                                a < n,
                                b < n,
                                n <= 91,
                        ;
                    }
                    graph_add_edge(&mut g, a, b);
                    proof {
                        assert forall|x: (usize, usize)| #[trigger]
                            graph_edge_list(g).contains(x) implies (el0.contains(x) || x == (
                            a,
                            b,
                        )) by {
                            lemma_push_contains(el0, (a, b), x);
                        }
                        assert forall|x: (usize, usize)| el0.contains(x) || x == (
                            a,
                            b,
                        ) implies #[trigger] graph_edge_list(g).contains(x) by {
                            lemma_push_contains(el0, (a, b), x);
                        }
                    }
                }
                b += 1;
            }
            proof {
                assert(a * n + n == (a + 1) * n) by (nonlinear_arith);
            }
            a += 1;
        }
        g
    }
}

} // verus!
