//! The move-selection engine, the win detector and the game opener.
//!
//! The engine consumes a board snapshot (which cells are taken and by whom)
//! and the ordered move history, both as plain values owned by the caller,
//! and produces the machine's next move sequence.

use vstd::prelude::*;

use crate::win_graph;
use crate::win_graph::{graph_neighbors, graph_node_count, graph_node_weight};
use rand::RngExt;
use crate::win_graph::Player as WinPlayer;
use crate::win_graph::Tile as WinTile;

verus! {

/// Which player holds a cell or made a move.  `Nobody` marks the absence of
/// a move (an unrecognized history entry, or an unplaced tile).
#[derive(Debug, Clone, Copy, PartialEq, Eq, Structural)]
pub enum Player {
    Machine,
    Human,
    Nobody,
}

/// A move as the caller sees it: a cell index and the player who took it.
#[derive(Debug, Clone, Copy, PartialEq, Eq, Structural)]
pub struct Tile {
    pub field_id: i32,
    pub player: Player,
}

impl Tile {
    /// A placeholder tile: no cell, no player.
    pub fn init() -> (t: Tile)
        ensures
            t.field_id == -1,
            t.player == Player::Nobody,
    {
        Tile { field_id: -1, player: Player::Nobody }
    }

    pub fn new(field_id: i32, player: Player) -> (t: Tile)
        ensures
            t == (Tile { field_id, player }),
    {
        Tile { field_id, player }
    }
}

/// One cell of the board snapshot the caller hands in.
#[derive(Debug, Clone, Copy, PartialEq, Eq, Structural)]
pub struct TileData {
    pub id: i32,
    pub empty: bool,
    pub machine_clicked: bool,
    pub human_clicked: bool,
}

/// One entry of the move history the caller hands in.
#[derive(Debug, Clone, Copy, PartialEq, Eq, Structural)]
pub struct Sequence {
    pub id: i32,
    pub player: Player,
}

// ---------------------------------------------------------------------------
// Bridging between the caller-facing types and the catalogue's move type.
// ---------------------------------------------------------------------------

pub open spec fn win_player_of(p: Player) -> Option<WinPlayer> {
    match p {
        Player::Machine => Some(WinPlayer::Machine),
        Player::Human => Some(WinPlayer::Human),
        Player::Nobody => None,
    }
}

/// Converts a caller-side player to a catalogue player; `Nobody` has no
/// counterpart there.
fn to_win_player(p: Player) -> (r: Option<WinPlayer>)
    ensures
        r == win_player_of(p),
{
    match p {
        Player::Machine => Some(WinPlayer::Machine),
        Player::Human => Some(WinPlayer::Human),
        Player::Nobody => None,
    }
}

pub open spec fn local_player_of(wp: WinPlayer) -> Player {
    match wp {
        WinPlayer::Machine => Player::Machine,
        WinPlayer::Human => Player::Human,
    }
}

/// Converts a catalogue player back to a caller-side player.
fn from_win_player(wp: WinPlayer) -> (r: Player)
    ensures
        r == local_player_of(wp),
{
    match wp {
        WinPlayer::Machine => Player::Machine,
        WinPlayer::Human => Player::Human,
    }
}

pub open spec fn win_tile_of(t: Tile) -> Option<WinTile> {
    if t.field_id < 0 {
        None
    } else {
        match win_player_of(t.player) {
            Some(wp) => Some(WinTile { idx: t.field_id as usize, player: wp }),
            None => None,
        }
    }
}

/// Converts a caller-side move to a catalogue move; moves without a player
/// or without a cell are dropped.
fn to_win_tile(t: Tile) -> (r: Option<WinTile>)
    ensures
        r == win_tile_of(t),
{
    if t.field_id < 0 {
        return None;
    }
    match to_win_player(t.player) {
        Some(wp) => Some(WinTile::new(t.field_id as usize, wp)),
        None => None,
    }
}

pub open spec fn local_tile_of(wt: WinTile) -> Tile {
    Tile { field_id: wt.idx as i32, player: local_player_of(wt.player) }
}

/// Converts a catalogue move back to a caller-side move.
fn from_win_tile(wt: &WinTile) -> (t: Tile)
    requires
        wt.idx <= 0x7fff_ffff,
    ensures
        t == local_tile_of(*wt),
{
    Tile::new(wt.idx as i32, from_win_player(wt.player))
}

pub open spec fn local_of(s: Seq<WinTile>) -> Seq<Tile> {
    s.map_values(|wt: WinTile| local_tile_of(wt))
}

/// Converts a whole catalogue move sequence back to caller-side moves.
fn from_win_tiles(s: &Vec<WinTile>) -> (r: Vec<Tile>)
    requires
        forall|j: int| 0 <= j < s@.len() ==> (#[trigger] s@[j]).idx <= 0x7fff_ffff,
    ensures
        r@ == local_of(s@),
{
    let mut r: Vec<Tile> = Vec::new();
    let mut i: usize = 0;
    while i < s.len()
        invariant
            i <= s@.len(),
            forall|j: int| 0 <= j < s@.len() ==> (#[trigger] s@[j]).idx <= 0x7fff_ffff,
            r@ == local_of(s@.take(i as int)),
        decreases s@.len() - i,
    {
        r.push(from_win_tile(&s[i]));
        proof {
            assert(s@.take(i + 1) =~= s@.take(i as int).push(s@[i as int]));
            assert(local_of(s@.take(i + 1)) =~= local_of(s@.take(i as int)).push(
                local_tile_of(s@[i as int]),
            ));
        }
        i += 1;
    }
    proof {
        assert(s@.take(s@.len() as int) =~= s@);
    }
    r
}

// ---------------------------------------------------------------------------
// The live sequence: the move history reduced to recognized moves.
// ---------------------------------------------------------------------------

/// A history entry that counts as a move: a recognized player on a
/// nonnegative cell.
pub open spec fn is_move(e: Sequence) -> bool {
    (e.player == Player::Machine || e.player == Player::Human) && e.id >= 0
}

/// The catalogue move a history entry stands for.
pub open spec fn win_move_of(e: Sequence) -> WinTile {
    WinTile {
        idx: e.id as usize,
        player: if e.player == Player::Machine {
            WinPlayer::Machine
        } else {
            WinPlayer::Human
        },
    }
}

/// The live sequence of a history: every recognized move in order, noise
/// entries dropped.
pub open spec fn live_of(s: Seq<Sequence>) -> Seq<WinTile>
    decreases s.len(),
{
    if s.len() == 0 {
        Seq::empty()
    } else {
        let rest = live_of(s.drop_last());
        if is_move(s.last()) {
            rest.push(win_move_of(s.last()))
        } else {
            rest
        }
    }
}

/// Builds the live sequence from the caller's move history.
fn build_win_tiles_from_model(sequence_model: &Vec<Sequence>) -> (r: Vec<WinTile>)
    ensures
        r@ == live_of(sequence_model@),
{
    let mut r: Vec<WinTile> = Vec::new();
    let mut i: usize = 0;
    while i < sequence_model.len()
        invariant
            i <= sequence_model@.len(),
            r@ == live_of(sequence_model@.take(i as int)),
        decreases sequence_model@.len() - i,
    {
        let e = sequence_model[i];
        let local_tile = Tile::new(e.id, e.player);
        match to_win_tile(local_tile) {
            Some(wt) => {
                r.push(wt);
            },
            None => {},
        }
        proof {
            let pre = sequence_model@.take(i as int);
            assert(sequence_model@.take(i + 1) =~= pre.push(e));
            assert(sequence_model@.take(i + 1).drop_last() =~= pre);
        }
        i += 1;
    }
    proof {
        assert(sequence_model@.take(sequence_model@.len() as int) =~= sequence_model@);
    }
    r
}

// ---------------------------------------------------------------------------
// Order-independent sequence comparison.
// ---------------------------------------------------------------------------

/// Two sequences reach the same state: same moves as a multiset, order
/// disregarded.
pub open spec fn tiles_set_eq(a: Seq<WinTile>, b: Seq<WinTile>) -> bool {
    a.to_multiset() == b.to_multiset()
}

/// How often `t` occurs in `v`.
fn count_tile(v: &Vec<WinTile>, t: WinTile) -> (c: usize)
    ensures
        c == v@.to_multiset().count(t),
{
    broadcast use vstd::seq_lib::group_to_multiset_ensures;
    broadcast use vstd::multiset::group_multiset_axioms;

    let mut c: usize = 0;
    let mut i: usize = 0;
    while i < v.len()
        invariant
            i <= v@.len(),
            c <= i,
            c == v@.take(i as int).to_multiset().count(t),
        decreases v@.len() - i,
    {
        proof {
            broadcast use vstd::seq_lib::group_to_multiset_ensures;
            broadcast use vstd::multiset::group_multiset_axioms;

            let pre = v@.take(i as int);
            assert(v@.take(i + 1) =~= pre.push(v@[i as int]));
            assert(pre.push(v@[i as int]).to_multiset() =~= pre.to_multiset().insert(
                v@[i as int],
            ));
        }
        if v[i] == t {
            c += 1;
        }
        i += 1;
    }
    proof {
        assert(v@.take(v@.len() as int) =~= v@);
    }
    c
}

/// Compares two move sequences disregarding order: equal iff they hold the
/// same moves with the same multiplicities.
fn tiles_equal_unordered_win(a: &Vec<WinTile>, b: &Vec<WinTile>) -> (r: bool)
    ensures
        r == tiles_set_eq(a@, b@),
{
    broadcast use vstd::seq_lib::group_to_multiset_ensures;
    broadcast use vstd::multiset::group_multiset_axioms;

    if a.len() != b.len() {
        proof {
            assert(a@.to_multiset().len() == a@.len());
            assert(b@.to_multiset().len() == b@.len());
        }
        return false;
    }
    let mut i: usize = 0;
    while i < a.len()
        invariant
            i <= a@.len(),
            forall|k: int|
                0 <= k < i ==> a@.to_multiset().count(#[trigger] a@[k]) == b@.to_multiset().count(
                    a@[k],
                ),
        decreases a@.len() - i,
    {
        if count_tile(a, a[i]) != count_tile(b, a[i]) {
            return false;
        }
        i += 1;
    }
    let mut j: usize = 0;
    while j < b.len()
        invariant
            j <= b@.len(),
            forall|k: int|
                0 <= k < a@.len() ==> a@.to_multiset().count(#[trigger] a@[k])
                    == b@.to_multiset().count(a@[k]),
            forall|k: int|
                0 <= k < j ==> a@.to_multiset().count(#[trigger] b@[k]) == b@.to_multiset().count(
                    b@[k],
                ),
        decreases b@.len() - j,
    {
        if count_tile(a, b[j]) != count_tile(b, b[j]) {
            return false;
        }
        j += 1;
    }
    proof {
        assert forall|x: WinTile|
            a@.to_multiset().count(x) == b@.to_multiset().count(x) by {
            if a@.contains(x) {
                let k = choose|k: int| 0 <= k < a@.len() && a@[k] == x;
                assert(a@.to_multiset().count(a@[k]) == b@.to_multiset().count(a@[k]));
            } else if b@.contains(x) {
                let k = choose|k: int| 0 <= k < b@.len() && b@[k] == x;
                assert(a@.to_multiset().count(b@[k]) == b@.to_multiset().count(b@[k]));
            } else {
                assert(a@.to_multiset().count(x) == 0);
                assert(b@.to_multiset().count(x) == 0);
            }
        }
        assert(a@.to_multiset() =~= b@.to_multiset());
    }
    true
}

// ---------------------------------------------------------------------------
// The win detector.
// ---------------------------------------------------------------------------

/// The eight winning lines: rows top to bottom, columns left to right, then
/// the two diagonals.
pub open spec fn win_combos() -> Seq<(i32, i32, i32)> {
    seq![
        (0i32, 1i32, 2i32),
        (3i32, 4i32, 5i32),
        (6i32, 7i32, 8i32),
        (0i32, 3i32, 6i32),
        (1i32, 4i32, 7i32),
        (2i32, 5i32, 8i32),
        (0i32, 4i32, 8i32),
        (2i32, 4i32, 6i32),
    ]
}

/// A board cell is held by `player`.
pub open spec fn claimed_by(td: TileData, player: Player) -> bool {
    !td.empty && match player {
        Player::Machine => td.machine_clicked,
        Player::Human => td.human_clicked,
        Player::Nobody => false,
    }
}

/// Some cell of the snapshot with index `id` is held by `player`.
pub open spec fn cell_claimed(tiles: Seq<TileData>, player: Player, id: i32) -> bool {
    exists|k: int| 0 <= k < tiles.len() && (#[trigger] tiles[k]).id == id && claimed_by(tiles[k], player)
}

/// All three cells of a winning line are held by `player`.
pub open spec fn combo_claimed(tiles: Seq<TileData>, player: Player, c: (i32, i32, i32)) -> bool {
    cell_claimed(tiles, player, c.0) && cell_claimed(tiles, player, c.1) && cell_claimed(
        tiles,
        player,
        c.2,
    )
}

/// The first winning line, at or after position `j` of the fixed
/// enumeration, that `player` holds completely; -1 if none.
pub open spec fn first_win_combo_from(tiles: Seq<TileData>, player: Player, j: int) -> int
    decreases 8 - j,
{
    if j < 0 || j >= 8 {
        -1
    } else if combo_claimed(tiles, player, win_combos()[j]) {
        j
    } else {
        first_win_combo_from(tiles, player, j + 1)
    }
}

/// The first winning line that `player` holds completely; -1 if none.
pub open spec fn first_win_combo(tiles: Seq<TileData>, player: Player) -> int {
    first_win_combo_from(tiles, player, 0)
}

pub open spec fn combo_seq(c: (i32, i32, i32)) -> Seq<i32> {
    seq![c.0, c.1, c.2]
}

/// A scan that found no claimed line before `j`, and one at `j` if `j` is a
/// line, pins down `first_win_combo_from`.
proof fn lemma_first_win_combo_skip(tiles: Seq<TileData>, player: Player, m: int, j: int)
    requires
        0 <= m <= j <= 8,
        forall|k: int| m <= k < j ==> !combo_claimed(tiles, player, #[trigger] win_combos()[k]),
        j < 8 ==> combo_claimed(tiles, player, win_combos()[j]),
    ensures
        first_win_combo_from(tiles, player, m) == if j < 8 {
            j
        } else {
            -1
        },
    decreases j - m,
{
    if m < j {
        lemma_first_win_combo_skip(tiles, player, m + 1, j);
    }
}

/// Whether the cell with index `id` is held by `player`.
fn cell_claimed_exec(tiles_model: &Vec<TileData>, player: Player, id: i32) -> (r: bool)
    ensures
        r == cell_claimed(tiles_model@, player, id),
{
    let mut k: usize = 0;
    while k < tiles_model.len()
        invariant
            k <= tiles_model@.len(),
            forall|m: int|
                0 <= m < k ==> !((#[trigger] tiles_model@[m]).id == id && claimed_by(
                    tiles_model@[m],
                    player,
                )),
        decreases tiles_model@.len() - k,
    {
        let td = tiles_model[k];
        let held = !td.empty && match player {
            Player::Machine => td.machine_clicked,
            Player::Human => td.human_clicked,
            Player::Nobody => false,
        };
        if td.id == id && held {
            return true;
        }
        k += 1;
    }
    false
}

/// The catalogue and engine owner: all operations are associated functions,
/// the type itself carries no state.
pub struct GameLogic;

impl GameLogic {
    /// The first winning line completely held by `player`, as its three
    /// cell indices; empty if the player holds no line.  Lines are tried in
    /// the fixed order: rows, columns, diagonals.
    pub fn get_win_combos(tiles_model: &Vec<TileData>, player: Player) -> (r: Vec<i32>)
        ensures
            ({
                let j = first_win_combo(tiles_model@, player);
                &&& (j == -1 ==> r@ == Seq::<i32>::empty())
                &&& (j >= 0 ==> 0 <= j < 8 && combo_claimed(tiles_model@, player, win_combos()[j])
                    && r@ == combo_seq(win_combos()[j]))
                &&& (r@.len() > 0 <==> j >= 0)
            }),
    {
        let combos: Vec<(i32, i32, i32)> = vec![
            (0i32, 1i32, 2i32),
            (3i32, 4i32, 5i32),
            (6i32, 7i32, 8i32),
            (0i32, 3i32, 6i32),
            (1i32, 4i32, 7i32),
            (2i32, 5i32, 8i32),
            (0i32, 4i32, 8i32),
            (2i32, 4i32, 6i32),
        ];
        proof {
            assert forall|k: int| 0 <= k < 8 implies combos@[k] == win_combos()[k] by {}
        }
        let mut j: usize = 0;
        while j < combos.len()
            invariant
                j <= combos@.len(),
                combos@.len() == 8,
                forall|k: int| 0 <= k < 8 ==> combos@[k] == #[trigger] win_combos()[k],
                forall|k: int|
                    0 <= k < j ==> !combo_claimed(tiles_model@, player, #[trigger] win_combos()[k]),
            decreases combos@.len() - j,
        {
            let c = combos[j];
            if cell_claimed_exec(tiles_model, player, c.0) && cell_claimed_exec(
                tiles_model,
                player,
                c.1,
            ) && cell_claimed_exec(tiles_model, player, c.2) {
                proof {
                    lemma_first_win_combo_skip(tiles_model@, player, 0, j as int);
                }
                return vec![c.0, c.1, c.2];
            }
            j += 1;
        }
        proof {
            lemma_first_win_combo_skip(tiles_model@, player, 0, 8);
        }
        Vec::new()
    }

    /// True if either player holds a winning line, the machine checked
    /// first.
    pub fn has_winner(tiles_model: &Vec<TileData>) -> (r: bool)
        ensures
            r == (first_win_combo(tiles_model@, Player::Machine) >= 0 || first_win_combo(
                tiles_model@,
                Player::Human,
            ) >= 0),
    {
        let combo = Self::get_win_combos(tiles_model, Player::Machine);
        if combo.len() > 0 {
            return true;
        }
        let combo = Self::get_win_combos(tiles_model, Player::Human);
        combo.len() > 0
    }
}

// ---------------------------------------------------------------------------
// Randomness, reached through the trusted declarations below.
// ---------------------------------------------------------------------------

#[verifier::external_type_specification]
#[verifier::external_body]
pub struct ExThreadRng(rand::rngs::ThreadRng);

/// Relies on rand::rng: a handle to the thread-local random generator.
#[verifier::external_body]
fn thread_rng_new() -> rand::rngs::ThreadRng {
    rand::rng()
}

/// Relies on rand::RngExt::random_range: a value drawn uniformly from a
/// nonempty range.  Nothing more can be promised of a random draw than its
/// bound.
#[verifier::external_body]
fn rng_below(rng: &mut rand::rngs::ThreadRng, n: usize) -> (r: usize)
    requires
        n >= 1,
    ensures
        r < n,
{
    rng.random_range(0..n)
}

// ---------------------------------------------------------------------------
// The game opener.
// ---------------------------------------------------------------------------

/// The first position in the snapshot whose cell index is `id`, looking at
/// or after position `k`; -1 if none.
pub open spec fn first_id_from(tiles: Seq<TileData>, id: i32, k: int) -> int
    decreases tiles.len() - k,
{
    if k < 0 || k >= tiles.len() {
        -1
    } else if tiles[k].id == id {
        k
    } else {
        first_id_from(tiles, id, k + 1)
    }
}

/// The snapshot after the machine takes the cell with index `id`: the first
/// matching cell is marked taken by the machine; a snapshot without that
/// cell is left as it is.
pub open spec fn mark_machine(tiles: Seq<TileData>, id: i32) -> Seq<TileData> {
    let k = first_id_from(tiles, id, 0);
    if k == -1 {
        tiles
    } else {
        tiles.update(
            k,
            TileData {
                id: tiles[k].id,
                empty: false,
                machine_clicked: true,
                human_clicked: tiles[k].human_clicked,
            },
        )
    }
}

/// A scan that saw no matching cell before `k` pins down `first_id_from`.
proof fn lemma_first_id_skip(tiles: Seq<TileData>, id: i32, m: int, k: int)
    requires
        0 <= m <= k <= tiles.len(),
        forall|j: int| m <= j < k ==> (#[trigger] tiles[j]).id != id,
        k < tiles.len() ==> tiles[k].id == id,
    ensures
        first_id_from(tiles, id, m) == if k < tiles.len() {
            k
        } else {
            -1
        },
    decreases k - m,
{
    if m < k {
        lemma_first_id_skip(tiles, id, m + 1, k);
    }
}

impl GameLogic {
    /// Starts a game: clears the move history, lets the machine take the
    /// centre cell or the top-left corner — an even choice between the two —
    /// and records that move as the only history entry.
    pub fn random_machine_start(
        tiles_model: &mut Vec<TileData>,
        sequence_model: &mut Vec<Sequence>,
    )
        ensures
            final(sequence_model)@.len() == 1,
            final(sequence_model)@[0].player == Player::Machine,
            final(sequence_model)@[0].id == 0 || final(sequence_model)@[0].id == 4,
            final(tiles_model)@ == mark_machine(old(tiles_model)@, final(sequence_model)@[0].id),
    {
        sequence_model.clear();

        let mut rng = thread_rng_new();
        let coin = rng_below(&mut rng, 2);
        let first_move: i32 = if coin == 1 {
            4
        } else {
            0
        };

        let mut k: usize = 0;
        let mut placed = false;
        while k < tiles_model.len() && !placed
            invariant
                k <= tiles_model@.len(),
                !placed ==> tiles_model@ == old(tiles_model)@,
                !placed ==> forall|j: int|
                    0 <= j < k ==> (#[trigger] old(tiles_model)@[j]).id != first_move,
                placed ==> tiles_model@ == mark_machine(old(tiles_model)@, first_move),
            decreases tiles_model@.len() - k,
        {
            let td = tiles_model[k];
            if td.id == first_move {
                proof {
                    lemma_first_id_skip(old(tiles_model)@, first_move, 0, k as int);
                }
                tiles_model.set(
                    k,
                    TileData {
                        id: td.id,
                        empty: false,
                        machine_clicked: true,
                        human_clicked: td.human_clicked,
                    },
                );
                placed = true;
            }
            k += 1;
        }
        if !placed {
            proof {
                lemma_first_id_skip(
                    old(tiles_model)@,
                    first_move,
                    0,
                    old(tiles_model)@.len() as int,
                );
            }
        }

        sequence_model.push(Sequence { id: first_move, player: Player::Machine });
    }
}

// ---------------------------------------------------------------------------
// The move-selection engine.
// ---------------------------------------------------------------------------

/// `a` is the position of the first catalogue entry whose sequence reaches
/// the same state as `live`.
pub open spec fn is_first_match(
    cat: Seq<(win_graph::StateLabel, Seq<WinTile>)>,
    live: Seq<WinTile>,
    a: int,
) -> bool {
    &&& 0 <= a < cat.len()
    &&& tiles_set_eq(cat[a].1, live)
    &&& forall|k: int| 0 <= k < a ==> !tiles_set_eq((#[trigger] cat[k]).1, live)
}

/// Some catalogue entry reaches the same state as `live`.
pub open spec fn has_match(cat: Seq<(win_graph::StateLabel, Seq<WinTile>)>, live: Seq<WinTile>) -> bool {
    exists|a: int| 0 <= a < cat.len() && tiles_set_eq((#[trigger] cat[a]).1, live)
}

/// Entry `a` has a scripted continuation: some entry extends it by one
/// move.
pub open spec fn has_successor(cat: Seq<(win_graph::StateLabel, Seq<WinTile>)>, a: int) -> bool {
    exists|j: int|
        0 <= j < cat.len() && win_graph::extends_rel(cat[a].1, (#[trigger] cat[j]).1)
}

/// The result of taking a scripted continuation of anchor `a`: some
/// catalogue entry one move deeper, converted back to caller-side moves.
pub open spec fn continuation_result(live: Seq<WinTile>, a: int, r: Seq<Tile>) -> bool {
    exists|j: int|
        0 <= j < win_graph::catalogue().len() && win_graph::extends_rel(
            win_graph::catalogue()[a].1,
            (#[trigger] win_graph::catalogue()[j]).1,
        ) && r == local_of(win_graph::catalogue()[j].1)
}

/// A board cell nobody holds.
pub open spec fn cell_free(td: TileData) -> bool {
    td.empty && !td.machine_clicked && !td.human_clicked
}

/// The board still has a free cell.
pub open spec fn any_free(tiles: Seq<TileData>) -> bool {
    exists|k: int| 0 <= k < tiles.len() && cell_free(#[trigger] tiles[k])
}

/// A well-formed board snapshot: every cell index on the 3x3 board.
pub open spec fn board_wf(tiles: Seq<TileData>) -> bool {
    forall|k: int| 0 <= k < tiles.len() ==> 0 <= (#[trigger] tiles[k]).id < 9
}

/// The machine playing cell `id`.
pub open spec fn machine_move_at(id: i32) -> WinTile {
    WinTile { idx: id as usize, player: WinPlayer::Machine }
}

/// The result of the random fallback move `id`: the live sequence plus that
/// machine move — replaced by the first catalogue entry reaching the same
/// state, where one exists.
pub open spec fn fallback_with(live: Seq<WinTile>, id: i32, r: Seq<Tile>) -> bool {
    let ext = live.push(machine_move_at(id));
    &&& (has_match(win_graph::catalogue(), ext) ==> exists|m: int|
        #[trigger] is_first_match(win_graph::catalogue(), ext, m) && r == local_of(
            win_graph::catalogue()[m].1,
        ))
    &&& (!has_match(win_graph::catalogue(), ext) ==> r == local_of(ext))
}

/// The result of the fallback path: empty when the board is full, else the
/// result of a random move on some free cell.
pub open spec fn fallback_result(tiles: Seq<TileData>, live: Seq<WinTile>, r: Seq<Tile>) -> bool {
    &&& (!any_free(tiles) ==> r == Seq::<Tile>::empty())
    &&& (any_free(tiles) ==> exists|k: int|
        0 <= k < tiles.len() && cell_free(#[trigger] tiles[k]) && fallback_with(
            live,
            tiles[k].id,
            r,
        ))
}

/// Some free cell of the snapshot has index `id`.
pub open spec fn free_id(tiles: Seq<TileData>, id: i32) -> bool {
    exists|m: int| 0 <= m < tiles.len() && cell_free(#[trigger] tiles[m]) && id == tiles[m].id
}

/// Every move of the live sequence fits a caller-side cell index.
proof fn lemma_live_of_bounds(s: Seq<Sequence>)
    ensures
        forall|j: int| 0 <= j < live_of(s).len() ==> (#[trigger] live_of(s)[j]).idx <= 0x7fff_ffff,
    decreases s.len(),
{
    if s.len() > 0 {
        lemma_live_of_bounds(s.drop_last());
        let rest = live_of(s.drop_last());
        if is_move(s.last()) {
            assert forall|j: int|
                0 <= j < live_of(s).len() implies (#[trigger] live_of(s)[j]).idx
                <= 0x7fff_ffff by {
                if j < rest.len() {
                    assert(live_of(s)[j] == rest[j]);
                } else {
                    assert(live_of(s)[j] == win_move_of(s.last()));
                }
            }
        }
    }
}

/// The shape of every scripted continuation: the result keeps the anchor's
/// moves, in order, and adds exactly one move the anchor did not hold.
pub proof fn lemma_continuation_shape(live: Seq<WinTile>, a: int, r: Seq<Tile>)
    requires
        0 <= a < win_graph::catalogue().len(),
        continuation_result(live, a, r),
    ensures
        r.len() == win_graph::catalogue()[a].1.len() + 1,
        r.drop_last() == local_of(win_graph::catalogue()[a].1),
        forall|m: int| 0 <= m < r.len() - 1 ==> r[m] != r.last(),
{
    win_graph::lemma_catalogue_cells();
    let cat = win_graph::catalogue();
    let j = choose|j: int|
        0 <= j < cat.len() && win_graph::extends_rel(cat[a].1, (#[trigger] cat[j]).1) && r
            == local_of(cat[j].1);
    win_graph::lemma_edge_consistency(a, j);
    win_graph::lemma_continuation_new_move(a, j);
    let b = cat[j].1;
    assert(r.len() == b.len());
    assert(r.drop_last() =~= local_of(b.drop_last()));
    assert forall|m: int| 0 <= m < r.len() - 1 implies r[m] != r.last() by {
        assert(r[m] == local_tile_of(b[m]));
        assert(r.last() == local_tile_of(b.last()));
        assert(b[m] != b.last()) by {
            if b[m] == b.last() {
                assert(b.drop_last()[m] == b[m]);
                assert(cat[a].1.contains(b.last()));
            }
        }
        assert(win_graph::entry_cells_wf(cat[j]));
        assert(b[m].idx != b[b.len() - 1].idx);
        assert(b[m].idx < 9 && b.last().idx < 9);
    }
}

/// An empty history anchors at the catalogue's root entry, which always has
/// a scripted continuation.
pub proof fn lemma_empty_live_anchor()
    ensures
        is_first_match(win_graph::catalogue(), Seq::<WinTile>::empty(), 0),
        has_successor(win_graph::catalogue(), 0),
{
    broadcast use vstd::seq_lib::group_to_multiset_ensures;
    broadcast use vstd::multiset::group_multiset_axioms;

    win_graph::lemma_catalogue_wf();
    let cat = win_graph::catalogue();
    assert(cat[0].1 =~= Seq::<WinTile>::empty());
    assert(tiles_set_eq(cat[0].1, Seq::<WinTile>::empty()));
    // The first entry of the first scripted line extends the root.
    win_graph::lemma_catalogue_upto_prefix(1, win_graph::script_cells().len() as int);
    assert(win_graph::catalogue_upto(1) == win_graph::catalogue_upto(0)
        + win_graph::line_entries(0));
    assert(win_graph::catalogue_upto(1)[1] == win_graph::line_entries(0)[0]);
    assert(cat[1] == win_graph::line_entries(0)[0]);
    assert(cat[1].1.len() == 1);
    assert(cat[1].1.take(0) =~= Seq::<WinTile>::empty());
    assert(win_graph::extends_rel(cat[0].1, cat[1].1));
}

/// The continuation of an empty history is a single opening move by the
/// machine, at the centre or the top-left corner.
pub proof fn lemma_opening_result(r: Seq<Tile>)
    requires
        continuation_result(Seq::<WinTile>::empty(), 0, r),
    ensures
        r.len() == 1,
        r[0].player == Player::Machine,
        r[0].field_id == 4 || r[0].field_id == 0,
{
    win_graph::lemma_catalogue_wf();
    win_graph::lemma_catalogue_opening();
    win_graph::lemma_catalogue_cells();
    let cat = win_graph::catalogue();
    assert(cat[0].1 =~= Seq::<WinTile>::empty());
    let j = choose|j: int|
        0 <= j < cat.len() && win_graph::extends_rel(cat[0].1, (#[trigger] cat[j]).1) && r
            == local_of(cat[j].1);
    assert(cat[j].1.len() == 1);
    assert(r[0] == local_tile_of(cat[j].1[0]));
    assert(win_graph::entry_wf(cat[j]));
    assert(cat[j].1[0].player == win_graph::turn_player(0));
    assert(cat[j].1[0].idx == 4 || cat[j].1[0].idx == 0);
}

/// On a full board with no catalogue match the engine owes the empty
/// result.
pub proof fn lemma_full_board_empty_result(
    tiles: Seq<TileData>,
    live: Seq<WinTile>,
    r: Seq<Tile>,
)
    requires
        !has_match(win_graph::catalogue(), live),
        !any_free(tiles),
        fallback_result(tiles, live, r),
    ensures
        r == Seq::<Tile>::empty(),
{
}

impl GameLogic {
    /// Computes the machine's next move sequence.
    ///
    /// The move history is reduced to its live sequence and looked up in
    /// the catalogue; from a matching entry the state graph leads to the
    /// scripted continuations, one of which is picked at random.  Without a
    /// match or a continuation the engine falls back to a random free cell
    /// (re-checking the catalogue with it), and to the empty result on a
    /// full board.  The inputs are only read, never changed.
    #[verifier::loop_isolation(false)]
    pub fn search_next_step(
        tiles_model: &Vec<TileData>,
        sequence_model: &Vec<Sequence>,
    ) -> (r: Vec<Tile>)
        requires
            board_wf(tiles_model@),
        ensures
            forall|a: int|
                #[trigger] is_first_match(win_graph::catalogue(), live_of(sequence_model@), a)
                    && has_successor(win_graph::catalogue(), a) ==> continuation_result(
                    live_of(sequence_model@),
                    a,
                    r@,
                ),
            (!has_match(win_graph::catalogue(), live_of(sequence_model@)) || exists|a: int|
                #[trigger] is_first_match(win_graph::catalogue(), live_of(sequence_model@), a)
                    && !has_successor(win_graph::catalogue(), a)) ==> fallback_result(
                tiles_model@,
                live_of(sequence_model@),
                r@,
            ),
    {
        let ghost cat = win_graph::catalogue();
        let ghost live = live_of(sequence_model@);
        proof {
            win_graph::lemma_catalogue_wf();
            win_graph::lemma_catalogue_cells();
            lemma_live_of_bounds(sequence_model@);
        }

        let mut actual_state_win: Vec<WinTile> = build_win_tiles_from_model(sequence_model);
        let steps_map: Vec<win_graph::StateEntry> = win_graph::WinGraph::init_steps_map();
        let graph = win_graph::WinGraph::build_graph();
        let n = steps_map.len();
        proof {
            assert(win_graph::entries_view(steps_map@).len() == cat.len());
        }

        let mut rng = thread_rng_new();

        // Catalogue lookup: the first entry reaching the live state.
        let mut found = false;
        let mut anchor: usize = 0;
        let mut i: usize = 0;
        while i < n && !found
            invariant
                i <= n,
                !found ==> forall|k: int|
                    0 <= k < i ==> !tiles_set_eq((#[trigger] cat[k]).1, live),
                found ==> is_first_match(cat, live, anchor as int),
            decreases n - i,
        {
            proof {
                assert(win_graph::entries_view(steps_map@)[i as int] == (
                    steps_map@[i as int].label,
                    steps_map@[i as int].steps@,
                ));
            }
            if tiles_equal_unordered_win(&steps_map[i].steps, &actual_state_win) {
                anchor = i;
                found = true;
            }
            i += 1;
        }

        // Graph walk: locate the anchor's node by its payload, then pick a
        // scripted continuation among its direct successors, if any.
        if found {
            let target_code = win_graph::encode_exec(steps_map[anchor].label);
            proof {
                assert(win_graph::entries_view(steps_map@)[anchor as int] == (
                    steps_map@[anchor as int].label,
                    steps_map@[anchor as int].steps@,
                ));
                assert(target_code == win_graph::encode_label(cat[anchor as int].0));
            }
            let total = graph_node_count(&graph);
            let mut node_a: usize = 0;
            let mut node_found = false;
            while node_a < total && !node_found
                invariant
                    node_a <= total,
                    !node_found ==> forall|m: int|
                        0 <= m < node_a ==> win_graph::graph_nodes(graph)[m] != target_code,
                    node_found ==> node_a == anchor,
                decreases total - node_a + (if node_found { 0int } else { 1int }),
            {
                if graph_node_weight(&graph, node_a) == target_code {
                    proof {
                        assert(win_graph::encode_label(cat[node_a as int].0)
                            == win_graph::encode_label(cat[anchor as int].0));
                        win_graph::lemma_encode_injective(
                            cat[node_a as int].0,
                            cat[anchor as int].0,
                        );
                        assert(cat[node_a as int].0 == cat[anchor as int].0);
                        if node_a != anchor {
                            assert(false);
                        }
                    }
                    node_found = true;
                } else {
                    node_a += 1;
                }
            }
            proof {
                if !node_found {
                    assert(win_graph::graph_nodes(graph)[anchor as int] == target_code);
                    assert(false);
                }
            }

            let neighbours = graph_neighbors(&graph, node_a);
            if neighbours.len() > 0 {
                let pick = rng_below(&mut rng, neighbours.len());
                let target = neighbours[pick];
                proof {
                    assert(win_graph::graph_edge_list(graph).contains(
                        (node_a, neighbours@[pick as int]),
                    ));
                    let ghost kk = anchor as int;
                    let ghost jj = target as int;
                    assert(target < cat.len());
                    assert(kk as usize == node_a && jj as usize == target);
                    assert(win_graph::graph_edge_list(graph).contains((kk as usize, jj as usize)));
                    assert(win_graph::extends_rel(cat[anchor as int].1, cat[target as int].1));
                }
                proof {
                    assert(win_graph::entries_view(steps_map@)[target as int] == (
                        steps_map@[target as int].label,
                        steps_map@[target as int].steps@,
                    ));
                    assert(win_graph::entry_cells_wf(cat[target as int]));
                }
                let seq_local = from_win_tiles(&steps_map[target].steps);
                proof {
                    assert(continuation_result(live, anchor as int, seq_local@));
                    assert forall|a: int|
                        #[trigger] is_first_match(cat, live, a) implies a == anchor as int by {
                        if a < anchor as int {
                            assert(!tiles_set_eq(cat[a].1, live));
                        }
                        if (anchor as int) < a {
                            assert(!tiles_set_eq(cat[anchor as int].1, live));
                        }
                    }
                    assert(has_successor(cat, anchor as int));
                }
                return seq_local;
            }
            // The anchor has no scripted continuation: the fallback below
            // takes over.
            proof {
                assert forall|j: int|
                    0 <= j < cat.len() implies !win_graph::extends_rel(
                    cat[anchor as int].1,
                    (#[trigger] cat[j]).1,
                ) by {
                    if win_graph::extends_rel(cat[anchor as int].1, cat[j].1) {
                        let kk = anchor as int;
                        assert(win_graph::graph_edge_list(graph).contains(
                            (kk as usize, j as usize),
                        ));
                        assert(win_graph::graph_edge_list(graph).contains(
                            (node_a, j as usize),
                        ));
                        assert(neighbours@.contains(j as usize));
                    }
                }
                assert(!has_successor(cat, anchor as int));
            }
        }

        proof {
            assert forall|a: int|
                #[trigger] is_first_match(cat, live, a) implies (found && a == anchor as int) by {
                if !found {
                    assert(!tiles_set_eq(cat[a].1, live));
                } else {
                    if a < anchor as int {
                        assert(!tiles_set_eq(cat[a].1, live));
                    }
                    if (anchor as int) < a {
                        assert(!tiles_set_eq(cat[anchor as int].1, live));
                    }
                }
            }
        }

        // Fallback: pick a random free cell for the machine, and re-check
        // the catalogue with it.
        let mut empty_tile_ids: Vec<i32> = Vec::new();
        let mut k: usize = 0;
        while k < tiles_model.len()
            invariant
                k <= tiles_model@.len(),
                forall|j: int|
                    0 <= j < empty_tile_ids@.len() ==> free_id(
                        tiles_model@,
                        #[trigger] empty_tile_ids@[j],
                    ),
                empty_tile_ids@.len() == 0 ==> forall|m: int|
                    0 <= m < k ==> !cell_free(#[trigger] tiles_model@[m]),
            decreases tiles_model@.len() - k,
        {
            let td = tiles_model[k];
            let ghost ids0 = empty_tile_ids@;
            if td.empty && !td.machine_clicked && !td.human_clicked {
                empty_tile_ids.push(td.id);
                proof {
                    assert forall|j: int|
                        0 <= j < empty_tile_ids@.len() implies free_id(
                        tiles_model@,
                        #[trigger] empty_tile_ids@[j],
                    ) by {
                        if j < ids0.len() {
                            assert(empty_tile_ids@[j] == ids0[j]);
                        } else {
                            assert(cell_free(tiles_model@[k as int]));
                            assert(empty_tile_ids@[j] == tiles_model@[k as int].id);
                        }
                    }
                }
            }
            k += 1;
        }

        if empty_tile_ids.len() == 0 {
            proof {
                assert(!any_free(tiles_model@));
            }
            return Vec::new();
        }

        let rnd_pick = rng_below(&mut rng, empty_tile_ids.len());
        let rnd_tile_id = empty_tile_ids[rnd_pick];
        proof {
            assert(free_id(tiles_model@, rnd_tile_id));
        }
        let ghost free_cell: int = choose|m: int|
            0 <= m < tiles_model@.len() && cell_free(#[trigger] tiles_model@[m])
                && rnd_tile_id == tiles_model@[m].id;
        proof {
            assert(0 <= rnd_tile_id < 9);
        }

        actual_state_win.push(WinTile::new(rnd_tile_id as usize, WinPlayer::Machine));
        let ghost ext = live.push(machine_move_at(rnd_tile_id));
        proof {
            assert(actual_state_win@ == ext);
        }

        let mut i2: usize = 0;
        while i2 < n
            invariant
                i2 <= n,
                actual_state_win@ == ext,
                forall|k2: int| 0 <= k2 < i2 ==> !tiles_set_eq((#[trigger] cat[k2]).1, ext),
            decreases n - i2,
        {
            proof {
                assert(win_graph::entries_view(steps_map@)[i2 as int] == (
                    steps_map@[i2 as int].label,
                    steps_map@[i2 as int].steps@,
                ));
            }
            if tiles_equal_unordered_win(&steps_map[i2].steps, &actual_state_win) {
                proof {
                    assert(win_graph::entry_cells_wf(cat[i2 as int]));
                }
                let seq_local = from_win_tiles(&steps_map[i2].steps);
                proof {
                    assert(is_first_match(cat, ext, i2 as int));
                    assert(fallback_with(live, rnd_tile_id, seq_local@));
                    assert(cell_free(tiles_model@[free_cell]) && tiles_model@[free_cell].id
                        == rnd_tile_id);
                    assert(fallback_result(tiles_model@, live, seq_local@));
                }
                return seq_local;
            }
            i2 += 1;
        }

        proof {
            assert(!has_match(cat, ext));
            assert forall|j: int|
                0 <= j < ext.len() implies (#[trigger] ext[j]).idx <= 0x7fff_ffff by {
                if j < live.len() {
                    assert(ext[j] == live[j]);
                } else {
                    assert(ext[j] == machine_move_at(rnd_tile_id));
                }
            }
        }
        let seq_local = from_win_tiles(&actual_state_win);
        proof {
            assert(fallback_with(live, rnd_tile_id, seq_local@));
            assert(cell_free(tiles_model@[free_cell]) && tiles_model@[free_cell].id == rnd_tile_id);
            assert(fallback_result(tiles_model@, live, seq_local@));
        }
        seq_local
    }
}

} // verus!

