use ttt_engine::game_logic::{GameLogic, Player, Sequence, TileData};

fn empty_board() -> Vec<TileData> {
    (0..9)
        .map(|id| TileData { id, empty: true, machine_clicked: false, human_clicked: false })
        .collect()
}

fn occupy(board: &mut Vec<TileData>, id: i32, player: Player) {
    for td in board.iter_mut() {
        if td.id == id {
            td.empty = false;
            match player {
                Player::Machine => td.machine_clicked = true,
                Player::Human => td.human_clicked = true,
                Player::Nobody => {}
            }
        }
    }
}

/// The engine never changes the board snapshot or the move history handed
/// to it.
#[test]
fn search_does_not_mutate_inputs() {
    let mut board = empty_board();
    occupy(&mut board, 4, Player::Machine);
    occupy(&mut board, 0, Player::Human);
    let history = vec![
        Sequence { id: 4, player: Player::Machine },
        Sequence { id: 0, player: Player::Human },
    ];
    let board_before = board.clone();
    let history_before = history.clone();
    let _ = GameLogic::search_next_step(&board, &history);
    assert_eq!(board, board_before);
    assert_eq!(history, history_before);
}

/// A history equal to a catalogue entry is continued along the script: the
/// machine answers centre-then-corner-reply with cell 2.
#[test]
fn search_follows_script_after_centre_opening() {
    let mut board = empty_board();
    occupy(&mut board, 4, Player::Machine);
    occupy(&mut board, 0, Player::Human);
    let history = vec![
        Sequence { id: 4, player: Player::Machine },
        Sequence { id: 0, player: Player::Human },
    ];
    let result = GameLogic::search_next_step(&board, &history);
    assert_eq!(result.len(), 3);
    assert_eq!((result[0].field_id, result[0].player), (4, Player::Machine));
    assert_eq!((result[1].field_id, result[1].player), (0, Player::Human));
    assert_eq!((result[2].field_id, result[2].player), (2, Player::Machine));
}

/// Catalogue lookup disregards move order: the transposed history anchors
/// at the same entry and gets the same continuation.
#[test]
fn search_matches_history_set_equal() {
    let mut board = empty_board();
    occupy(&mut board, 4, Player::Machine);
    occupy(&mut board, 0, Player::Human);
    let history = vec![
        Sequence { id: 0, player: Player::Human },
        Sequence { id: 4, player: Player::Machine },
    ];
    let result = GameLogic::search_next_step(&board, &history);
    assert_eq!(result.len(), 3);
    assert_eq!((result[2].field_id, result[2].player), (2, Player::Machine));
}

/// Noise entries in the history are dropped, not rejected.
#[test]
fn search_drops_unrecognized_history_entries() {
    let mut board = empty_board();
    occupy(&mut board, 4, Player::Machine);
    occupy(&mut board, 0, Player::Human);
    let history = vec![
        Sequence { id: 4, player: Player::Machine },
        Sequence { id: -3, player: Player::Machine },
        Sequence { id: 7, player: Player::Nobody },
        Sequence { id: 0, player: Player::Human },
    ];
    let result = GameLogic::search_next_step(&board, &history);
    assert_eq!(result.len(), 3);
    assert_eq!((result[2].field_id, result[2].player), (2, Player::Machine));
}

/// Without a catalogue match the machine plays a random free cell,
/// appended to the live sequence.
#[test]
fn search_falls_back_to_free_cell() {
    let mut board = empty_board();
    let moves = [
        (4, Player::Machine),
        (8, Player::Human),
        (0, Player::Machine),
        (5, Player::Human),
    ];
    let mut history = Vec::new();
    for (id, player) in moves {
        occupy(&mut board, id, player);
        history.push(Sequence { id, player });
    }
    let result = GameLogic::search_next_step(&board, &history);
    assert_eq!(result.len(), 5);
    for (i, (id, player)) in moves.iter().enumerate() {
        assert_eq!((result[i].field_id, result[i].player), (*id, *player));
    }
    let last = result[4];
    assert_eq!(last.player, Player::Machine);
    assert!([1, 2, 3, 6, 7].contains(&last.field_id));
}

/// A full board with no catalogue match yields the empty result.
#[test]
fn search_full_board_returns_empty() {
    let mut board = empty_board();
    let mut history = Vec::new();
    for id in 0..9 {
        let player = if id % 2 == 0 { Player::Machine } else { Player::Human };
        occupy(&mut board, id, player);
        history.push(Sequence { id, player });
    }
    let result = GameLogic::search_next_step(&board, &history);
    assert!(result.is_empty());
}

/// Cells 0, 1, 2 all held by the human give exactly the first row as the
/// winning line.
#[test]
fn winning_line_first_row_for_human() {
    let mut board = empty_board();
    occupy(&mut board, 0, Player::Human);
    occupy(&mut board, 1, Player::Human);
    occupy(&mut board, 2, Player::Human);
    occupy(&mut board, 4, Player::Machine);
    occupy(&mut board, 5, Player::Machine);
    let combo = GameLogic::get_win_combos(&board, Player::Human);
    assert_eq!(combo, vec![0, 1, 2]);
    let machine_combo = GameLogic::get_win_combos(&board, Player::Machine);
    assert!(machine_combo.is_empty());
}

/// The winning lines are tried rows first, then columns, then diagonals.
#[test]
fn winning_line_fixed_enumeration_order() {
    let mut board = empty_board();
    for id in [6, 7, 8, 0, 3] {
        occupy(&mut board, id, Player::Machine);
    }
    // Both the third row and the first column are complete; the row comes
    // first in the enumeration.
    let combo = GameLogic::get_win_combos(&board, Player::Machine);
    assert_eq!(combo, vec![6, 7, 8]);
}

/// `Nobody` holds no cells, so it never has a winning line.
#[test]
fn winning_line_nobody_never_wins() {
    let mut board = empty_board();
    for id in 0..9 {
        occupy(&mut board, id, Player::Machine);
    }
    let combo = GameLogic::get_win_combos(&board, Player::Nobody);
    assert!(combo.is_empty());
}

#[test]
fn has_winner_sees_either_player() {
    let mut board = empty_board();
    assert!(!GameLogic::has_winner(&board));
    occupy(&mut board, 2, Player::Human);
    occupy(&mut board, 5, Player::Human);
    assert!(!GameLogic::has_winner(&board));
    occupy(&mut board, 8, Player::Human);
    assert!(GameLogic::has_winner(&board));
}

/// Starting a game clears the history to a single machine move at cell 4
/// or cell 0, and marks exactly that cell on the board.
#[test]
fn start_game_opens_centre_or_corner() {
    let mut board = empty_board();
    let mut history = vec![
        Sequence { id: 3, player: Player::Human },
        Sequence { id: 6, player: Player::Machine },
    ];
    GameLogic::random_machine_start(&mut board, &mut history);
    assert_eq!(history.len(), 1);
    assert_eq!(history[0].player, Player::Machine);
    let opening = history[0].id;
    assert!(opening == 4 || opening == 0);
    for td in &board {
        if td.id == opening {
            assert!(!td.empty && td.machine_clicked && !td.human_clicked);
        } else {
            assert!(td.empty && !td.machine_clicked && !td.human_clicked);
        }
    }
}

/// A whole opening exchange: start the game, let the human reply at cell
/// 1, and ask the engine for the machine's answer.
#[test]
fn end_to_end_opening_exchange() {
    let mut board = empty_board();
    let mut history = Vec::new();
    GameLogic::random_machine_start(&mut board, &mut history);

    let machine_cells: Vec<i32> =
        board.iter().filter(|td| td.machine_clicked).map(|td| td.id).collect();
    assert_eq!(history.len(), 1);
    assert_eq!(machine_cells, vec![history[0].id]);
    assert!(machine_cells[0] == 0 || machine_cells[0] == 4);

    occupy(&mut board, 1, Player::Human);
    history.push(Sequence { id: 1, player: Player::Human });

    let result = GameLogic::search_next_step(&board, &history);
    assert!(!result.is_empty());
    let next = result[result.len() - 1];
    assert_eq!(next.player, Player::Machine);
    let cell = board.iter().find(|td| td.id == next.field_id).unwrap();
    assert!(cell.empty && !cell.machine_clicked && !cell.human_clicked);
}

/// The engine run on an empty history proposes the machine's opening move.
#[test]
fn search_on_empty_history_opens() {
    let board = empty_board();
    let history = Vec::new();
    let result = GameLogic::search_next_step(&board, &history);
    assert_eq!(result.len(), 1);
    assert_eq!(result[0].player, Player::Machine);
    assert!(result[0].field_id == 4 || result[0].field_id == 0);
}
