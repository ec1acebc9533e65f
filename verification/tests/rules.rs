//! Move generation and the drop-resolution rules.

use chessnt::board::{
    get_bishop_positions, get_pawn_positions, get_rook_positions, inside, knight_positions,
    possible_moves, Board, Move, Piece, Team,
};
use chessnt::coord::{Coord, UNIT};

fn cell(column: i32, row: i32) -> Coord {
    Coord::new_i(column, row)
}

fn size8() -> Coord {
    Coord::new_i(8, 8)
}

#[test]
fn rook_positions_cover_both_lines_and_skip_own_cell() {
    let positions = get_rook_positions(cell(3, 3), size8());
    assert_eq!(positions.len(), 14);
    assert!(!positions.contains(&cell(3, 3)));
    assert!(positions.contains(&cell(0, 3)));
    assert!(positions.contains(&cell(7, 3)));
    assert!(positions.contains(&cell(3, 0)));
    assert!(positions.contains(&cell(3, 7)));
    for p in &positions {
        assert!(inside(*p, size8()));
    }
}

#[test]
fn bishop_positions_stay_on_board_and_skip_own_cell() {
    let positions = get_bishop_positions(cell(0, 0), size8());
    assert_eq!(positions.len(), 7);
    assert!(!positions.contains(&cell(0, 0)));
    for k in 1..8 {
        assert!(positions.contains(&cell(k, k)));
    }
    for p in &positions {
        assert!(inside(*p, size8()));
    }
}

#[test]
fn knight_positions_are_the_eight_jumps() {
    let positions = knight_positions(cell(4, 4));
    assert_eq!(positions.len(), 8);
    assert!(positions.contains(&cell(2, 3)));
    assert!(positions.contains(&cell(6, 5)));
    assert!(positions.contains(&cell(3, 2)));
    assert!(positions.contains(&cell(5, 6)));
    assert!(!positions.contains(&cell(4, 4)));
}

#[test]
fn fresh_white_pawn_offers_double_and_single_step() {
    let board = Board::new_chess(cell(0, 0), size8());
    // piece 2 is the white pawn of row 0, resting on its starting column 6
    let moves = get_pawn_positions(2, &board.pieces, size8());
    assert_eq!(moves.len(), 2);
    assert_eq!(moves[0], cell(4, 0));
    assert_eq!(moves[1], cell(5, 0));
}

#[test]
fn pawn_strikes_only_enemies_on_the_forward_diagonals() {
    let pieces = vec![
        Piece::new(cell(6, 3), Move::Pawn, Team::White),
        Piece::new(cell(5, 4), Move::Pawn, Team::Black),
        Piece::new(cell(5, 2), Move::Pawn, Team::White),
    ];
    let moves = get_pawn_positions(0, &pieces, size8());
    // double step (column 6 is White's starting column), single step, and
    // the one enemy diagonal; the friendly diagonal is not offered
    assert_eq!(moves.len(), 3);
    assert_eq!(moves[0], cell(4, 3));
    assert_eq!(moves[1], cell(5, 3));
    assert_eq!(moves[2], cell(5, 4));
}

#[test]
fn blocked_pawn_keeps_double_step_but_loses_single_step() {
    let pieces = vec![
        Piece::new(cell(6, 3), Move::Pawn, Team::White),
        Piece::new(cell(5, 3), Move::Pawn, Team::Black),
    ];
    let moves = get_pawn_positions(0, &pieces, size8());
    assert_eq!(moves.len(), 1);
    assert_eq!(moves[0], cell(4, 3));
}

#[test]
fn possible_moves_filters_to_the_board() {
    let pieces = vec![Piece::new(cell(0, 0), Move::King, Team::White)];
    let moves = possible_moves(size8(), &pieces, 0);
    // of the eight king offsets only three stay on the board
    assert_eq!(moves.len(), 3);
    assert!(moves.contains(&cell(1, 0)));
    assert!(moves.contains(&cell(0, 1)));
    assert!(moves.contains(&cell(1, 1)));
}

#[test]
fn new_chess_lays_out_thirty_two_pieces() {
    let board = Board::new_chess(cell(4, 4), size8());
    assert_eq!(board.pieces.len(), 32);
    assert_eq!(board.pieces[0].pos, cell(7, 0));
    assert_eq!(board.pieces[0].moveset[0], Move::Rook);
    assert_eq!(board.pieces[0].team, Team::White);
    assert_eq!(board.pieces[1].pos, cell(0, 0));
    assert_eq!(board.pieces[1].team, Team::Black);
    assert_eq!(board.pieces[2].pos, cell(6, 0));
    assert_eq!(board.pieces[2].moveset[0], Move::Pawn);
    assert_eq!(board.pieces[17].moveset[0], Move::King);
    assert!(board.pieces.iter().all(|p| p.alive && !p.moved));
}

#[test]
fn selecting_an_empty_cell_selects_nothing() {
    let pieces = vec![Piece::new(cell(3, 3), Move::Rook, Team::White)];
    let mut board = Board::new(cell(5, 5), size8(), pieces);
    board.select();
    assert!(!board.selected());
}

#[test]
fn killed_pieces_stack_below_the_board_without_overlap() {
    let mut board = Board::new_chess(cell(0, 0), size8());
    // the white back pieces of rows 0, 1 and 2 all share column 7
    board.kill(0);
    board.kill(4);
    board.kill(8);
    assert!(!board.pieces[0].alive);
    assert!(!board.pieces[4].alive);
    assert!(!board.pieces[8].alive);
    assert_eq!(board.pieces[0].pos, Coord::new_units(7 * UNIT, -2 * UNIT));
    assert_eq!(board.pieces[4].pos, Coord::new_units(7 * UNIT, -3 * UNIT));
    assert_eq!(board.pieces[8].pos, Coord::new_units(7 * UNIT, -4 * UNIT));
}

#[test]
fn queen_moves_are_the_rook_and_bishop_moves_together() {
    let pieces = vec![Piece::new(cell(3, 3), Move::Queen, Team::White)];
    let moves = possible_moves(size8(), &pieces, 0);
    assert_eq!(moves.len(), 27);
    assert!(moves.contains(&cell(3, 0)));
    assert!(moves.contains(&cell(0, 0)));
    assert!(moves.contains(&cell(7, 7)));
    assert!(moves.contains(&cell(6, 0)));
    assert!(!moves.contains(&cell(3, 3)));
}

#[test]
fn witnessed_legal_move_passes_the_turn() {
    let pieces = vec![Piece::new(cell(3, 3), Move::Rook, Team::White)];
    let mut board = Board::new(cell(3, 3), size8(), pieces);
    board.select();
    assert!(board.selected());
    board.move_cursor_rel(cell(0, 2));
    board.deselect();
    assert!(!board.selected());
    assert!(board.pieces[0].alive);
    assert_eq!(board.pieces[0].pos, cell(3, 5));
    assert_eq!(board.referee.turn, Team::Black);
}

#[test]
fn unwitnessed_move_never_passes_the_turn() {
    // column 7 lies outside the fresh referee's radar cone
    let pieces = vec![Piece::new(cell(7, 0), Move::Rook, Team::White)];
    let mut board = Board::new(cell(7, 0), size8(), pieces);
    board.select();
    board.move_cursor_rel(cell(0, 1));
    board.deselect();
    assert!(board.pieces[0].alive);
    assert_eq!(board.pieces[0].pos, cell(7, 1));
    assert_eq!(board.referee.turn, Team::White);
}

#[test]
fn witnessed_illegal_move_costs_the_piece() {
    // a knight cannot step one cell forward
    let pieces = vec![Piece::new(cell(3, 3), Move::Knight, Team::White)];
    let mut board = Board::new(cell(3, 3), size8(), pieces);
    board.select();
    board.move_cursor_rel(cell(0, 1));
    board.deselect();
    assert!(!board.pieces[0].alive);
    assert!(board.pieces[0].pos.row <= -2 * UNIT);
    assert_eq!(board.referee.turn, Team::White);
}

#[test]
fn witnessed_off_turn_move_costs_the_piece() {
    // Black moves first while the turn is White's, inside the radar
    let pieces = vec![Piece::new(cell(3, 3), Move::Rook, Team::Black)];
    let mut board = Board::new(cell(3, 3), size8(), pieces);
    board.select();
    board.move_cursor_rel(cell(0, 2));
    board.deselect();
    assert!(!board.pieces[0].alive);
    assert_eq!(board.referee.turn, Team::White);
}

#[test]
fn no_op_drop_changes_nothing() {
    let pieces = vec![Piece::new(cell(3, 3), Move::Rook, Team::White)];
    let mut board = Board::new(cell(3, 3), size8(), pieces);
    board.select();
    board.deselect();
    assert!(board.pieces[0].alive);
    assert_eq!(board.pieces[0].pos, cell(3, 3));
    assert_eq!(board.referee.turn, Team::White);
}

#[test]
fn witnessed_capture_takes_the_enemy_and_passes_the_turn() {
    let pieces = vec![
        Piece::new(cell(3, 3), Move::Rook, Team::White),
        Piece::new(cell(3, 5), Move::Pawn, Team::Black),
    ];
    let mut board = Board::new(cell(3, 3), size8(), pieces);
    board.select();
    board.move_cursor_rel(cell(0, 2));
    board.deselect();
    assert!(board.pieces[0].alive);
    assert_eq!(board.pieces[0].pos, cell(3, 5));
    assert!(!board.pieces[1].alive);
    assert!(board.pieces[1].pos.row <= -2 * UNIT);
    assert_eq!(board.referee.turn, Team::Black);
}

#[test]
fn unwitnessed_capture_attempt_snaps_back() {
    // outside the radar a capture is never granted: the mover snaps back
    let pieces = vec![
        Piece::new(cell(7, 0), Move::Rook, Team::White),
        Piece::new(cell(7, 2), Move::Pawn, Team::Black),
    ];
    let mut board = Board::new(cell(7, 0), size8(), pieces);
    board.select();
    board.move_cursor_rel(cell(0, 2));
    board.deselect();
    assert!(board.pieces[0].alive);
    assert!(board.pieces[1].alive);
    assert_eq!(board.pieces[0].pos, cell(7, 0));
    assert_eq!(board.pieces[1].pos, cell(7, 2));
    assert_eq!(board.referee.turn, Team::White);
}

#[test]
fn unwitnessed_friendly_swap_goes_through() {
    let pieces = vec![
        Piece::new(cell(7, 0), Move::Rook, Team::White),
        Piece::new(cell(7, 1), Move::Knight, Team::White),
    ];
    let mut board = Board::new(cell(7, 0), size8(), pieces);
    board.select();
    board.move_cursor_rel(cell(0, 1));
    board.deselect();
    assert!(board.pieces[0].alive);
    assert!(board.pieces[1].alive);
    assert_eq!(board.pieces[0].pos, cell(7, 1));
    assert_eq!(board.pieces[1].pos, cell(7, 0));
    assert_eq!(board.referee.turn, Team::White);
}

#[test]
fn witnessed_friendly_swap_costs_the_mover() {
    let pieces = vec![
        Piece::new(cell(3, 3), Move::Rook, Team::White),
        Piece::new(cell(3, 4), Move::Knight, Team::White),
    ];
    let mut board = Board::new(cell(3, 3), size8(), pieces);
    board.select();
    board.move_cursor_rel(cell(0, 1));
    board.deselect();
    assert!(!board.pieces[0].alive);
    assert!(board.pieces[0].pos.row <= -2 * UNIT);
    assert!(board.pieces[1].alive);
    assert_eq!(board.pieces[1].pos, cell(3, 4));
    assert_eq!(board.referee.turn, Team::White);
}

#[test]
fn tick_clears_moved_flags() {
    let pieces = vec![Piece::new(cell(3, 3), Move::Rook, Team::White)];
    let mut board = Board::new(cell(3, 3), size8(), pieces);
    board.select();
    board.move_cursor_rel(cell(1, 0));
    assert!(board.pieces[0].moved);
    board.tick(102);
    assert!(!board.pieces[0].moved);
}

#[test]
fn rounding_snaps_halves_away_from_zero() {
    let c = Coord::new_units(UNIT + UNIT / 2, -(UNIT + UNIT / 2));
    assert_eq!(c.round(), Coord::new_i(2, -2));
    let d = Coord::new_units(-1, UNIT - 1);
    assert_eq!(d.round(), Coord::new_i(0, 1));
    assert_eq!(Coord::new_units(-1, -1).floor(), Coord::new_i(-1, -1));
}
