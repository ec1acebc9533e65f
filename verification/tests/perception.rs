//! The radar's point-in-triangle test, the eased patrol parameter, and the
//! referee's focus behaviour.

use chessnt::board::{Board, Move, Piece, Team};
use chessnt::coord::{Coord, HALF_UNIT, UNIT};
use chessnt::referee::{smooth, triangle_contains, Referee, VIGILANCE_TIME};

fn triangle() -> [Coord; 3] {
    [Coord::new_i(4, 0), Coord::new_i(2, 2), Coord::new_i(2, 0)]
}

#[test]
fn test_triangle_contains() {
    let contains = triangle_contains(triangle(), Coord::new_units(2 * UNIT + HALF_UNIT, HALF_UNIT));
    assert_eq!(contains, true);
}

#[test]
fn test_triangle_does_not_contain_01() {
    let contains = triangle_contains(
        triangle(),
        Coord::new_units(3 * UNIT + HALF_UNIT, UNIT + HALF_UNIT),
    );
    assert_eq!(contains, false);
}

#[test]
fn test_triangle_does_not_contain_12() {
    let contains = triangle_contains(triangle(), Coord::new_units(0, HALF_UNIT));
    assert_eq!(contains, false);
}

#[test]
fn test_triangle_does_not_contain_20() {
    let contains = triangle_contains(triangle(), Coord::new_units(2 * UNIT + HALF_UNIT, -HALF_UNIT));
    assert_eq!(contains, false);
}

#[test]
fn test_triangle_does_not_contain_01_12() {
    let contains = triangle_contains(triangle(), Coord::new_units(-HALF_UNIT, 10 * UNIT));
    assert_eq!(contains, false);
}

#[test]
fn triangle_boundary_point_counts_as_inside() {
    // on the edge from (2,0) to (4,0)
    let contains = triangle_contains(triangle(), Coord::new_i(3, 0));
    assert_eq!(contains, true);
}

#[test]
fn smooth_exact_values() {
    assert_eq!(smooth(0), 0);
    assert_eq!(smooth(UNIT), UNIT);
    assert_eq!(smooth(HALF_UNIT), HALF_UNIT);
    // 256^2 * (3 * 1024 - 2 * 256) / 1024^2
    assert_eq!(smooth(256), 160);
    // out-of-range parameters are clamped first
    assert_eq!(smooth(-5 * UNIT), 0);
    assert_eq!(smooth(9 * UNIT), UNIT);
}

#[test]
fn smooth_monotonic_on_samples() {
    let mut last = 0;
    let mut t = 0;
    while t <= UNIT {
        let v = smooth(t);
        assert!(v >= last);
        assert!(0 <= v && v <= UNIT);
        last = v;
        t += 64;
    }
}

#[test]
fn patrol_first_leg_moves_right_and_stays_on_line() {
    let mut referee = Referee::new();
    let pieces: Vec<Piece> = Vec::new();
    let start_column = referee.position.column;
    let mut last = start_column;
    for _ in 0..5 {
        referee.tick(102, &pieces);
        assert_eq!(referee.position.row, -UNIT);
        assert!(referee.position.column >= last);
        assert!(referee.position.column <= 4 * UNIT + HALF_UNIT);
        last = referee.position.column;
    }
    assert!(last > start_column);
}

#[test]
fn referee_focuses_on_moved_piece_and_loses_interest() {
    let size = Coord::new_i(8, 8);
    let pieces = vec![Piece::new(Coord::new_i(3, 4), Move::Rook, Team::White)];
    let mut board = Board::new(Coord::new_i(3, 4), size, pieces);
    board.select();
    assert!(board.selected());
    // drag one cell: the piece is flagged as moved, inside the radar
    board.move_cursor_rel(Coord::new_i(0, 1));
    board.tick(102);
    assert!(board.referee.focused.is_some());
    assert_eq!(board.referee.focused.unwrap().piece_index, 0);
    // the piece stands still: past the vigilance threshold the focus drops
    board.tick(VIGILANCE_TIME);
    assert!(board.referee.focused.is_some());
    board.tick(VIGILANCE_TIME);
    assert!(board.referee.focused.is_none());
    assert!(board.referee.radar_start.is_some());
}
