//! Pieces, move generation and the board interaction rules.
//!
//! The legality oracle (`possible_moves`) computes, for one piece, the cells
//! it may settle on; `Board::deselect` applies the gameplay rule: a witnessed
//! illegal move costs the moved piece, an unwitnessed one goes through.

use crate::coord::{
    abs_int, coord_at, floor_units, round_coord, round_units, Coord, COORD_LIMIT, UNIT,
};
use crate::referee::{
    initial_referee, sees, tick_step, Referee, DELTA_LIMIT,
};
use vstd::prelude::*;

verus! {

broadcast use vstd::seq_lib::lemma_seq_contains_after_push, vstd::seq_lib::lemma_seq_concat_contains_all_elements;

/// Bound kept on every piece position and the cursor; far inside
/// `COORD_LIMIT`, so each rule has arithmetic headroom.
pub const POS_LIMIT: i64 = 0x100_0000_0000;

/// Largest piece collection a board may hold.
pub const PIECES_LIMIT: usize = 0x10_0000;

/// The two sides. White pieces start on the high columns, Black on the low
/// ones.
#[derive(Clone, Copy, Debug, PartialEq, Eq, Hash, Structural)]
pub enum Team {
    White,
    Black,
}

impl Team {
    /// The other side.
    pub open spec fn spec_toggled(self) -> Team {
        match self {
            Team::White => Team::Black,
            Team::Black => Team::White,
        }
    }

    /// Whether this is the white side.
    pub fn is_white(&self) -> (r: bool)
        ensures
            r == (*self == Team::White),
    {
        *self == Team::White
    }

    /// Switches to the other side.
    pub fn toggle(&mut self)
        ensures
            *final(self) == old(self).spec_toggled(),
    {
        match self {
            Team::White => *self = Team::Black,
            Team::Black => *self = Team::White,
        }
    }
}

/// A movement pattern. A piece owns an ordered collection of these (its
/// moveset); standard chess pieces own exactly one.
#[derive(Copy, Clone, Debug, Eq, PartialEq, Hash, Structural)]
pub enum Move {
    Pawn,
    Bishop,
    Knight,
    Rook,
    King,
    Queen,
}

/// An ordered collection of movement patterns.
pub type Moveset = Vec<Move>;

/// One piece. Its cell is its rounded position; `initial_pos` is the last
/// settled cell (the rest position a rejected drag snaps back to), `moved`
/// flags a drag during the current tick, and a dead piece keeps its slot but
/// is parked below the board.
#[derive(Clone)]
pub struct Piece {
    pub initial_pos: Coord,
    pub pos: Coord,
    pub moveset: Moveset,
    pub team: Team,
    pub moved: bool,
    pub alive: bool,
}

impl Piece {
    /// A live, unmoved piece resting at `pos` with a single movement pattern.
    pub fn new(pos: Coord, movement: Move, team: Team) -> (r: Piece)
        ensures
            r.initial_pos == pos,
            r.pos == pos,
            r.moveset@ == seq![movement],
            r.team == team,
            !r.moved,
            r.alive,
    {
        let moveset = vec![movement];
        assert(moveset@ =~= seq![movement]);
        Piece {
            initial_pos: pos,
            pos,
            moveset,
            team,
            moved: false,
            alive: true,
        }
    }

    /// The piece after settling at `new_pos`: both the position and the rest
    /// position move there.
    pub open spec fn spec_settled(self, new_pos: Coord) -> Piece {
        Piece { initial_pos: new_pos, pos: new_pos, ..self }
    }

    /// Settles the piece at `new_pos`.
    pub fn set_pos(&mut self, new_pos: Coord)
        ensures
            *final(self) == old(self).spec_settled(new_pos),
    {
        self.pos = new_pos;
        self.initial_pos = new_pos;
    }
}

/// Whether a position lies strictly inside the board: both components in
/// `[0, size)` on the fixed-point scale.
pub open spec fn spec_inside(pos: Coord, size: Coord) -> bool {
    pos.column >= 0 && pos.column < size.column && pos.row >= 0 && pos.row < size.row
}

/// Whether `pos` lies inside a board of extent `size`.
#[verifier::when_used_as_spec(spec_inside)]
pub fn inside(pos: Coord, size: Coord) -> (r: bool)
    ensures
        r == spec_inside(pos, size),
{
    pos.column >= 0 && pos.column < size.column && pos.row >= 0 && pos.row < size.row
}

/// First index at or after `i`, other than `skip`, whose piece's rounded
/// position is `cell`.
pub open spec fn first_other_at_from(pieces: Seq<Piece>, skip: int, cell: Coord, i: int) -> Option<
    int,
>
    decreases pieces.len() - i when 0 <= i <= pieces.len()
{
    if i >= pieces.len() {
        None
    } else if i != skip && round_coord(pieces[i].pos) == cell {
        Some(i)
    } else {
        first_other_at_from(pieces, skip, cell, i + 1)
    }
}

/// First index other than `skip` whose piece's rounded position is `cell`,
/// if any: the piece found resting on that cell.
pub open spec fn first_other_at(pieces: Seq<Piece>, skip: int, cell: Coord) -> Option<int> {
    first_other_at_from(pieces, skip, cell, 0)
}

/// The `Option<usize>` of an executable search, as the mathematical answer.
pub open spec fn opt_index(o: Option<usize>) -> Option<int> {
    match o {
        Some(i) => Some(i as int),
        None => None,
    }
}

/// All piece positions (current and rest) within `POS_LIMIT`.
pub open spec fn pieces_in_range(pieces: Seq<Piece>) -> bool {
    forall|i: int|
        0 <= i < pieces.len() ==> {
            &&& -POS_LIMIT <= #[trigger] pieces[i].pos.column <= POS_LIMIT
            &&& -POS_LIMIT <= pieces[i].pos.row <= POS_LIMIT
            &&& -POS_LIMIT <= pieces[i].initial_pos.column <= POS_LIMIT
            &&& -POS_LIMIT <= pieces[i].initial_pos.row <= POS_LIMIT
        }
}

/// Every piece position is in arithmetic range.
pub proof fn lemma_pieces_in_range(pieces: Seq<Piece>, i: int)
    requires
        pieces_in_range(pieces),
        0 <= i < pieces.len(),
    ensures
        pieces[i].pos.in_range(),
        pieces[i].initial_pos.in_range(),
{
    assert(pieces[i].pos.column <= POS_LIMIT);
}

/// Settling one piece on a bounded coordinate keeps the whole collection
/// in range.
pub proof fn lemma_settled_in_range(p: Seq<Piece>, i: int, v: Coord)
    requires
        pieces_in_range(p),
        0 <= i < p.len(),
        -POS_LIMIT <= v.column <= POS_LIMIT,
        -POS_LIMIT <= v.row <= POS_LIMIT,
    ensures
        pieces_in_range(p.update(i, p[i].spec_settled(v))),
{
    let q = p.update(i, p[i].spec_settled(v));
    assert forall|j: int|
        0 <= j < q.len() implies {
        &&& -POS_LIMIT <= #[trigger] q[j].pos.column <= POS_LIMIT
        &&& -POS_LIMIT <= q[j].pos.row <= POS_LIMIT
        &&& -POS_LIMIT <= q[j].initial_pos.column <= POS_LIMIT
        &&& -POS_LIMIT <= q[j].initial_pos.row <= POS_LIMIT
    } by {
        if j != i {
            assert(q[j] == p[j]);
        }
    }
}

/// The first piece other than `index` resting (by rounded position) on
/// `pos`, scanning from the lowest index.
pub fn any_other_piece_at(pos: Coord, index: usize, pieces: &Vec<Piece>) -> (r: Option<usize>)
    requires
        pieces_in_range(pieces@),
    ensures
        opt_index(r) == first_other_at(pieces@, index as int, pos),
        r is Some ==> r.unwrap() < pieces.len(),
{
    let n = pieces.len();
    let mut i: usize = 0;
    while i < n
        invariant
            0 <= i <= n,
            n == pieces.len(),
            pieces_in_range(pieces@),
            first_other_at(pieces@, index as int, pos) == first_other_at_from(
                pieces@,
                index as int,
                pos,
                i as int,
            ),
        decreases n - i,
    {
        proof {
            lemma_pieces_in_range(pieces@, i as int);
        }
        if i != index && pieces[i].pos.round() == pos {
            return Some(i);
        }
        i = i + 1;
    }
    None
}

/// A knight destination: an L-shaped offset, two cells on one axis and one
/// on the other, occupancy ignored.
pub open spec fn knight_admits(rest: Coord, c: Coord) -> bool {
    let dc = abs_int(c.column - rest.column);
    let dr = abs_int(c.row - rest.row);
    (dc == 2 * UNIT && dr == UNIT) || (dc == UNIT && dr == 2 * UNIT)
}

/// A king destination: one of the eight adjacent cells, occupancy ignored.
pub open spec fn king_admits(rest: Coord, c: Coord) -> bool {
    let dc = c.column - rest.column;
    let dr = c.row - rest.row;
    abs_int(dc) <= UNIT && abs_int(dr) <= UNIT && !(dc == 0 && dr == 0) && dc % (UNIT as int)
        == 0 && dr % (UNIT as int) == 0
}

/// The eight knight destinations from `rest`.
pub fn knight_positions(rest: Coord) -> (r: Vec<Coord>)
    requires
        rest.in_range(),
    ensures
        forall|c: Coord| r@.contains(c) <==> knight_admits(rest, c),
{
    let mut v: Vec<Coord> = Vec::new();
    v.push(rest.plus(Coord::new_i(-2, -1)));
    v.push(rest.plus(Coord::new_i(-1, -2)));
    v.push(rest.plus(Coord::new_i(2, 1)));
    v.push(rest.plus(Coord::new_i(1, 2)));
    v.push(rest.plus(Coord::new_i(2, -1)));
    v.push(rest.plus(Coord::new_i(1, -2)));
    v.push(rest.plus(Coord::new_i(-1, 2)));
    v.push(rest.plus(Coord::new_i(-2, 1)));
    proof {
        assert forall|c: Coord| v@.contains(c) implies knight_admits(rest, c) by {
            let k = choose|k: int| 0 <= k < v@.len() && v@[k] == c;
        }
        assert forall|c: Coord| knight_admits(rest, c) implies v@.contains(c) by {
            let dc = c.column - rest.column;
            let dr = c.row - rest.row;
            if dc == -2 * UNIT && dr == -UNIT {
                assert(v@[0] == c);
            } else if dc == -UNIT && dr == -2 * UNIT {
                assert(v@[1] == c);
            } else if dc == 2 * UNIT && dr == UNIT {
                assert(v@[2] == c);
            } else if dc == UNIT && dr == 2 * UNIT {
                assert(v@[3] == c);
            } else if dc == 2 * UNIT && dr == -UNIT {
                assert(v@[4] == c);
            } else if dc == UNIT && dr == -2 * UNIT {
                assert(v@[5] == c);
            } else if dc == -UNIT && dr == 2 * UNIT {
                assert(v@[6] == c);
            } else {
                assert(v@[7] == c);
            }
        }
    }
    v
}

/// The eight king destinations from `rest`.
pub fn king_positions(rest: Coord) -> (r: Vec<Coord>)
    requires
        rest.in_range(),
    ensures
        forall|c: Coord| r@.contains(c) <==> king_admits(rest, c),
{
    let mut v: Vec<Coord> = Vec::new();
    v.push(rest.plus(Coord::new_i(-1, 0)));
    v.push(rest.plus(Coord::new_i(1, 0)));
    v.push(rest.plus(Coord::new_i(0, -1)));
    v.push(rest.plus(Coord::new_i(0, 1)));
    v.push(rest.plus(Coord::new_i(-1, -1)));
    v.push(rest.plus(Coord::new_i(1, -1)));
    v.push(rest.plus(Coord::new_i(1, 1)));
    v.push(rest.plus(Coord::new_i(-1, 1)));
    proof {
        assert forall|c: Coord| v@.contains(c) implies king_admits(rest, c) by {
            let k = choose|k: int| 0 <= k < v@.len() && v@[k] == c;
        }
        assert forall|c: Coord| king_admits(rest, c) implies v@.contains(c) by {
            let dc = c.column - rest.column;
            let dr = c.row - rest.row;
            lemma_step_within_unit(dc);
            lemma_step_within_unit(dr);
            if dc == -UNIT && dr == 0 {
                assert(v@[0] == c);
            } else if dc == UNIT && dr == 0 {
                assert(v@[1] == c);
            } else if dc == 0 && dr == -UNIT {
                assert(v@[2] == c);
            } else if dc == 0 && dr == UNIT {
                assert(v@[3] == c);
            } else if dc == -UNIT && dr == -UNIT {
                assert(v@[4] == c);
            } else if dc == UNIT && dr == -UNIT {
                assert(v@[5] == c);
            } else if dc == UNIT && dr == UNIT {
                assert(v@[6] == c);
            } else {
                assert(v@[7] == c);
            }
        }
    }
    v
}

/// A multiple of `UNIT` within one cell of zero is `-UNIT`, `0` or `UNIT`.
proof fn lemma_step_within_unit(d: int)
    requires
        d % (UNIT as int) == 0,
        abs_int(d) <= UNIT,
    ensures
        d == -UNIT || d == 0 || d == UNIT,
{
    if 0 < d < UNIT || -UNIT < d < 0 {
        assert(d % (UNIT as int) != 0) by (nonlinear_arith)
            requires
                0 < d < UNIT || -UNIT < d < 0,
        ;
    }
}

/// A rook destination: any other cell sharing the piece's (floored) column
/// or row line, the full extent of the board; intervening pieces do not
/// block.
pub open spec fn rook_admits(rest: Coord, size: Coord, c: Coord) -> bool {
    let rcol = floor_units(rest.column as int);
    let rrow = floor_units(rest.row as int);
    c != rest && ((c.row == rrow && (c.column as int) % (UNIT as int) == 0 && 0 <= c.column
        && c.column < floor_units(size.column as int)) || (c.column == rcol && (c.row as int) % (
    UNIT as int) == 0 && 0 <= c.row && c.row < floor_units(size.row as int)))
}

/// No multiple of `UNIT` lies strictly between consecutive cell corners.
proof fn lemma_unit_multiple_below(x: int, k: int)
    requires
        x % (UNIT as int) == 0,
        x < (k + 1) * UNIT,
    ensures
        x <= k * UNIT,
{
    let q = x / (UNIT as int);
    assert(x == q * UNIT) by (nonlinear_arith)
        requires
            x % (UNIT as int) == 0,
            q == x / (UNIT as int),
    ;
    assert(q * UNIT < (k + 1) * UNIT ==> q <= k) by (nonlinear_arith);
    assert(q <= k ==> q * UNIT <= k * UNIT) by (nonlinear_arith);
}

/// Every cell on the rook's two lines, except its own cell.
pub fn get_rook_positions(piece_pos: Coord, board_size: Coord) -> (r: Vec<Coord>)
    requires
        piece_pos.in_range(),
        board_size.in_range(),
        board_size.column >= 0,
        board_size.row >= 0,
    ensures
        forall|c: Coord| r@.contains(c) <==> rook_admits(piece_pos, board_size, c),
{
    let mut positions: Vec<Coord> = Vec::new();
    let rfloor = piece_pos.floor();
    let cols = board_size.column();
    let rows = board_size.row();
    proof {
        crate::coord::lemma_floor_units_close(board_size.column as int);
        crate::coord::lemma_floor_units_close(board_size.row as int);
        assert(floor_units(board_size.column as int) >= 0 && floor_units(board_size.row as int)
            >= 0) by (nonlinear_arith)
            requires
                board_size.column >= 0,
                board_size.row >= 0,
        ;
        assert(cols >= 0 && rows >= 0) by (nonlinear_arith)
            requires
                cols * UNIT == floor_units(board_size.column as int),
                rows * UNIT == floor_units(board_size.row as int),
                floor_units(board_size.column as int) >= 0,
                floor_units(board_size.row as int) >= 0,
        ;
    }
    let mut column: i64 = 0;
    while column < cols
        invariant
            0 <= column,
            column <= cols || column == 0,
            cols * UNIT == floor_units(board_size.column as int),
            cols * UNIT <= COORD_LIMIT,
            piece_pos.in_range(),
            rfloor.column == floor_units(piece_pos.column as int),
            rfloor.row == floor_units(piece_pos.row as int),
            forall|c: Coord|
                positions@.contains(c) <==> (c != piece_pos && c.row == rfloor.row && (
                c.column as int) % (UNIT as int) == 0 && 0 <= c.column && c.column < column
                    * UNIT),
        decreases cols - column,
    {
        proof {
            assert(0 <= column * UNIT && column * UNIT < (column + 1) * UNIT && (column + 1)
                * UNIT <= cols * UNIT) by (nonlinear_arith)
                requires
                    0 <= column < cols,
            ;
        }
        let coord = Coord { column: column * UNIT, row: rfloor.row };
        if !(coord == piece_pos) {
            positions.push(coord);
        }
        proof {
            assert((coord.column as int) % (UNIT as int) == 0) by (nonlinear_arith)
                requires
                    coord.column == column * UNIT,
            ;
            assert forall|c: Coord|
                (c != piece_pos && c.row == rfloor.row && (c.column as int) % (UNIT as int) == 0
                    && 0 <= c.column && c.column < (column + 1) * UNIT) implies (c == coord || (
            c.column < column * UNIT)) by {
                lemma_unit_multiple_below(c.column as int, column as int);
                if c.column == column * UNIT {
                    assert(c == coord);
                }
            }
        }
        column = column + 1;
    }
    let mut row: i64 = 0;
    while row < rows
        invariant
            0 <= row,
            row <= rows || row == 0,
            rows * UNIT == floor_units(board_size.row as int),
            rows * UNIT <= COORD_LIMIT,
            piece_pos.in_range(),
            rfloor.column == floor_units(piece_pos.column as int),
            rfloor.row == floor_units(piece_pos.row as int),
            forall|c: Coord|
                positions@.contains(c) <==> ((c != piece_pos && c.row == rfloor.row && (
                c.column as int) % (UNIT as int) == 0 && 0 <= c.column && c.column < floor_units(
                    board_size.column as int,
                )) || (c != piece_pos && c.column == rfloor.column && (c.row as int) % (
                UNIT as int) == 0 && 0 <= c.row && c.row < row * UNIT)),
        decreases rows - row,
    {
        proof {
            assert(0 <= row * UNIT && row * UNIT < (row + 1) * UNIT && (row + 1) * UNIT <= rows
                * UNIT) by (nonlinear_arith)
                requires
                    0 <= row < rows,
            ;
        }
        let coord = Coord { column: rfloor.column, row: row * UNIT };
        if !(coord == piece_pos) {
            positions.push(coord);
        }
        proof {
            assert((coord.row as int) % (UNIT as int) == 0) by (nonlinear_arith)
                requires
                    coord.row == row * UNIT,
            ;
            assert forall|c: Coord|
                (c != piece_pos && c.column == rfloor.column && (c.row as int) % (UNIT as int)
                    == 0 && 0 <= c.row && c.row < (row + 1) * UNIT) implies (c == coord || (c.row
                < row * UNIT)) by {
                lemma_unit_multiple_below(c.row as int, row as int);
                if c.row == row * UNIT {
                    assert(c == coord);
                }
            }
        }
        row = row + 1;
    }
    proof {
        if cols <= 0 {
            assert(cols * UNIT <= 0) by (nonlinear_arith)
                requires
                    cols <= 0,
            ;
        }
        if rows <= 0 {
            assert(rows * UNIT <= 0) by (nonlinear_arith)
                requires
                    rows <= 0,
            ;
        }
    }
    positions
}

/// The `t`-th step outward from `rest` along a diagonal of per-step offsets
/// `dc`, `dr`.
pub open spec fn diag_point(rest: Coord, dc: int, dr: int, t: int) -> Coord {
    Coord { column: (rest.column + t * dc) as i64, row: (rest.row + t * dr) as i64 }
}

/// A destination on one diagonal ray: some step outward from `rest`, every
/// step up to it (itself included) inside the board — the ray stops at the
/// first cell off the board.
pub open spec fn diag_admits(rest: Coord, size: Coord, dc: int, dr: int, c: Coord) -> bool {
    exists|t: int|
        1 <= t && c == #[trigger] diag_point(rest, dc, dr, t) && (forall|s: int|
            1 <= s <= t ==> spec_inside(diag_point(rest, dc, dr, s), size))
}

/// A bishop destination: a cell on one of the four diagonal rays from the
/// rest position, walked outward until leaving the board; intervening pieces
/// do not block.
pub open spec fn bishop_admits(rest: Coord, size: Coord, c: Coord) -> bool {
    ||| diag_admits(rest, size, -(UNIT as int), -(UNIT as int), c)
    ||| diag_admits(rest, size, -(UNIT as int), UNIT as int, c)
    ||| diag_admits(rest, size, UNIT as int, -(UNIT as int), c)
    ||| diag_admits(rest, size, UNIT as int, UNIT as int, c)
}

/// Walks one diagonal ray from `piece_pos`, appending every cell until the
/// ray leaves the board.
pub fn add_diagonal(piece_pos: Coord, board_size: Coord, delta: Coord, positions: &mut Vec<Coord>)
    requires
        piece_pos.in_range(),
        board_size.in_range(),
        abs_int(delta.column as int) == UNIT,
        abs_int(delta.row as int) == UNIT,
    ensures
        forall|c: Coord|
            final(positions)@.contains(c) <==> old(positions)@.contains(c) || diag_admits(
                piece_pos,
                board_size,
                delta.column as int,
                delta.row as int,
            c),
{
    let ghost orig = positions@;
    let ghost dc = delta.column as int;
    let ghost dr = delta.row as int;
    let mut diagonal = piece_pos.plus(delta);
    let ghost mut t: int = 1;
    proof {
        assert(diag_point(piece_pos, dc, dr, 1) == diagonal);
    }
    while inside(diagonal, board_size)
        invariant
            1 <= t,
            piece_pos.in_range(),
            board_size.in_range(),
            dc == delta.column as int,
            dr == delta.row as int,
            abs_int(dc) == UNIT,
            abs_int(dr) == UNIT,
            -COORD_LIMIT - UNIT <= diagonal.column <= COORD_LIMIT + UNIT,
            -COORD_LIMIT - UNIT <= diagonal.row <= COORD_LIMIT + UNIT,
            diagonal.column == piece_pos.column + t * dc,
            diagonal.row == piece_pos.row + t * dr,
            diagonal == diag_point(piece_pos, dc, dr, t),
            forall|s: int|
                1 <= s < t ==> spec_inside(#[trigger] diag_point(piece_pos, dc, dr, s), board_size),
            forall|c: Coord|
                #[trigger] positions@.contains(c) <==> (orig.contains(c) || (exists|s: int|
                    1 <= s < t && c == #[trigger] diag_point(piece_pos, dc, dr, s))),
        decreases (if delta.column > 0 {
            board_size.column - diagonal.column
        } else {
            diagonal.column as int
        }) + UNIT,
    {
        positions.push(diagonal);
        diagonal = diagonal.plus(delta);
        proof {
            t = t + 1;
            assert((t - 1) * dc + dc == t * dc && (t - 1) * dr + dr == t * dr) by (nonlinear_arith);
            assert(diag_point(piece_pos, dc, dr, t) == diagonal);
        }
    }
    proof {
        assert forall|c: Coord|
            diag_admits(piece_pos, board_size, dc, dr, c) implies positions@.contains(c) by {
            let w = choose|w: int|
                1 <= w && c == #[trigger] diag_point(piece_pos, dc, dr, w) && (forall|s: int|
                    1 <= s <= w ==> spec_inside(diag_point(piece_pos, dc, dr, s), board_size));
            if w >= t {
                assert(spec_inside(diag_point(piece_pos, dc, dr, t), board_size));
                assert(false);
            } else {
                assert(1 <= w < t && c == diag_point(piece_pos, dc, dr, w));
                assert(exists|s: int|
                    1 <= s < t && c == #[trigger] diag_point(piece_pos, dc, dr, s));
                assert(positions@.contains(c));
            }
        }
        assert forall|c: Coord|
            positions@.contains(c) && !orig.contains(c) implies diag_admits(
            piece_pos,
            board_size,
            dc,
            dr,
            c,
        ) by {
            let s = choose|s: int| 1 <= s < t && c == #[trigger] diag_point(piece_pos, dc, dr, s);
            assert(forall|q: int|
                1 <= q <= s ==> spec_inside(#[trigger] diag_point(piece_pos, dc, dr, q),
                board_size));
        }
    }
}

/// All four diagonal rays of the bishop.
pub fn get_bishop_positions(piece_pos: Coord, board_size: Coord) -> (r: Vec<Coord>)
    requires
        piece_pos.in_range(),
        board_size.in_range(),
    ensures
        forall|c: Coord| r@.contains(c) <==> bishop_admits(piece_pos, board_size, c),
{
    let mut positions: Vec<Coord> = Vec::new();
    add_diagonal(piece_pos, board_size, Coord::new_i(-1, -1), &mut positions);
    add_diagonal(piece_pos, board_size, Coord::new_i(-1, 1), &mut positions);
    add_diagonal(piece_pos, board_size, Coord::new_i(1, -1), &mut positions);
    add_diagonal(piece_pos, board_size, Coord::new_i(1, 1), &mut positions);
    positions
}

/// The column direction a pawn advances in: White toward lower columns,
/// Black toward higher ones.
pub open spec fn pawn_dir(team: Team) -> int {
    match team {
        Team::White => -(UNIT as int),
        Team::Black => UNIT as int,
    }
}

/// Whether a pawn of `team` resting at `rest` sits on its team's starting
/// column (the second column from its own edge).
pub open spec fn pawn_at_start(rest: Coord, team: Team, size: Coord) -> bool {
    match team {
        Team::White => rest.column == size.column - 2 * UNIT,
        Team::Black => rest.column == UNIT,
    }
}

/// Whether a pawn of the piece at `idx` may strike `attack`: an enemy piece
/// rests exactly there and the square is on the board.
pub open spec fn pawn_attack_ok(pieces: Seq<Piece>, idx: int, size: Coord, attack: Coord) -> bool {
    match first_other_at(pieces, idx, attack) {
        Some(o) => spec_inside(attack, size) && pieces[o].team != pieces[idx].team,
        None => false,
    }
}

/// The pawn's candidate destinations, in offer order: the double step
/// (offered whenever the pawn is on its starting column, the path not
/// checked), the single step forward (only onto a free square), then the two
/// forward diagonals (only onto an enemy).
pub open spec fn pawn_moves_seq(pieces: Seq<Piece>, idx: int, size: Coord) -> Seq<Coord> {
    let rest = pieces[idx].initial_pos;
    let team = pieces[idx].team;
    let d = pawn_dir(team);
    let dbl = coord_at(rest.column + 2 * d, rest.row as int);
    let front = coord_at(rest.column + d, rest.row as int);
    let att1 = coord_at(rest.column + d, rest.row + UNIT);
    let att2 = coord_at(rest.column + d, rest.row - UNIT);
    let s0: Seq<Coord> = if pawn_at_start(rest, team, size) {
        seq![dbl]
    } else {
        Seq::empty()
    };
    let s1: Seq<Coord> = if first_other_at(pieces, idx, front) is None {
        seq![front]
    } else {
        Seq::empty()
    };
    let s2: Seq<Coord> = if pawn_attack_ok(pieces, idx, size, att1) {
        seq![att1]
    } else {
        Seq::empty()
    };
    let s3: Seq<Coord> = if pawn_attack_ok(pieces, idx, size, att2) {
        seq![att2]
    } else {
        Seq::empty()
    };
    s0 + s1 + s2 + s3
}

/// The pawn's candidate destinations from its rest position.
pub fn get_pawn_positions(piece_index: usize, pieces: &Vec<Piece>, board_size: Coord) -> (r: Vec<
    Coord,
>)
    requires
        piece_index < pieces.len(),
        pieces_in_range(pieces@),
        board_size.in_range(),
    ensures
        r@ == pawn_moves_seq(pieces@, piece_index as int, board_size),
{
    proof {
        lemma_pieces_in_range(pieces@, piece_index as int);
    }
    let rest = pieces[piece_index].initial_pos;
    let team = pieces[piece_index].team;
    let mut direction = Coord::new_i(-1, 0);
    let mut moves: Vec<Coord> = Vec::new();
    if team.is_white() {
        if rest.column == board_size.column - 2 * UNIT {
            moves.push(direction.times(2).plus(rest));
        }
    } else {
        direction = direction.times(-1);
        if rest.column == UNIT {
            moves.push(direction.times(2).plus(rest));
        }
    }
    let front = direction.plus(rest);
    if any_other_piece_at(front, piece_index, pieces).is_none() {
        moves.push(front);
    }
    let att1 = rest.plus(direction).plus(Coord::new_i(0, 1));
    if let Some(other) = any_other_piece_at(att1, piece_index, pieces) {
        if inside(att1, board_size) && !(pieces[other].team == pieces[piece_index].team) {
            moves.push(att1);
        }
    }
    let att2 = rest.plus(direction).plus(Coord::new_i(0, -1));
    if let Some(other) = any_other_piece_at(att2, piece_index, pieces) {
        if inside(att2, board_size) && !(pieces[other].team == pieces[piece_index].team) {
            moves.push(att2);
        }
    }
    proof {
        assert(moves@ =~= pawn_moves_seq(pieces@, piece_index as int, board_size));
    }
    moves
}

/// A destination that `movement` admits for the piece at `idx`, before the
/// board-extent filter.
pub open spec fn pattern_admits(
    movement: Move,
    pieces: Seq<Piece>,
    idx: int,
    size: Coord,
    c: Coord,
) -> bool {
    let rest = pieces[idx].initial_pos;
    match movement {
        Move::Pawn => pawn_moves_seq(pieces, idx, size).contains(c),
        Move::Bishop => bishop_admits(rest, size, c),
        Move::Knight => knight_admits(rest, c),
        Move::Rook => rook_admits(rest, size, c),
        Move::King => king_admits(rest, c),
        Move::Queen => rook_admits(rest, size, c) || bishop_admits(rest, size, c),
    }
}

/// The destinations one movement pattern offers the piece at `piece_index`.
pub fn piece_moves(
    movement: &Move,
    pieces: &Vec<Piece>,
    piece_index: usize,
    board_size: Coord,
) -> (r: Vec<Coord>)
    requires
        piece_index < pieces.len(),
        pieces_in_range(pieces@),
        board_size.in_range(),
        board_size.column >= 0,
        board_size.row >= 0,
    ensures
        forall|c: Coord|
            r@.contains(c) <==> pattern_admits(
                *movement,
                pieces@,
                piece_index as int,
                board_size,
                c,
            ),
{
    proof {
        lemma_pieces_in_range(pieces@, piece_index as int);
    }
    let rest = pieces[piece_index].initial_pos;
    match movement {
        Move::Pawn => get_pawn_positions(piece_index, pieces, board_size),
        Move::Bishop => get_bishop_positions(rest, board_size),
        Move::Knight => knight_positions(rest),
        Move::Rook => get_rook_positions(rest, board_size),
        Move::King => king_positions(rest),
        Move::Queen => {
            let mut v = get_rook_positions(rest, board_size);
            let mut b = get_bishop_positions(rest, board_size);
            v.append(&mut b);
            v
        },
    }
}

/// A destination the piece at `idx` may settle on: admitted by one of its
/// movement patterns and strictly inside the board.
pub open spec fn move_allowed(pieces: Seq<Piece>, idx: int, size: Coord, c: Coord) -> bool {
    (exists|k: int|
        0 <= k < pieces[idx].moveset@.len() && pattern_admits(
            #[trigger] pieces[idx].moveset@[k],
            pieces,
            idx,
            size,
            c,
        )) && spec_inside(c, size)
}

/// The legality oracle: every cell the piece at `piece_index` may settle on,
/// from its rest position, turn order and the referee aside. The piece's own
/// rest cell is not in the set; `Board::deselect` accepts it separately.
pub fn possible_moves(size: Coord, pieces: &Vec<Piece>, piece_index: usize) -> (r: Vec<Coord>)
    requires
        piece_index < pieces.len(),
        pieces_in_range(pieces@),
        size.in_range(),
        size.column >= 0,
        size.row >= 0,
    ensures
        forall|c: Coord| r@.contains(c) <==> move_allowed(pieces@, piece_index as int, size, c),
{
    let mut valid_moves: Vec<Coord> = Vec::new();
    let n = pieces[piece_index].moveset.len();
    let mut k: usize = 0;
    while k < n
        invariant
            0 <= k <= n,
            piece_index < pieces.len(),
            n == pieces[piece_index as int].moveset@.len(),
            pieces_in_range(pieces@),
            size.in_range(),
            size.column >= 0,
            size.row >= 0,
            forall|c: Coord|
                #[trigger] valid_moves@.contains(c) <==> (exists|j: int|
                    0 <= j < k && pattern_admits(
                        #[trigger] pieces@[piece_index as int].moveset@[j],
                        pieces@,
                        piece_index as int,
                        size,
                        c,
                    )),
        decreases n - k,
    {
        let movement = pieces[piece_index].moveset[k];
        let mut pm = piece_moves(&movement, pieces, piece_index, size);
        valid_moves.append(&mut pm);
        k = k + 1;
    }
    let mut filtered: Vec<Coord> = Vec::new();
    let m = valid_moves.len();
    let mut i: usize = 0;
    while i < m
        invariant
            0 <= i <= m,
            m == valid_moves.len(),
            size.in_range(),
            forall|c: Coord|
                #[trigger] filtered@.contains(c) <==> ((exists|j: int|
                    0 <= j < i && valid_moves@[j] == c) && spec_inside(c, size)),
        decreases m - i,
    {
        let c = valid_moves[i];
        if inside(c, size) {
            filtered.push(c);
        }
        i = i + 1;
    }
    proof {
        assert forall|c: Coord|
            filtered@.contains(c) <==> move_allowed(pieces@, piece_index as int, size, c) by {
            if filtered@.contains(c) {
                let j = choose|j: int| 0 <= j < m && valid_moves@[j] == c;
                assert(valid_moves@.contains(c));
            }
            if move_allowed(pieces@, piece_index as int, size, c) {
                assert(valid_moves@.contains(c));
                let j = choose|j: int| 0 <= j < valid_moves@.len() && valid_moves@[j] == c;
            }
        }
    }
    filtered
}

/// First index at or after `i` whose piece rests exactly on `cell`.
pub open spec fn first_piece_exactly_at_from(pieces: Seq<Piece>, cell: Coord, i: int) -> Option<
    int,
>
    decreases pieces.len() - i when 0 <= i <= pieces.len()
{
    if i >= pieces.len() {
        None
    } else if pieces[i].pos == cell {
        Some(i)
    } else {
        first_piece_exactly_at_from(pieces, cell, i + 1)
    }
}

/// First index whose piece's position is exactly `cell`: the piece the
/// cursor picks up.
pub open spec fn first_piece_exactly_at(pieces: Seq<Piece>, cell: Coord) -> Option<int> {
    first_piece_exactly_at_from(pieces, cell, 0)
}

/// The whole game state: the pieces, the cursor, the current selection, the
/// board extent, and the referee.
pub struct Board {
    pub cursor: Coord,
    pub selected: Option<usize>,
    pub size: Coord,
    pub pieces: Vec<Piece>,
    pub referee: Referee,
}

/// The movement pattern of the `k`-th back-row piece of a standard chess
/// set.
pub open spec fn back_pattern(k: int) -> Move {
    if k == 0 || k == 7 {
        Move::Rook
    } else if k == 1 || k == 6 {
        Move::Knight
    } else if k == 2 || k == 5 {
        Move::Bishop
    } else if k == 3 {
        Move::Queen
    } else {
        Move::King
    }
}

impl Board {
    /// The board's invariant: the extent is a whole, bounded number of
    /// cells; every piece stays in arithmetic range with its rest position
    /// on a cell; every piece but a selected one rests on a cell; the
    /// selection and the referee's focus name existing pieces; and the
    /// referee meets its own invariant.
    pub open spec fn wf(self) -> bool {
        &&& self.size.aligned()
        &&& self.size.in_range()
        &&& self.size.column >= 0
        &&& self.size.row >= 0
        &&& self.pieces@.len() <= PIECES_LIMIT
        &&& pieces_in_range(self.pieces@)
        &&& -POS_LIMIT <= self.cursor.column <= POS_LIMIT
        &&& -POS_LIMIT <= self.cursor.row <= POS_LIMIT
        &&& match self.selected {
            Some(i) => i < self.pieces@.len(),
            None => true,
        }
        &&& forall|i: int|
            0 <= i < self.pieces@.len() ==> (#[trigger] self.pieces@[i].initial_pos).aligned()
        &&& forall|i: int|
            0 <= i < self.pieces@.len() && self.selected != Some(i as usize) ==> (
            #[trigger] self.pieces@[i].pos).aligned()
        &&& self.referee.wf()
        &&& match self.referee.focused {
            Some(f) => f.piece_index < self.pieces@.len(),
            None => true,
        }
    }

    /// A board with the given pieces, nothing selected, and a fresh referee.
    pub fn new(cursor: Coord, size: Coord, pieces: Vec<Piece>) -> (r: Board)
        requires
            size.aligned(),
            size.in_range(),
            size.column >= 0,
            size.row >= 0,
            pieces@.len() <= PIECES_LIMIT,
            pieces_in_range(pieces@),
            -POS_LIMIT <= cursor.column <= POS_LIMIT,
            -POS_LIMIT <= cursor.row <= POS_LIMIT,
            forall|i: int|
                0 <= i < pieces@.len() ==> (#[trigger] pieces@[i].initial_pos).aligned() && pieces@[
                    i
                ].pos.aligned(),
        ensures
            r.wf(),
            r.cursor == cursor,
            r.selected is None,
            r.size == size,
            r.pieces == pieces,
            r.referee == initial_referee(),
    {
        Board { cursor, selected: None, size, pieces, referee: Referee::new() }
    }

    /// A standard chess position: for each of the eight rows, a White back
    /// piece on column 7 and its pawn on column 6, a Black back piece on
    /// column 0 and its pawn on column 1.
    pub fn new_chess(cursor: Coord, size: Coord) -> (r: Board)
        requires
            size.aligned(),
            size.in_range(),
            size.column >= 0,
            size.row >= 0,
            -POS_LIMIT <= cursor.column <= POS_LIMIT,
            -POS_LIMIT <= cursor.row <= POS_LIMIT,
        ensures
            r.wf(),
            r.cursor == cursor,
            r.selected is None,
            r.size == size,
            r.referee == initial_referee(),
            r.pieces@.len() == 32,
            forall|k: int|
                0 <= k < 8 ==> {
                    &&& is_chess_piece(
                        #[trigger] r.pieces@[4 * k],
                        coord_at(7 * UNIT, k * UNIT),
                        back_pattern(k),
                        Team::White,
                    )
                    &&& is_chess_piece(
                        r.pieces@[4 * k + 1],
                        coord_at(0, k * UNIT),
                        back_pattern(k),
                        Team::Black,
                    )
                    &&& is_chess_piece(
                        r.pieces@[4 * k + 2],
                        coord_at(6 * UNIT, k * UNIT),
                        Move::Pawn,
                        Team::White,
                    )
                    &&& is_chess_piece(
                        r.pieces@[4 * k + 3],
                        coord_at(UNIT as int, k * UNIT),
                        Move::Pawn,
                        Team::Black,
                    )
                },
    {
        let mut pieces: Vec<Piece> = Vec::new();
        let mut row: i32 = 0;
        while row < 8
            invariant
                0 <= row <= 8,
                pieces@.len() == 4 * row,
                pieces_in_range(pieces@),
                forall|i: int|
                    0 <= i < pieces@.len() ==> (#[trigger] pieces@[i].initial_pos).aligned()
                        && pieces@[i].pos.aligned(),
                forall|k: int|
                    0 <= k < row ==> {
                        &&& is_chess_piece(
                            #[trigger] pieces@[4 * k],
                            coord_at(7 * UNIT, k * UNIT),
                            back_pattern(k),
                            Team::White,
                        )
                        &&& is_chess_piece(
                            pieces@[4 * k + 1],
                            coord_at(0, k * UNIT),
                            back_pattern(k),
                            Team::Black,
                        )
                        &&& is_chess_piece(
                            pieces@[4 * k + 2],
                            coord_at(6 * UNIT, k * UNIT),
                            Move::Pawn,
                            Team::White,
                        )
                        &&& is_chess_piece(
                            pieces@[4 * k + 3],
                            coord_at(UNIT as int, k * UNIT),
                            Move::Pawn,
                            Team::Black,
                        )
                    },
            decreases 8 - row,
        {
            proof {
                assert(0 <= row * UNIT <= 7 * UNIT) by (nonlinear_arith)
                    requires
                        0 <= row < 8,
                ;
            }
            let ghost before = pieces@;
            let movement = back_pattern_of(row);
            let back_white = Piece::new(Coord::new_i(7, row), movement, Team::White);
            let ghost g0 = back_white;
            pieces.push(back_white);
            let back_black = Piece::new(Coord::new_i(0, row), movement, Team::Black);
            let ghost g1 = back_black;
            pieces.push(back_black);
            let pawn_white = Piece::new(Coord::new_i(6, row), Move::Pawn, Team::White);
            let ghost g2 = pawn_white;
            pieces.push(pawn_white);
            let pawn_black = Piece::new(Coord::new_i(1, row), Move::Pawn, Team::Black);
            let ghost g3 = pawn_black;
            pieces.push(pawn_black);
            proof {
                assert forall|i: int|
                    0 <= i < pieces@.len() implies {
                    &&& -POS_LIMIT <= #[trigger] pieces@[i].pos.column <= POS_LIMIT
                    &&& -POS_LIMIT <= pieces@[i].pos.row <= POS_LIMIT
                    &&& -POS_LIMIT <= pieces@[i].initial_pos.column <= POS_LIMIT
                    &&& -POS_LIMIT <= pieces@[i].initial_pos.row <= POS_LIMIT
                } by {
                    if i < before.len() {
                        assert(pieces@[i] == before[i]);
                    } else {
                        assert(pieces@[i] == g0 || pieces@[i] == g1 || pieces@[i] == g2
                            || pieces@[i] == g3);
                    }
                }
            }
            row = row + 1;
        }
        Board::new(cursor, size, pieces)
    }

    /// One frame: the referee ticks (watching the pieces as they are), then
    /// every piece's moved-this-tick flag is cleared.
    pub fn tick(&mut self, delta: i64)
        requires
            old(self).wf(),
            1 <= delta <= DELTA_LIMIT,
            forall|i: int|
                0 <= i < old(self).pieces@.len() ==> #[trigger] old(self).pieces@[i].pos != old(
                    self,
                ).referee.position,
        ensures
            final(self).wf(),
            final(self).referee == tick_step(
                old(self).referee,
                delta as int,
                old(self).pieces@,
            ),
            final(self).pieces@.len() == old(self).pieces@.len(),
            forall|i: int|
                0 <= i < old(self).pieces@.len() ==> #[trigger] final(self).pieces@[i] == (Piece {
                    moved: false,
                    ..old(self).pieces@[i]
                }),
            final(self).cursor == old(self).cursor,
            final(self).selected == old(self).selected,
            final(self).size == old(self).size,
    {
        self.referee.tick(delta, &self.pieces);
        let n = self.pieces.len();
        let mut i: usize = 0;
        while i < n
            invariant
                0 <= i <= n,
                n == self.pieces@.len(),
                self.pieces@.len() == old(self).pieces@.len(),
                forall|j: int|
                    0 <= j < i ==> #[trigger] self.pieces@[j] == (Piece {
                        moved: false,
                        ..old(self).pieces@[j]
                    }),
                forall|j: int|
                    i <= j < n ==> #[trigger] self.pieces@[j] == old(self).pieces@[j],
                self.referee == tick_step(old(self).referee, delta as int, old(self).pieces@),
                self.referee.wf(),
                match self.referee.focused {
                    Some(f) => f.piece_index < self.pieces@.len(),
                    None => true,
                },
                self.cursor == old(self).cursor,
                self.selected == old(self).selected,
                self.size == old(self).size,
            decreases n - i,
        {
            self.pieces[i].moved = false;
            i = i + 1;
        }
    }

    /// Moves the cursor by `delta`; while a piece is selected, it is
    /// dragged along and flagged as moved.
    pub fn move_cursor_rel(&mut self, delta: Coord)
        requires
            old(self).wf(),
            -POS_LIMIT <= old(self).cursor.column + delta.column <= POS_LIMIT,
            -POS_LIMIT <= old(self).cursor.row + delta.row <= POS_LIMIT,
            match old(self).selected {
                Some(i) => -POS_LIMIT <= old(self).pieces@[i as int].pos.column + delta.column
                    <= POS_LIMIT && -POS_LIMIT <= old(self).pieces@[i as int].pos.row + delta.row
                    <= POS_LIMIT,
                None => true,
            },
        ensures
            final(self).wf(),
            final(self).cursor.column == old(self).cursor.column + delta.column,
            final(self).cursor.row == old(self).cursor.row + delta.row,
            final(self).selected == old(self).selected,
            final(self).size == old(self).size,
            final(self).referee == old(self).referee,
            match old(self).selected {
                Some(i) => final(self).pieces@ == old(self).pieces@.update(
                    i as int,
                    Piece {
                        pos: coord_at(
                            old(self).pieces@[i as int].pos.column + delta.column,
                            old(self).pieces@[i as int].pos.row + delta.row,
                        ),
                        moved: true,
                        ..old(self).pieces@[i as int]
                    },
                ),
                None => final(self).pieces@ == old(self).pieces@,
            },
    {
        if self.selected.is_some() {
            let i = self.selected.unwrap();
            let newpos = self.pieces[i].pos.plus(delta);
            self.pieces[i].pos = newpos;
            self.pieces[i].moved = true;
            proof {
                assert(self.pieces@ =~= old(self).pieces@.update(
                    i as int,
                    Piece {
                        pos: coord_at(
                            old(self).pieces@[i as int].pos.column + delta.column,
                            old(self).pieces@[i as int].pos.row + delta.row,
                        ),
                        moved: true,
                        ..old(self).pieces@[i as int]
                    },
                ));
            }
        }
        self.cursor = self.cursor.plus(delta);
    }

    /// Picks up the piece resting exactly on the cursor's cell, if one is
    /// there; with no piece there, nothing happens. Only callable while
    /// nothing is selected.
    pub fn select(&mut self)
        requires
            old(self).wf(),
            old(self).selected is None,
        ensures
            final(self).wf(),
            opt_index(final(self).selected) == first_piece_exactly_at(
                old(self).pieces@,
                round_coord(old(self).cursor),
            ),
            final(self).cursor == old(self).cursor,
            final(self).size == old(self).size,
            final(self).pieces == old(self).pieces,
            final(self).referee == old(self).referee,
    {
        let new_selection = self.cursor.round();
        let n = self.pieces.len();
        let mut i: usize = 0;
        while i < n
            invariant
                0 <= i <= n,
                n == self.pieces@.len(),
                *self == *old(self),
                old(self).wf(),
                old(self).selected is None,
                new_selection == round_coord(old(self).cursor),
                first_piece_exactly_at(old(self).pieces@, new_selection)
                    == first_piece_exactly_at_from(old(self).pieces@, new_selection, i as int),
            decreases n - i,
        {
            if self.pieces[i].pos == new_selection {
                self.selected = Some(i);
                return ;
            }
            i = i + 1;
        }
    }

    /// Whether a piece is currently selected.
    pub fn selected(&self) -> (r: bool)
        ensures
            r == (self.selected is Some),
    {
        self.selected.is_some()
    }
}

/// What a `first_other_at` answer means: a found index names a piece, other
/// than the skipped one, resting on the cell; no answer means no such piece
/// from `i` on.
pub proof fn lemma_first_other_at_props(pieces: Seq<Piece>, skip: int, cell: Coord, i: int)
    requires
        0 <= i <= pieces.len(),
    ensures
        match first_other_at_from(pieces, skip, cell, i) {
            Some(j) => i <= j < pieces.len() && j != skip && round_coord(pieces[j].pos) == cell,
            None => forall|j: int|
                i <= j < pieces.len() && j != skip ==> round_coord(
                    (#[trigger] pieces[j]).pos,
                ) != cell,
        },
    decreases pieces.len() - i,
{
    if i < pieces.len() && !(i != skip && round_coord(pieces[i].pos) == cell) {
        lemma_first_other_at_props(pieces, skip, cell, i + 1);
    }
}

/// The search skips `skip`, so two piece lists that agree everywhere else
/// give the same answer.
pub proof fn lemma_first_other_at_agree(
    p: Seq<Piece>,
    q: Seq<Piece>,
    skip: int,
    cell: Coord,
    i: int,
)
    requires
        p.len() == q.len(),
        forall|j: int| 0 <= j < p.len() && j != skip ==> #[trigger] p[j] == q[j],
        0 <= i <= p.len(),
    ensures
        first_other_at_from(p, skip, cell, i) == first_other_at_from(q, skip, cell, i),
    decreases p.len() - i,
{
    if i < p.len() {
        lemma_first_other_at_agree(p, q, skip, cell, i + 1);
    }
}

/// Number of pieces from index `j` on, other than `i`, whose rounded
/// position sits in column `cell_col` at or below row `r`: the pieces that
/// can still block the stacking of a captured piece.
pub open spec fn blockers_below(p: Seq<Piece>, i: int, cell_col: int, r: int, j: int) -> int
    decreases p.len() - j when 0 <= j <= p.len()
{
    if j >= p.len() {
        0
    } else {
        (if j != i && round_coord(p[j].pos).column == cell_col && round_coord(p[j].pos).row <= r {
            1int
        } else {
            0int
        }) + blockers_below(p, i, cell_col, r, j + 1)
    }
}

proof fn lemma_blockers_range(p: Seq<Piece>, i: int, cell_col: int, r: int, j: int)
    requires
        0 <= j <= p.len(),
    ensures
        0 <= blockers_below(p, i, cell_col, r, j) <= p.len() - j,
    decreases p.len() - j,
{
    if j < p.len() {
        lemma_blockers_range(p, i, cell_col, r, j + 1);
    }
}

proof fn lemma_blockers_mono(p: Seq<Piece>, i: int, cell_col: int, r1: int, r2: int, j: int)
    requires
        0 <= j <= p.len(),
        r1 <= r2,
    ensures
        blockers_below(p, i, cell_col, r1, j) <= blockers_below(p, i, cell_col, r2, j),
    decreases p.len() - j,
{
    if j < p.len() {
        lemma_blockers_mono(p, i, cell_col, r1, r2, j + 1);
    }
}

proof fn lemma_blockers_strict(p: Seq<Piece>, i: int, cell_col: int, r: int, j: int, jb: int)
    requires
        0 <= j <= jb < p.len(),
        jb != i,
        round_coord(p[jb].pos).column == cell_col,
        round_coord(p[jb].pos).row == r,
    ensures
        blockers_below(p, i, cell_col, r - UNIT, j) < blockers_below(p, i, cell_col, r, j),
    decreases p.len() - j,
{
    if j == jb {
        lemma_blockers_mono(p, i, cell_col, r - UNIT, r, j + 1);
    } else {
        lemma_blockers_strict(p, i, cell_col, r, j + 1, jb);
    }
}

/// A piece list equal to `p` except at `i`, where the piece has been put to
/// rest off the board: dead, in its column, parked on the first stacking
/// row (counted down from two below the board) where no other piece rests.
pub open spec fn killed_from(p: Seq<Piece>, q: Seq<Piece>, i: int) -> bool {
    &&& q.len() == p.len()
    &&& forall|j: int| 0 <= j < p.len() && j != i ==> #[trigger] q[j] == p[j]
    &&& q[i].pos.column == p[i].pos.column
    &&& q[i].initial_pos == p[i].initial_pos
    &&& q[i].moveset == p[i].moveset
    &&& q[i].team == p[i].team
    &&& q[i].moved == p[i].moved
    &&& !q[i].alive
    &&& -2 * UNIT - UNIT * p.len() <= q[i].pos.row <= -2 * UNIT
    &&& (-2 * UNIT - q[i].pos.row) % (UNIT as int) == 0
    &&& first_other_at(q, i, round_coord(q[i].pos)) is None
    &&& forall|r: int|
        q[i].pos.row < r <= -2 * UNIT && (-2 * UNIT - r) % (UNIT as int) == 0
            ==> #[trigger] first_other_at(
            q,
            i,
            round_coord(Coord { column: p[i].pos.column, row: r as i64 }),
        ) is Some
}

impl Board {
    /// The first other piece resting (by rounded position) on the cell of
    /// the piece at `selected_i`.
    fn any_overlapping_piece(&self, selected_i: usize) -> (r: Option<usize>)
        requires
            selected_i < self.pieces@.len(),
            pieces_in_range(self.pieces@),
        ensures
            opt_index(r) == first_other_at(
                self.pieces@,
                selected_i as int,
                round_coord(self.pieces@[selected_i as int].pos),
            ),
            r is Some ==> r.unwrap() < self.pieces@.len(),
    {
        any_overlapping_piece(selected_i, &self.pieces)
    }

    /// Captures the piece at `selected_i`: marks it dead and stacks it
    /// below the board, in its own column, on the first row (from two below
    /// the board downward) no other piece rests on — dead pieces keep their
    /// slots and never overlap.
    #[verifier::rlimit(60)]
    #[verifier::spinoff_prover]
    pub fn kill(&mut self, selected_i: usize)
        requires
            selected_i < old(self).pieces@.len(),
            old(self).pieces@.len() <= PIECES_LIMIT,
            pieces_in_range(old(self).pieces@),
        ensures
            killed_from(old(self).pieces@, final(self).pieces@, selected_i as int),
            final(self).pieces@[selected_i as int].pos.row >= -2 * UNIT - UNIT * old(
                self,
            ).pieces@.len(),
            pieces_in_range(final(self).pieces@),
            final(self).cursor == old(self).cursor,
            final(self).selected == old(self).selected,
            final(self).size == old(self).size,
            final(self).referee == old(self).referee,
    {
        let si = selected_i;
        self.pieces[si].alive = false;
        let col = self.pieces[si].pos.column;
        self.pieces[si].pos = Coord { column: col, row: -2 * UNIT };
        let ghost p0 = self.pieces@;
        let ghost cc = round_units(col as int);
        let ghost m0 = blockers_below(p0, si as int, cc, -2 * UNIT, 0);
        proof {
            lemma_blockers_range(p0, si as int, cc, -2 * UNIT, 0);
        }
        while self.any_overlapping_piece(si).is_some()
            invariant
                si < self.pieces@.len(),
                self.pieces@.len() == p0.len(),
                p0.len() == old(self).pieces@.len(),
                p0.len() <= PIECES_LIMIT,
                pieces_in_range(p0),
                col == p0[si as int].pos.column,
                cc == round_units(col as int),
                m0 == blockers_below(p0, si as int, cc, -2 * UNIT, 0),
                0 <= m0 <= p0.len(),
                pieces_in_range(self.pieces@),
                self.pieces@[si as int].pos.row >= -2 * UNIT - UNIT * (PIECES_LIMIT as int),
                forall|j: int|
                    0 <= j < p0.len() && j != si ==> #[trigger] self.pieces@[j] == p0[j],
                forall|j: int|
                    0 <= j < p0.len() && j != si ==> #[trigger] old(self).pieces@[j] == p0[j],
                self.pieces@[si as int].pos.column == col,
                self.pieces@[si as int].initial_pos == p0[si as int].initial_pos,
                self.pieces@[si as int].moveset == p0[si as int].moveset,
                self.pieces@[si as int].team == p0[si as int].team,
                self.pieces@[si as int].moved == p0[si as int].moved,
                !self.pieces@[si as int].alive,
                p0[si as int].initial_pos == old(self).pieces@[si as int].initial_pos,
                p0[si as int].moveset == old(self).pieces@[si as int].moveset,
                p0[si as int].team == old(self).pieces@[si as int].team,
                p0[si as int].moved == old(self).pieces@[si as int].moved,
                col == old(self).pieces@[si as int].pos.column,
                self.pieces@[si as int].pos.row <= -2 * UNIT,
                (-2 * UNIT - self.pieces@[si as int].pos.row) % (UNIT as int) == 0,
                -2 * UNIT - self.pieces@[si as int].pos.row <= UNIT * (m0 - blockers_below(
                    p0,
                    si as int,
                    cc,
                    self.pieces@[si as int].pos.row as int,
                    0,
                )),
                forall|r: int|
                    self.pieces@[si as int].pos.row < r <= -2 * UNIT && (-2 * UNIT - r) % (
                    UNIT as int) == 0 ==> #[trigger] first_other_at(
                        self.pieces@,
                        si as int,
                        round_coord(Coord { column: col, row: r as i64 }),
                    ) is Some,
                self.cursor == old(self).cursor,
                self.selected == old(self).selected,
                self.size == old(self).size,
                self.referee == old(self).referee,
            decreases blockers_below(p0, si as int, cc, self.pieces@[si as int].pos.row as int, 0),
        {
            let ghost pre = self.pieces@;
            let ghost row = pre[si as int].pos.row as int;
            proof {
                lemma_blockers_range(p0, si as int, cc, row, 0);
                assert(-2 * UNIT - row <= UNIT * PIECES_LIMIT) by (nonlinear_arith)
                    requires
                        -2 * UNIT - row <= UNIT * (m0 - blockers_below(p0, si as int, cc, row, 0)),
                        m0 <= PIECES_LIMIT,
                        0 <= blockers_below(p0, si as int, cc, row, 0),
                        UNIT > 0,
                ;
            }
            let r2 = self.pieces[si].pos.row - UNIT;
            self.pieces[si].pos = Coord { column: col, row: r2 };
            proof {
                // the cell just vacated was blocked by another piece
                let cell = round_coord(pre[si as int].pos);
                lemma_first_other_at_agree(pre, p0, si as int, cell, 0);
                lemma_first_other_at_props(p0, si as int, cell, 0);
                let jb = first_other_at(p0, si as int, cell).unwrap();
                crate::coord::lemma_round_aligned(row);
                assert(cell == Coord { column: cc as i64, row: row as i64 });
                lemma_blockers_strict(p0, si as int, cc, row, 0, jb);
                lemma_blockers_mono(p0, si as int, cc, row - UNIT, row, 0);
                lemma_blockers_range(p0, si as int, cc, row - UNIT, 0);
                assert(-2 * UNIT - (row - UNIT) <= UNIT * (m0 - blockers_below(
                    p0,
                    si as int,
                    cc,
                    row - UNIT,
                    0,
                ))) by (nonlinear_arith)
                    requires
                        -2 * UNIT - row <= UNIT * (m0 - blockers_below(p0, si as int, cc, row, 0)),
                        blockers_below(p0, si as int, cc, row - UNIT, 0) <= blockers_below(
                            p0,
                            si as int,
                            cc,
                            row,
                            0,
                        ) - 1,
                        UNIT > 0,
                ;
                assert(row - UNIT >= -2 * UNIT - UNIT * (PIECES_LIMIT as int))
                    by (nonlinear_arith)
                    requires
                        -2 * UNIT - (row - UNIT) <= UNIT * (m0 - blockers_below(
                            p0,
                            si as int,
                            cc,
                            row - UNIT,
                            0,
                        )),
                        0 <= blockers_below(p0, si as int, cc, row - UNIT, 0),
                        m0 <= PIECES_LIMIT,
                        UNIT > 0,
                ;
                assert(UNIT * (PIECES_LIMIT as int) + 2 * UNIT <= POS_LIMIT) by (nonlinear_arith);
                // rows above stay blocked: only the stacked piece moved
                assert forall|r: int|
                    r2 < r <= -2 * UNIT && (-2 * UNIT - r) % (UNIT as int) == 0
                        implies #[trigger] first_other_at(
                        self.pieces@,
                        si as int,
                        round_coord(Coord { column: col, row: r as i64 }),
                    ) is Some by {
                    let rc = round_coord(Coord { column: col, row: r as i64 });
                    lemma_first_other_at_agree(pre, self.pieces@, si as int, rc, 0);
                    if r == row {
                        assert(first_other_at(pre, si as int, rc) is Some);
                    }
                }
            }
        }
        proof {
            let q = self.pieces@;
            let cell = round_coord(q[si as int].pos);
            crate::coord::lemma_round_aligned(q[si as int].pos.row as int);
            lemma_blockers_range(p0, si as int, cc, q[si as int].pos.row as int, 0);
            assert(-2 * UNIT - q[si as int].pos.row <= UNIT * p0.len()) by (nonlinear_arith)
                requires
                    -2 * UNIT - q[si as int].pos.row <= UNIT * (m0 - blockers_below(
                        p0,
                        si as int,
                        cc,
                        q[si as int].pos.row as int,
                        0,
                    )),
                    m0 <= p0.len(),
                    0 <= blockers_below(p0, si as int, cc, q[si as int].pos.row as int, 0),
                    UNIT > 0,
            ;
        }
    }
}

/// The first other piece resting (by rounded position) on the cell of the
/// piece at `selected_i`.
fn any_overlapping_piece(selected_i: usize, pieces: &Vec<Piece>) -> (r: Option<usize>)
    requires
        selected_i < pieces@.len(),
        pieces_in_range(pieces@),
    ensures
        opt_index(r) == first_other_at(
            pieces@,
            selected_i as int,
            round_coord(pieces@[selected_i as int].pos),
        ),
        r is Some ==> r.unwrap() < pieces@.len(),
{
    proof {
        lemma_pieces_in_range(pieces@, selected_i as int);
    }
    let selected_rounded = pieces[selected_i].pos.round();
    any_other_piece_at(selected_rounded, selected_i, pieces)
}

/// Whether `v` lists the coordinate `c`.
fn contains_coord(v: &Vec<Coord>, c: Coord) -> (r: bool)
    ensures
        r == v@.contains(c),
{
    let n = v.len();
    let mut i: usize = 0;
    while i < n
        invariant
            0 <= i <= n,
            n == v@.len(),
            forall|j: int| 0 <= j < i ==> v@[j] != c,
        decreases n - i,
    {
        if v[i] == c {
            return true;
        }
        i = i + 1;
    }
    false
}

/// The referee with only its turn indicator replaced.
pub open spec fn referee_with_turn(r: Referee, t: Team) -> Referee {
    Referee { turn: t, ..r }
}

/// How a board after `deselect` relates to the board before it: the full
/// resolution rule for dropping the selected piece. `b0` is the board at
/// the call with a piece selected, `b1` the board after.
pub open spec fn deselect_rel(b0: Board, b1: Board) -> bool
    recommends
        b0.selected is Some,
{
    let s = b0.selected.unwrap() as int;
    let p = b0.pieces@;
    let piece = p[s];
    let dest = round_coord(piece.pos);
    let saw = sees(b0.referee, piece.pos);
    &&& b1.cursor == round_coord(b0.cursor)
    &&& b1.selected is None
    &&& b1.size == b0.size
    &&& match first_other_at(p, s, dest) {
        Some(ov) => {
            if p[ov].team != piece.team {
                // an enemy rests on the drop cell
                if move_allowed(p, s, b0.size, dest) && saw {
                    // witnessed legal capture: the enemy is stacked away,
                    // the mover settles on the cell, the turn passes
                    &&& (exists|q: Seq<Piece>|
                        #[trigger] killed_from(p, q, ov) && b1.pieces@ == q.update(
                            s,
                            q[s].spec_settled(dest),
                        ))
                    &&& b1.referee == referee_with_turn(
                        b0.referee,
                        b0.referee.turn.spec_toggled(),
                    )
                } else {
                    // rejected: the mover snaps back to its rest position
                    &&& b1.pieces@ == p.update(s, piece.spec_settled(piece.initial_pos))
                    &&& b1.referee == b0.referee
                }
            } else {
                // a friendly piece: the two swap cells; if the referee saw
                // either piece after the swap, the mover is captured and
                // the other piece takes the drop cell instead
                let q1 = p.update(ov, p[ov].spec_settled(round_coord(piece.initial_pos))).update(
                    s,
                    piece.spec_settled(dest),
                );
                let saw2 = sees(b0.referee, dest) || sees(
                    b0.referee,
                    round_coord(piece.initial_pos),
                );
                if saw2 {
                    let q2 = q1.update(ov, q1[ov].spec_settled(dest));
                    &&& (exists|q3: Seq<Piece>|
                        #[trigger] killed_from(q2, q3, s) && b1.pieces@ == q3)
                    &&& b1.referee == b0.referee
                } else {
                    &&& b1.pieces@ == q1
                    &&& b1.referee == b0.referee
                }
            }
        },
        None => {
            // free cell: the mover settles on it, and pays if witnessed
            let ip = round_coord(piece.initial_pos);
            let q1 = p.update(s, piece.spec_settled(dest));
            if saw {
                if !(move_allowed(p, s, b0.size, dest) || dest == piece.initial_pos) {
                    // witnessed move to an illegal cell
                    &&& (exists|q: Seq<Piece>| #[trigger] killed_from(q1, q, s) && b1.pieces@ == q)
                    &&& b1.referee == b0.referee
                } else if b0.referee.turn != piece.team {
                    // witnessed move out of turn
                    &&& (exists|q: Seq<Piece>| #[trigger] killed_from(q1, q, s) && b1.pieces@ == q)
                    &&& b1.referee == b0.referee
                } else if dest != ip {
                    // witnessed legal move: the turn passes
                    &&& b1.pieces@ == q1
                    &&& b1.referee == referee_with_turn(
                        b0.referee,
                        b0.referee.turn.spec_toggled(),
                    )
                } else {
                    // picked up and put back: nothing happens
                    &&& b1.pieces@ == q1
                    &&& b1.referee == b0.referee
                }
            } else {
                // unwitnessed: the move stands, whatever it was
                &&& b1.pieces@ == q1
                &&& b1.referee == b0.referee
            }
        },
    }
}

/// `(-2 UNIT - x)` a multiple of a cell makes `x` one.
proof fn lemma_offset_aligned(x: int)
    requires
        (-2 * UNIT - x) % (UNIT as int) == 0,
    ensures
        x % (UNIT as int) == 0,
{
    let d = -2 * UNIT - x;
    assert(x % (UNIT as int) == 0) by (nonlinear_arith)
        requires
            d % (UNIT as int) == 0,
            x == -2 * UNIT - d,
            UNIT > 0,
    ;
}

impl Board {
    /// Drops the selected piece on its nearest cell and resolves the move:
    /// a witnessed illegal or out-of-turn drop costs the piece, a witnessed
    /// legal capture or move passes the turn, an unwitnessed drop simply
    /// stands — swaps and captures included. The selection is cleared and
    /// the cursor snaps to its cell. Only callable while a piece is
    /// selected.
    #[verifier::rlimit(100)]
    #[verifier::spinoff_prover]
    pub fn deselect(&mut self)
        requires
            old(self).wf(),
            old(self).selected is Some,
        ensures
            final(self).wf(),
            deselect_rel(*old(self), *final(self)),
    {
        let selected_i = self.selected.unwrap();
        let ghost p = self.pieces@;
        let ghost s = selected_i as int;
        proof {
            lemma_pieces_in_range(p, s);
            crate::coord::lemma_round_bound(p[s].pos.column as int, POS_LIMIT as int);
            crate::coord::lemma_round_bound(p[s].pos.row as int, POS_LIMIT as int);
            crate::coord::lemma_round_bound(p[s].initial_pos.column as int, POS_LIMIT as int);
            crate::coord::lemma_round_bound(p[s].initial_pos.row as int, POS_LIMIT as int);
            crate::coord::lemma_round_bound(old(self).cursor.column as int, POS_LIMIT as int);
            crate::coord::lemma_round_bound(old(self).cursor.row as int, POS_LIMIT as int);
            self.referee.lemma_wf_radar_ready();
        }
        let initial = self.pieces[selected_i].initial_pos;
        let any_overlap_i = self.any_overlapping_piece(selected_i);
        if any_overlap_i.is_some() {
            let overlap_i = any_overlap_i.unwrap();
            let ghost ov = overlap_i as int;
            proof {
                lemma_first_other_at_props(p, s, round_coord(p[s].pos), 0);
            }
            let moves = possible_moves(self.size, &self.pieces, selected_i);
            let mut watched: Vec<usize> = Vec::new();
            watched.push(selected_i);
            let ghost widx = watched@;
            let referee_saw = self.referee.saw_any_piece(&self.pieces, watched);
            proof {
                assert(widx.len() == 1 && widx[0] == selected_i);
                if referee_saw {
                    let k = choose|k: int|
                        0 <= k < widx.len() && sees(self.referee, p[widx[k] as int].pos);
                    assert(k == 0);
                } else {
                    assert(!sees(self.referee, p[widx[0] as int].pos));
                }
                assert(referee_saw == sees(old(self).referee, p[s].pos));
            }
            proof {
                lemma_pieces_in_range(p, ov);
                crate::coord::lemma_round_bound(p[ov].pos.column as int, POS_LIMIT as int);
                crate::coord::lemma_round_bound(p[ov].pos.row as int, POS_LIMIT as int);
            }
            let rounded_pos = self.pieces[overlap_i].pos.round();
            let enemy = !(self.pieces[overlap_i].team == self.pieces[selected_i].team);
            if enemy {
                if contains_coord(&moves, rounded_pos) && referee_saw {
                    self.kill(overlap_i);
                    let ghost q = self.pieces@;
                    self.pieces[selected_i].set_pos(rounded_pos);
                    self.referee.turn.toggle();
                    proof {
                        assert(killed_from(p, q, ov) && self.pieces@ == q.update(
                            s,
                            q[s].spec_settled(round_coord(p[s].pos)),
                        ));
                    }
                } else {
                    self.pieces[selected_i].set_pos(initial);
                }
            } else {
                let initial_cell = initial.round();
                self.pieces[overlap_i].set_pos(initial_cell);
                self.pieces[selected_i].set_pos(rounded_pos);
                let mut both: Vec<usize> = Vec::new();
                both.push(selected_i);
                both.push(overlap_i);
                let ghost bidx = both@;
                let ghost mid_pieces = self.pieces@;
                proof {
                    lemma_settled_in_range(p, ov, initial_cell);
                    lemma_settled_in_range(
                        p.update(ov, p[ov].spec_settled(initial_cell)),
                        s,
                        rounded_pos,
                    );
                    assert(mid_pieces == p.update(ov, p[ov].spec_settled(initial_cell)).update(
                        s,
                        p[s].spec_settled(rounded_pos),
                    ));
                }
                let saw_swap = self.referee.saw_any_piece(&self.pieces, both);
                proof {
                    assert(bidx.len() == 2 && bidx[0] == selected_i && bidx[1] == overlap_i);
                    if saw_swap {
                        let k = choose|k: int|
                            0 <= k < bidx.len() && sees(
                                self.referee,
                                mid_pieces[bidx[k] as int].pos,
                            );
                        assert(k == 0 || k == 1);
                    } else {
                        assert(!sees(self.referee, mid_pieces[bidx[0] as int].pos));
                        assert(!sees(self.referee, mid_pieces[bidx[1] as int].pos));
                    }
                }
                if saw_swap {
                    self.pieces[overlap_i].set_pos(rounded_pos);
                    let ghost q2 = self.pieces@;
                    proof {
                        lemma_settled_in_range(mid_pieces, ov, rounded_pos);
                        assert(q2 == mid_pieces.update(ov, mid_pieces[ov].spec_settled(
                            rounded_pos,
                        )));
                    }
                    self.kill(selected_i);
                    proof {
                        assert(killed_from(q2, self.pieces@, s));
                    }
                }
            }
        } else {
            let rounded_pos = self.pieces[selected_i].pos.round();
            let initial_pos = self.pieces[selected_i].initial_pos.round();
            let mut moves = possible_moves(self.size, &self.pieces, selected_i);
            moves.push(initial);
            let mut watched: Vec<usize> = Vec::new();
            watched.push(selected_i);
            let ghost widx = watched@;
            let referee_saw = self.referee.saw_any_piece(&self.pieces, watched);
            proof {
                assert(widx.len() == 1 && widx[0] == selected_i);
                if referee_saw {
                    let k = choose|k: int|
                        0 <= k < widx.len() && sees(self.referee, p[widx[k] as int].pos);
                    assert(k == 0);
                } else {
                    assert(!sees(self.referee, p[widx[0] as int].pos));
                }
                assert(referee_saw == sees(old(self).referee, p[s].pos));
            }
            self.pieces[selected_i].set_pos(rounded_pos);
            proof {
                lemma_settled_in_range(p, s, rounded_pos);
                assert(self.pieces@ == p.update(s, p[s].spec_settled(rounded_pos)));
            }
            if referee_saw {
                if !contains_coord(&moves, rounded_pos) {
                    self.kill(selected_i);
                } else if !(self.referee.turn == self.pieces[selected_i].team) {
                    self.kill(selected_i);
                } else if !(rounded_pos == initial_pos) {
                    self.referee.turn.toggle();
                }
            }
        }
        self.selected = None;
        let snapped = self.cursor.round();
        self.cursor = snapped;
        proof {
            lemma_deselect_wf_bits(*old(self), *self);
        }
    }
}

/// Rounding a bounded coordinate keeps it bounded, on a cell.
proof fn lemma_round_coord_props(c: Coord)
    requires
        -POS_LIMIT <= c.column <= POS_LIMIT,
        -POS_LIMIT <= c.row <= POS_LIMIT,
    ensures
        -POS_LIMIT <= round_coord(c).column <= POS_LIMIT,
        -POS_LIMIT <= round_coord(c).row <= POS_LIMIT,
        round_coord(c).aligned(),
{
    assert(POS_LIMIT % UNIT == 0) by (nonlinear_arith)
        requires
            POS_LIMIT == 0x100_0000_0000,
            UNIT == 0x400,
    ;
    crate::coord::lemma_round_bound(c.column as int, POS_LIMIT as int);
    crate::coord::lemma_round_bound(c.row as int, POS_LIMIT as int);
    crate::coord::lemma_round_units_close(c.column as int);
    crate::coord::lemma_round_units_close(c.row as int);
}

/// A stacked capture keeps every piece in range; the dead piece sits on a
/// cell whenever its column was on one.
proof fn lemma_killed_props(p: Seq<Piece>, q: Seq<Piece>, i: int)
    requires
        killed_from(p, q, i),
        0 <= i < p.len(),
        p.len() <= PIECES_LIMIT,
        pieces_in_range(p),
    ensures
        pieces_in_range(q),
        (p[i].pos.column as int) % (UNIT as int) == 0 ==> q[i].pos.aligned(),
{
    assert(UNIT * p.len() + 2 * UNIT <= POS_LIMIT) by (nonlinear_arith)
        requires
            0 <= p.len() <= PIECES_LIMIT,
            UNIT == 0x400,
            PIECES_LIMIT == 0x10_0000,
            POS_LIMIT == 0x100_0000_0000,
    ;
    lemma_offset_aligned(q[i].pos.row as int);
    assert forall|j: int|
        0 <= j < q.len() implies {
        &&& -POS_LIMIT <= #[trigger] q[j].pos.column <= POS_LIMIT
        &&& -POS_LIMIT <= q[j].pos.row <= POS_LIMIT
        &&& -POS_LIMIT <= q[j].initial_pos.column <= POS_LIMIT
        &&& -POS_LIMIT <= q[j].initial_pos.row <= POS_LIMIT
    } by {
        if j != i {
            assert(q[j] == p[j]);
        }
    }
}

/// The pieces after a resolved drop stay in range and on cells.
#[verifier::rlimit(100)]
#[verifier::spinoff_prover]
proof fn lemma_deselect_wf_bits(b0: Board, b1: Board)
    requires
        b0.wf(),
        b0.selected is Some,
        deselect_rel(b0, b1),
        b1.referee.wf(),
        b1.referee.focused == b0.referee.focused,
        b1.selected is None,
        -POS_LIMIT <= b1.cursor.column <= POS_LIMIT,
        -POS_LIMIT <= b1.cursor.row <= POS_LIMIT,
    ensures
        b1.wf(),
{
    let s = b0.selected.unwrap() as int;
    let p = b0.pieces@;
    let piece = p[s];
    let dest = round_coord(piece.pos);
    lemma_pieces_in_range(p, s);
    lemma_round_coord_props(piece.pos);
    lemma_round_coord_props(piece.initial_pos);
    let ip = round_coord(piece.initial_pos);
    match first_other_at(p, s, dest) {
        Some(ov) => {
            lemma_first_other_at_props(p, s, dest, 0);
            if p[ov].team != piece.team {
                if move_allowed(p, s, b0.size, dest) && sees(b0.referee, piece.pos) {
                    let q = choose|q: Seq<Piece>|
                        #[trigger] killed_from(p, q, ov) && b1.pieces@ == q.update(
                            s,
                            q[s].spec_settled(dest),
                        );
                    lemma_killed_props(p, q, ov);
                    assert(q[s] == p[s]);
                    assert(pieces_in_range(b1.pieces@));
                    assert(p[ov].pos.aligned());
                    assert forall|j: int|
                        0 <= j < b1.pieces@.len() implies (
                    #[trigger] b1.pieces@[j].initial_pos).aligned() && b1.pieces@[j].pos.aligned()
                        by {
                        if j == s {
                            assert(b1.pieces@[j] == q[s].spec_settled(dest));
                        } else if j == ov {
                            assert(b1.pieces@[j] == q[ov]);
                        } else {
                            assert(b1.pieces@[j] == p[j]);
                        }
                    }
                } else {
                    assert forall|j: int|
                        0 <= j < b1.pieces@.len() implies {
                        &&& -POS_LIMIT <= #[trigger] b1.pieces@[j].pos.column <= POS_LIMIT
                        &&& -POS_LIMIT <= b1.pieces@[j].pos.row <= POS_LIMIT
                        &&& -POS_LIMIT <= b1.pieces@[j].initial_pos.column <= POS_LIMIT
                        &&& -POS_LIMIT <= b1.pieces@[j].initial_pos.row <= POS_LIMIT
                    } by {
                        if j != s {
                            assert(b1.pieces@[j] == p[j]);
                        }
                    }
                    assert(pieces_in_range(b1.pieces@));
                }
            } else {
                let q1 = p.update(ov, p[ov].spec_settled(ip)).update(s, piece.spec_settled(dest));
                if sees(b0.referee, dest) || sees(b0.referee, ip) {
                    let q2 = q1.update(ov, q1[ov].spec_settled(dest));
                    let q3 = choose|q3: Seq<Piece>|
                        #[trigger] killed_from(q2, q3, s) && b1.pieces@ == q3;
                    assert(pieces_in_range(q2)) by {
                        assert forall|j: int|
                            0 <= j < q2.len() implies {
                            &&& -POS_LIMIT <= #[trigger] q2[j].pos.column <= POS_LIMIT
                            &&& -POS_LIMIT <= q2[j].pos.row <= POS_LIMIT
                            &&& -POS_LIMIT <= q2[j].initial_pos.column <= POS_LIMIT
                            &&& -POS_LIMIT <= q2[j].initial_pos.row <= POS_LIMIT
                        } by {
                            if j != s && j != ov {
                                assert(q2[j] == p[j]);
                            }
                        }
                    }
                    lemma_killed_props(q2, q3, s);
                    assert forall|j: int|
                        0 <= j < b1.pieces@.len() implies (
                    #[trigger] b1.pieces@[j].initial_pos).aligned() && b1.pieces@[j].pos.aligned()
                        by {
                        if j != s && j != ov {
                            assert(b1.pieces@[j] == p[j]);
                        }
                    }
                } else {
                    assert forall|j: int|
                        0 <= j < b1.pieces@.len() implies {
                        &&& -POS_LIMIT <= #[trigger] b1.pieces@[j].pos.column <= POS_LIMIT
                        &&& -POS_LIMIT <= b1.pieces@[j].pos.row <= POS_LIMIT
                        &&& -POS_LIMIT <= b1.pieces@[j].initial_pos.column <= POS_LIMIT
                        &&& -POS_LIMIT <= b1.pieces@[j].initial_pos.row <= POS_LIMIT
                    } by {
                        if j != s && j != ov {
                            assert(b1.pieces@[j] == p[j]);
                        }
                    }
                    assert forall|j: int|
                        0 <= j < b1.pieces@.len() implies (
                    #[trigger] b1.pieces@[j].initial_pos).aligned() && b1.pieces@[j].pos.aligned()
                        by {
                        if j != s && j != ov {
                            assert(b1.pieces@[j] == p[j]);
                        }
                    }
                }
            }
        },
        None => {
            let q1 = p.update(s, piece.spec_settled(dest));
            let witnessed = sees(b0.referee, piece.pos);
            let illegal = !(move_allowed(p, s, b0.size, dest) || dest == piece.initial_pos);
            if witnessed && (illegal || b0.referee.turn != piece.team) {
                let q = choose|q: Seq<Piece>| #[trigger] killed_from(q1, q, s) && b1.pieces@ == q;
                assert(pieces_in_range(q1));
                lemma_killed_props(q1, q, s);
                assert forall|j: int|
                    0 <= j < b1.pieces@.len() implies (
                #[trigger] b1.pieces@[j].initial_pos).aligned() && b1.pieces@[j].pos.aligned() by {
                    if j != s {
                        assert(b1.pieces@[j] == p[j]);
                    }
                }
            } else {
                assert(pieces_in_range(b1.pieces@));
                assert forall|j: int|
                    0 <= j < b1.pieces@.len() implies (
                #[trigger] b1.pieces@[j].initial_pos).aligned() && b1.pieces@[j].pos.aligned() by {
                    if j != s {
                        assert(b1.pieces@[j] == p[j]);
                    }
                }
            }
        },
    }
}

/// The display name of a movement pattern.
pub open spec fn move_name(m: Move) -> Seq<char> {
    match m {
        Move::Pawn => "Pawn"@,
        Move::Bishop => "Bishop"@,
        Move::Knight => "Knight"@,
        Move::Rook => "Rook"@,
        Move::King => "King"@,
        Move::Queen => "Queen"@,
    }
}

/// The words joined by the delimiter, in order, nothing before the first
/// word or after the last.
pub open spec fn join_view(words: Seq<Seq<char>>, delim: Seq<char>) -> Seq<char>
    decreases words.len() when words.len() >= 1
{
    if words.len() <= 1 {
        words[0]
    } else {
        join_view(words.drop_last(), delim) + delim + words.last()
    }
}

/// The display name of one movement pattern.
pub fn move_to_string(movement: Move) -> (r: String)
    ensures
        r@ == move_name(movement),
{
    match movement {
        Move::Pawn => String::from_str("Pawn"),
        Move::Bishop => String::from_str("Bishop"),
        Move::Knight => String::from_str("Knight"),
        Move::Rook => String::from_str("Rook"),
        Move::King => String::from_str("King"),
        Move::Queen => String::from_str("Queen"),
    }
}

/// Joins at least one word with the delimiter between each pair.
pub fn join(words: Vec<String>, delimiter: &str) -> (r: String)
    requires
        words@.len() >= 1,
    ensures
        r@ == join_view(words@.map_values(|w: String| w@), delimiter@),
{
    let ghost views = words@.map_values(|w: String| w@);
    let mut result = String::from_str(words[0].as_str());
    let n = words.len();
    let mut i: usize = 1;
    proof {
        assert(views.subrange(0, 1) =~= seq![views[0]]);
        assert(join_view(views.subrange(0, 1), delimiter@) == views[0]);
    }
    while i < n
        invariant
            1 <= i <= n,
            n == words@.len(),
            views == words@.map_values(|w: String| w@),
            result@ == join_view(views.subrange(0, i as int), delimiter@),
        decreases n - i,
    {
        result.append(delimiter);
        result.append(words[i].as_str());
        proof {
            let pre = views.subrange(0, i as int);
            let cur = views.subrange(0, i + 1);
            assert(cur.drop_last() =~= pre);
            assert(cur.last() == views[i as int]);
        }
        i = i + 1;
    }
    proof {
        assert(views.subrange(0, n as int) =~= views);
    }
    result
}

/// The names of a moveset's patterns, joined with " + ".
pub fn moves_to_string(moveset: &Moveset) -> (r: String)
    requires
        moveset@.len() >= 1,
    ensures
        r@ == join_view(moveset@.map_values(|m: Move| move_name(m)), " + "@),
{
    let n = moveset.len();
    let mut words: Vec<String> = Vec::new();
    let mut i: usize = 0;
    while i < n
        invariant
            0 <= i <= n,
            n == moveset@.len(),
            words@.len() == i,
            forall|j: int| 0 <= j < i ==> (#[trigger] words@[j])@ == move_name(moveset@[j]),
        decreases n - i,
    {
        words.push(move_to_string(moveset[i]));
        i = i + 1;
    }
    let r = join(words, " + ");
    proof {
        assert(words@.map_values(|w: String| w@) =~= moveset@.map_values(
            |m: Move| move_name(m),
        ));
    }
    r
}

/// The `k`-th back-row movement pattern.
fn back_pattern_of(k: i32) -> (r: Move)
    ensures
        r == back_pattern(k as int),
{
    if k == 0 || k == 7 {
        Move::Rook
    } else if k == 1 || k == 6 {
        Move::Knight
    } else if k == 2 || k == 5 {
        Move::Bishop
    } else if k == 3 {
        Move::Queen
    } else {
        Move::King
    }
}

/// Whether `p` is a fresh piece of a standard chess set: resting at `pos`
/// with the single movement pattern `movement`.
pub open spec fn is_chess_piece(p: Piece, pos: Coord, movement: Move, team: Team) -> bool {
    &&& p.initial_pos == pos
    &&& p.pos == pos
    &&& p.moveset@ == seq![movement]
    &&& p.team == team
    &&& !p.moved
    &&& p.alive
}

} // verus!
