//! The laws the game rules obey, stated and proved over the contracts of
//! the board and the referee.

use crate::board::{
    bishop_admits, deselect_rel, diag_admits, diag_point, first_other_at, killed_from,
    move_allowed, pawn_at_start, pawn_attack_ok, pawn_dir, pawn_moves_seq, pieces_in_range,
    rook_admits, spec_inside, Board, Piece,
};
use crate::coord::{
    abs_int, coord_at, lemma_floor_aligned, lemma_round_coord_aligned, round_coord, Coord, UNIT,
};
use crate::referee::sees;
use vstd::prelude::*;

verus! {

broadcast use vstd::seq_lib::lemma_seq_concat_contains_all_elements;

/// A ray that stayed on the board never wrapped: each step's coordinates
/// are exactly the rest position plus the step offsets.
proof fn lemma_diag_exact(rest: Coord, size: Coord, dc: int, dr: int, t: int)
    requires
        rest.in_range(),
        size.in_range(),
        abs_int(dc) == UNIT,
        abs_int(dr) == UNIT,
        1 <= t,
        forall|s: int| 1 <= s <= t ==> spec_inside(#[trigger] diag_point(rest, dc, dr, s), size),
    ensures
        diag_point(rest, dc, dr, t).column == rest.column + t * dc,
        diag_point(rest, dc, dr, t).row == rest.row + t * dr,
    decreases t,
{
    if t == 1 {
        assert(1 * dc == dc && 1 * dr == dr) by (nonlinear_arith);
    } else {
        lemma_diag_exact(rest, size, dc, dr, t - 1);
        assert(spec_inside(diag_point(rest, dc, dr, t - 1), size));
        assert((t - 1) * dc + dc == t * dc && (t - 1) * dr + dr == t * dr) by (nonlinear_arith);
    }
}

/// Rook and bishop destinations never include the piece's own cell and
/// never leave the board, whatever the board's size — provided the piece
/// itself rests on a cell of the board.
pub proof fn lemma_line_moves_on_board(rest: Coord, size: Coord, c: Coord)
    requires
        rest.aligned(),
        rest.in_range(),
        size.aligned(),
        size.in_range(),
        spec_inside(rest, size),
    ensures
        rook_admits(rest, size, c) ==> c != rest && spec_inside(c, size),
        bishop_admits(rest, size, c) ==> c != rest && spec_inside(c, size),
{
    lemma_floor_aligned(rest.column as int);
    lemma_floor_aligned(rest.row as int);
    lemma_floor_aligned(size.column as int);
    lemma_floor_aligned(size.row as int);
    if bishop_admits(rest, size, c) {
        lemma_one_diag_on_board(rest, size, -(UNIT as int), -(UNIT as int), c);
        lemma_one_diag_on_board(rest, size, -(UNIT as int), UNIT as int, c);
        lemma_one_diag_on_board(rest, size, UNIT as int, -(UNIT as int), c);
        lemma_one_diag_on_board(rest, size, UNIT as int, UNIT as int, c);
    }
}

proof fn lemma_one_diag_on_board(rest: Coord, size: Coord, dc: int, dr: int, c: Coord)
    requires
        rest.in_range(),
        size.in_range(),
        abs_int(dc) == UNIT,
        abs_int(dr) == UNIT,
    ensures
        diag_admits(rest, size, dc, dr, c) ==> c != rest && spec_inside(c, size),
{
    if diag_admits(rest, size, dc, dr, c) {
        let t = choose|t: int|
            1 <= t && c == #[trigger] diag_point(rest, dc, dr, t) && (forall|s: int|
                1 <= s <= t ==> spec_inside(diag_point(rest, dc, dr, s), size));
        assert(spec_inside(diag_point(rest, dc, dr, t), size));
        lemma_diag_exact(rest, size, dc, dr, t);
        assert(t * dc != 0) by (nonlinear_arith)
            requires
                t >= 1,
                dc == UNIT || dc == -UNIT,
                UNIT > 0,
        ;
    }
}

/// Appending the rest position to a legal-move collection always makes the
/// rest position a member: the no-op drop always passes the legality check.
pub proof fn lemma_rest_always_offered(moves: Seq<Coord>, rest: Coord)
    ensures
        moves.push(rest).contains(rest),
{
    assert(moves.push(rest)[moves.len() as int] == rest);
}

/// A piece picked up and dropped back on its own free rest cell survives,
/// settles where it was, and never passes the turn — unless the referee
/// watched a piece that was not on turn, which is punished regardless of
/// the destination.
pub proof fn lemma_no_op_move_accepted(b0: Board, b1: Board)
    requires
        b0.wf(),
        b0.selected is Some,
        deselect_rel(b0, b1),
        round_coord(b0.pieces@[b0.selected.unwrap() as int].pos) == b0.pieces@[b0.selected.unwrap()
            as int].initial_pos,
        first_other_at(
            b0.pieces@,
            b0.selected.unwrap() as int,
            round_coord(b0.pieces@[b0.selected.unwrap() as int].pos),
        ) is None,
        b0.referee.turn == b0.pieces@[b0.selected.unwrap() as int].team || !sees(
            b0.referee,
            b0.pieces@[b0.selected.unwrap() as int].pos,
        ),
    ensures
        b1.pieces@[b0.selected.unwrap() as int].alive == b0.pieces@[b0.selected.unwrap()
            as int].alive,
        b1.pieces@[b0.selected.unwrap() as int].pos == b0.pieces@[b0.selected.unwrap()
            as int].initial_pos,
        b1.referee.turn == b0.referee.turn,
{
    let s = b0.selected.unwrap() as int;
    let p = b0.pieces@;
    let piece = p[s];
    crate::board::lemma_pieces_in_range(p, s);
    assert(piece.initial_pos.aligned());
    lemma_round_coord_aligned(piece.initial_pos);
    assert(round_coord(piece.initial_pos) == piece.initial_pos);
    assert(b1.pieces@ == p.update(s, piece.spec_settled(round_coord(piece.pos))));
}

/// Capturing a piece parks it below the board — at a row at least two cells
/// down — overlapping no other piece by rounded position, however many
/// captures have stacked in the same column before it.
pub proof fn lemma_captured_piece_parked(p: Seq<Piece>, q: Seq<Piece>, i: int)
    requires
        killed_from(p, q, i),
        0 <= i < p.len(),
    ensures
        !q[i].alive,
        q[i].pos.row <= -2 * UNIT,
        first_other_at(q, i, round_coord(q[i].pos)) is None,
{
}

/// A pawn on its team's starting column offers exactly one double-step
/// candidate — first in the collection, unconditionally — plus the single
/// step exactly when that square is free, plus each forward diagonal
/// exactly when an enemy rests on it inside the board.
pub proof fn lemma_pawn_start_offers(pieces: Seq<Piece>, idx: int, size: Coord)
    requires
        0 <= idx < pieces.len(),
        pieces_in_range(pieces),
        pawn_at_start(pieces[idx].initial_pos, pieces[idx].team, size),
    ensures
        ({
            let m = pawn_moves_seq(pieces, idx, size);
            let rest = pieces[idx].initial_pos;
            let d = pawn_dir(pieces[idx].team);
            let dbl = coord_at(rest.column + 2 * d, rest.row as int);
            let front = coord_at(rest.column + d, rest.row as int);
            let att1 = coord_at(rest.column + d, rest.row + UNIT);
            let att2 = coord_at(rest.column + d, rest.row - UNIT);
            &&& 1 <= m.len() <= 4
            &&& m[0] == dbl
            &&& forall|k: int| 1 <= k < m.len() ==> m[k] != dbl
            &&& (m.contains(front) <==> first_other_at(pieces, idx, front) is None)
            &&& (m.contains(att1) <==> pawn_attack_ok(pieces, idx, size, att1))
            &&& (m.contains(att2) <==> pawn_attack_ok(pieces, idx, size, att2))
        }),
{
    let m = pawn_moves_seq(pieces, idx, size);
    let rest = pieces[idx].initial_pos;
    let d = pawn_dir(pieces[idx].team);
    let dbl = coord_at(rest.column + 2 * d, rest.row as int);
    let front = coord_at(rest.column + d, rest.row as int);
    let att1 = coord_at(rest.column + d, rest.row + UNIT);
    let att2 = coord_at(rest.column + d, rest.row - UNIT);
    crate::board::lemma_pieces_in_range(pieces, idx);
    assert(dbl.column == rest.column + 2 * d && dbl.row == rest.row);
    assert(front.column == rest.column + d && front.row == rest.row);
    assert(att1.column == rest.column + d && att1.row == rest.row + UNIT);
    assert(att2.column == rest.column + d && att2.row == rest.row - UNIT);
    assert(dbl != front && dbl != att1 && dbl != att2 && front != att1 && front != att2 && att1
        != att2);
    let s1: Seq<Coord> = if first_other_at(pieces, idx, front) is None {
        seq![front]
    } else {
        Seq::empty()
    };
    let s2: Seq<Coord> = if pawn_attack_ok(pieces, idx, size, att1) {
        seq![att1]
    } else {
        Seq::empty()
    };
    let s3: Seq<Coord> = if pawn_attack_ok(pieces, idx, size, att2) {
        seq![att2]
    } else {
        Seq::empty()
    };
    assert(m == seq![dbl] + s1 + s2 + s3);
    assert(seq![dbl].contains(dbl)) by {
        assert(seq![dbl][0] == dbl);
    }
    if s1.len() == 1 {
        assert(s1.contains(front)) by {
            assert(s1[0] == front);
        }
    }
    if s2.len() == 1 {
        assert(s2.contains(att1)) by {
            assert(s2[0] == att1);
        }
    }
    if s3.len() == 1 {
        assert(s3.contains(att2)) by {
            assert(s3[0] == att2);
        }
    }
    assert forall|c: Coord| #[trigger] m.contains(c) implies (c == dbl || s1.contains(c)
        || s2.contains(c) || s3.contains(c)) by {
        assert((seq![dbl] + s1 + s2 + s3).contains(c));
        if seq![dbl].contains(c) {
            let k = choose|k: int| 0 <= k < 1 && seq![dbl][k] == c;
            assert(c == dbl);
        }
    }
    assert forall|c: Coord| s1.contains(c) implies c == front by {
        let k = choose|k: int| 0 <= k < s1.len() && s1[k] == c;
    }
    assert forall|c: Coord| s2.contains(c) implies c == att1 by {
        let k = choose|k: int| 0 <= k < s2.len() && s2[k] == c;
    }
    assert forall|c: Coord| s3.contains(c) implies c == att2 by {
        let k = choose|k: int| 0 <= k < s3.len() && s3[k] == c;
    }
    assert(m[0] == (seq![dbl] + s1 + s2 + s3)[0]);
    assert forall|k: int| 1 <= k < m.len() implies m[k] != dbl by {
        assert(m[k] == (seq![dbl] + s1 + s2 + s3)[k]);
    }
}

/// Turn discipline: an unwitnessed drop never passes the turn, and the turn
/// passes only on a witnessed legal capture or a witnessed legal move to a
/// new cell by the side on turn.
pub proof fn lemma_turn_discipline(b0: Board, b1: Board)
    requires
        b0.wf(),
        b0.selected is Some,
        deselect_rel(b0, b1),
    ensures
        !sees(b0.referee, b0.pieces@[b0.selected.unwrap() as int].pos) ==> b1.referee.turn
            == b0.referee.turn,
        b1.referee.turn != b0.referee.turn ==> {
            let s = b0.selected.unwrap() as int;
            let p = b0.pieces@;
            let dest = round_coord(p[s].pos);
            sees(b0.referee, p[s].pos) && match first_other_at(p, s, dest) {
                Some(ov) => p[ov].team != p[s].team && move_allowed(p, s, b0.size, dest),
                None => b0.referee.turn == p[s].team && (move_allowed(p, s, b0.size, dest) || dest
                    == p[s].initial_pos) && dest != round_coord(p[s].initial_pos),
            }
        },
{
}

} // verus!
