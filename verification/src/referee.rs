//! The referee: a patrolling watcher whose radar cone decides whether a
//! move was witnessed.
//!
//! The patrol interpolates between two column extremes under an eased
//! (smoothstep) time parameter; a piece that moves inside the radar locks
//! the referee's focus until it has stood still long enough. The current
//! turn is tracked here as well.

use crate::board::{lemma_pieces_in_range, pieces_in_range, Piece, Team};
use crate::coord::{
    abs_int, coord_at, tdiv, wide_div, wide_mul, Coord, COORD_LIMIT, HALF_UNIT, UNIT,
};
use vstd::arithmetic::div_mod::lemma_div_is_ordered;
use vstd::prelude::*;

verus! {

/// How far the radar reaches, in cells: the facing direction is normalized
/// and scaled by this factor.
pub const DIR_MULTIPLIER: i64 = 9;

/// How long a watched piece must stand still before the referee loses
/// interest (one second, on the fixed-point scale).
pub const VIGILANCE_TIME: i64 = UNIT;

/// The row the referee patrols on, one cell outside the board.
pub const PATROL_ROW: i64 = -UNIT;

/// The column the patrol is centred on: the middle of the standard board,
/// half a cell short of its midline.
pub const PATROL_CENTER_X: i64 = 3 * UNIT + HALF_UNIT;

/// The left extreme of the patrol path.
pub const PATROL_LEFT_X: i64 = 2 * UNIT + HALF_UNIT;

/// The right extreme of the patrol path.
pub const PATROL_RIGHT_X: i64 = 4 * UNIT + HALF_UNIT;

/// Largest time step one tick may carry (an hour, on the fixed-point scale).
pub const DELTA_LIMIT: i64 = 3600 * UNIT;

/// Bound on the components of the facing direction vector.
pub const DIR_LIMIT: i64 = 0x100_0000;

/// An interpolation parameter confined to `[0, UNIT]` (the fixed-point
/// rendering of `[0, 1]`).
pub open spec fn clamp01(t: int) -> int {
    if t < 0 {
        0
    } else if t > UNIT {
        UNIT as int
    } else {
        t
    }
}

/// Linear interpolation of one component at parameter `t` in `[0, UNIT]`.
pub open spec fn lerp_units(a: int, b: int, t: int) -> int {
    a + tdiv((b - a) * t, UNIT as int)
}

/// The interpolated value stays between its endpoints.
pub proof fn lemma_lerp_bounds(a: int, b: int, t: int)
    requires
        0 <= t <= UNIT,
    ensures
        a <= b ==> a <= lerp_units(a, b, t) <= b,
        b <= a ==> b <= lerp_units(a, b, t) <= a,
{
    let d = b - a;
    if d >= 0 {
        assert(d * t >= 0) by (nonlinear_arith)
            requires
                d >= 0,
                t >= 0,
        ;
        assert(0 <= (d * t) / (UNIT as int) <= d) by (nonlinear_arith)
            requires
                d >= 0,
                0 <= t <= UNIT,
        ;
    } else {
        let e = -d;
        assert(d * t <= 0 && e * t >= 0 && e * t == -(d * t)) by (nonlinear_arith)
            requires
                d < 0,
                e == -d,
                t >= 0,
        ;
        assert(0 <= (e * t) / (UNIT as int) <= e) by (nonlinear_arith)
            requires
                e >= 0,
                0 <= t <= UNIT,
        ;
        assert(tdiv(d * t, UNIT as int) == -((e * t) / (UNIT as int)));
    }
}

/// A scripted straight path between two endpoints, walked by an eased
/// parameter.
pub struct Interpolation {
    pub start: Coord,
    pub end: Coord,
}

/// The path's position at parameter `t`, clamped to `[0, UNIT]`.
pub open spec fn interp_at(ip: Interpolation, t: int) -> Coord {
    let tc = clamp01(t);
    coord_at(
        lerp_units(ip.start.column as int, ip.end.column as int, tc),
        lerp_units(ip.start.row as int, ip.end.row as int, tc),
    )
}

impl Interpolation {
    /// The path from `start` to `end`.
    pub fn new(start: Coord, end: Coord) -> (r: Interpolation)
        ensures
            r.start == start,
            r.end == end,
    {
        Interpolation { start, end }
    }

    /// The position at parameter `t` (out-of-range parameters are clamped),
    /// each component kept between its endpoints.
    pub fn at(&self, t: i64) -> (r: Coord)
        requires
            self.start.in_range(),
            self.end.in_range(),
        ensures
            r == interp_at(*self, t as int),
            r.in_range(),
    {
        let tc: i64 = if t < 0 {
            0
        } else if t > UNIT {
            UNIT
        } else {
            t
        };
        proof {
            lemma_lerp_bounds(self.start.column as int, self.end.column as int, tc as int);
            lemma_lerp_bounds(self.start.row as int, self.end.row as int, tc as int);
        }
        let col = self.start.column + wide_div(
            wide_mul(self.end.column - self.start.column, tc),
            UNIT as i128,
        ) as i64;
        let row = self.start.row + wide_div(
            wide_mul(self.end.row - self.start.row, tc),
            UNIT as i128,
        ) as i64;
        Coord { column: col, row }
    }
}

/// The eased time parameter: the smoothstep blend of `t * t` toward
/// `1 - (1 - t)^2`, which works out to `3 t^2 - 2 t^3` on `[0, 1]`; on the
/// fixed-point scale, with the input clamped to `[0, UNIT]` first.
pub open spec fn smooth_spec(t: int) -> int {
    let tc = clamp01(t);
    (tc * tc * (3 * UNIT - 2 * tc)) / ((UNIT * UNIT) as int)
}

/// The elapsed fraction of a leg of duration `trip`: time over duration, on
/// the fixed-point scale.
pub open spec fn leg_parameter(s: int, trip: int) -> int {
    (s * UNIT) / trip
}

/// The easing curve never decreases.
pub proof fn lemma_smooth_monotone(t1: int, t2: int)
    requires
        t1 <= t2,
    ensures
        smooth_spec(t1) <= smooth_spec(t2),
{
    let a = clamp01(t1);
    let b = clamp01(t2);
    let na = a * a * (3 * UNIT - 2 * a);
    let nb = b * b * (3 * UNIT - 2 * b);
    assert(na <= nb) by (nonlinear_arith)
        requires
            0 <= a <= b <= UNIT,
            na == a * a * (3 * UNIT - 2 * a),
            nb == b * b * (3 * UNIT - 2 * b),
    {
        assert(nb - na == (b - a) * (3 * UNIT * (a + b) - 2 * (a * a + a * b + b * b)));
        assert(a * a <= UNIT * a);
        assert(b * b <= UNIT * b);
        assert(2 * (a * b) <= UNIT * a + UNIT * b);
    }
    lemma_div_is_ordered(na, nb, (UNIT * UNIT) as int);
}

/// The eased parameter stays in `[0, UNIT]`.
pub proof fn lemma_smooth_range(t: int)
    ensures
        0 <= smooth_spec(t) <= UNIT,
{
    let tc = clamp01(t);
    let num = tc * tc * (3 * UNIT - 2 * tc);
    assert(0 <= num <= (UNIT * UNIT) * UNIT) by (nonlinear_arith)
        requires
            0 <= tc <= UNIT,
            num == tc * tc * (3 * UNIT - 2 * tc),
    {
        assert((UNIT * UNIT) * UNIT - num == (UNIT - tc) * (UNIT - tc) * (UNIT + 2 * tc));
        assert((UNIT - tc) * (UNIT - tc) >= 0);
        assert(tc * tc >= 0);
    }
    assert(num / ((UNIT * UNIT) as int) >= 0) by (nonlinear_arith)
        requires
            num >= 0,
    ;
    lemma_div_is_ordered(num, (UNIT * UNIT) * UNIT, (UNIT * UNIT) as int);
    assert(((UNIT * UNIT) * UNIT) / ((UNIT * UNIT) as int) == UNIT) by (nonlinear_arith);
}

/// Within one patrol leg, the eased interpolation parameter is monotonic in
/// the elapsed time and always lands in `[0, UNIT]`, the range the position
/// interpolation accepts.
pub proof fn lemma_eased_parameter(s1: int, s2: int, trip: int)
    requires
        0 <= s1 <= s2,
        trip > 0,
    ensures
        smooth_spec(leg_parameter(s1, trip)) <= smooth_spec(leg_parameter(s2, trip)),
        0 <= smooth_spec(leg_parameter(s1, trip)) <= UNIT,
{
    assert(s1 * UNIT <= s2 * UNIT) by (nonlinear_arith)
        requires
            s1 <= s2,
    ;
    lemma_div_is_ordered(s1 * UNIT, s2 * UNIT, trip);
    lemma_smooth_monotone(leg_parameter(s1, trip), leg_parameter(s2, trip));
    lemma_smooth_range(leg_parameter(s1, trip));
}

/// The eased parameter, computed on fixed-point values.
pub fn smooth(t: i64) -> (r: i64)
    ensures
        r == smooth_spec(t as int),
        0 <= r <= UNIT,
{
    let tc: i64 = if t < 0 {
        0
    } else if t > UNIT {
        UNIT
    } else {
        t
    };
    proof {
        assert(0 <= tc * tc <= 0x10_0000 && UNIT <= 3 * UNIT - 2 * tc <= 3 * UNIT && 0 <= tc * tc
            * (3 * UNIT - 2 * tc) <= 0x4000_0000_0000) by (nonlinear_arith)
            requires
                0 <= tc <= UNIT,
        ;
    }
    let num = tc * tc * (3 * UNIT - 2 * tc);
    let r = num / (UNIT * UNIT);
    proof {
        lemma_smooth_range(t as int);
    }
    r
}

/// Whether `r` is the integer square root of `n`.
pub open spec fn is_isqrt(n: int, r: int) -> bool {
    0 <= r && r * r <= n && n < (r + 1) * (r + 1)
}

/// The integer square root.
pub open spec fn isqrt_spec(n: int) -> int {
    choose|r: int| is_isqrt(n, r)
}

/// A number has at most one integer square root.
pub proof fn lemma_isqrt_unique(n: int, a: int, b: int)
    requires
        is_isqrt(n, a),
        is_isqrt(n, b),
    ensures
        a == b,
{
    assert(a == b) by (nonlinear_arith)
        requires
            0 <= a && a * a <= n && n < (a + 1) * (a + 1),
            0 <= b && b * b <= n && n < (b + 1) * (b + 1),
    ;
}

/// The integer square root, by bisection.
pub fn isqrt(n: u128) -> (r: u64)
    ensures
        is_isqrt(n as int, r as int),
{
    let mut lo: u128 = 0;
    let mut hi: u128 = 0x1_0000_0000_0000_0000;
    while lo + 1 < hi
        invariant
            lo < hi <= 0x1_0000_0000_0000_0000,
            lo * lo <= n,
            (hi as int) * (hi as int) > n,
        decreases hi - lo,
    {
        let mid = lo + (hi - lo) / 2;
        proof {
            assert(lo < mid < hi);
            assert(mid * mid <= u128::MAX) by (nonlinear_arith)
                requires
                    mid <= 0xFFFF_FFFF_FFFF_FFFF,
            ;
        }
        if mid * mid <= n {
            lo = mid;
        } else {
            hi = mid;
        }
    }
    proof {
        assert((lo as int + 1) * (lo as int + 1) > n);
    }
    lo as u64
}

/// The squared length of a vector.
pub open spec fn sq_len(v: Coord) -> int {
    v.column * v.column + v.row * v.row
}

/// A vector scaled to unit length on the fixed-point scale: each component
/// becomes `component * UNIT / |v|`.
pub open spec fn normalize_spec(v: Coord) -> Coord {
    let m = isqrt_spec(sq_len(v));
    coord_at(tdiv(v.column * UNIT, m), tdiv(v.row * UNIT, m))
}

/// Scales a non-zero vector to unit length (fixed-point): the result's
/// components are at most `UNIT` in magnitude and not both zero.
pub fn normalize_dir(v: Coord) -> (r: Coord)
    requires
        v.in_range(),
        !(v.column == 0 && v.row == 0),
    ensures
        r == normalize_spec(v),
        abs_int(r.column as int) <= UNIT,
        abs_int(r.row as int) <= UNIT,
        !(r.column == 0 && r.row == 0),
{
    proof {
        assert(0 <= v.column * v.column <= COORD_LIMIT * COORD_LIMIT && 0 <= v.row * v.row
            <= COORD_LIMIT * COORD_LIMIT) by (nonlinear_arith)
            requires
                v.in_range(),
                -COORD_LIMIT <= v.column <= COORD_LIMIT,
                -COORD_LIMIT <= v.row <= COORD_LIMIT,
        ;
    }
    let sq: i128 = wide_mul(v.column, v.column) + wide_mul(v.row, v.row);
    proof {
        assert(sq_len(v) >= 1) by (nonlinear_arith)
            requires
                !(v.column == 0 && v.row == 0),
                sq_len(v) == v.column * v.column + v.row * v.row,
        ;
    }
    let m: u64 = isqrt(sq as u128);
    proof {
        assert(is_isqrt(sq_len(v), m as int));
        lemma_isqrt_unique(sq_len(v), isqrt_spec(sq_len(v)), m as int);
        assert(m >= 1) by (nonlinear_arith)
            requires
                is_isqrt(sq_len(v), m as int),
                sq_len(v) >= 1,
        ;
        lemma_normalize_bounds(v, m as int);
    }
    let col = wide_div(wide_mul(v.column, UNIT), m as i128) as i64;
    let row = wide_div(wide_mul(v.row, UNIT), m as i128) as i64;
    Coord { column: col, row }
}

/// Components of a normalized vector are bounded by `UNIT`, and the larger
/// one is at least half of it.
proof fn lemma_normalize_bounds(v: Coord, m: int)
    requires
        !(v.column == 0 && v.row == 0),
        is_isqrt(sq_len(v), m),
        m >= 1,
    ensures
        abs_int(tdiv(v.column * UNIT, m)) <= UNIT,
        abs_int(tdiv(v.row * UNIT, m)) <= UNIT,
        abs_int(tdiv(v.column * UNIT, m)) >= HALF_UNIT || abs_int(tdiv(v.row * UNIT, m))
            >= HALF_UNIT,
{
    let c = v.column as int;
    let w = v.row as int;
    assert(abs_int(c) <= m && abs_int(w) <= m) by (nonlinear_arith)
        requires
            is_isqrt(c * c + w * w, m),
            m >= 0,
    ;
    assert(abs_int(tdiv(c * UNIT, m)) <= UNIT && abs_int(tdiv(w * UNIT, m)) <= UNIT)
        by (nonlinear_arith)
        requires
            abs_int(c) <= m,
            abs_int(w) <= m,
            m >= 1,
    ;
    let big = if abs_int(c) >= abs_int(w) {
        c
    } else {
        w
    };
    assert(m <= 2 * abs_int(big)) by (nonlinear_arith)
        requires
            is_isqrt(c * c + w * w, m),
            m >= 0,
            abs_int(big) >= abs_int(c) || abs_int(big) >= abs_int(w),
            big == c || big == w,
            abs_int(big) == if abs_int(c) >= abs_int(w) {
                abs_int(c)
            } else {
                abs_int(w)
            },
    ;
    assert(abs_int(tdiv(big * UNIT, m)) >= HALF_UNIT) by (nonlinear_arith)
        requires
            1 <= m <= 2 * abs_int(big),
            UNIT == 2 * HALF_UNIT,
            abs_int(big) >= 1,
    ;
}

/// A quarter turn counter-clockwise (on the board's axes).
pub open spec fn rot90(v: Coord) -> Coord {
    coord_at(-(v.row as int), v.column as int)
}

/// Rotates a vector a quarter turn.
pub fn rotate_90(v: Coord) -> (r: Coord)
    requires
        v.in_range(),
    ensures
        r == rot90(v),
{
    Coord { column: -v.row, row: v.column }
}

/// Twice the signed area of the triangle `a`, `b`, `c`: positive when the
/// corners wind counter-clockwise.
pub open spec fn cross_of(a: Coord, b: Coord, c: Coord) -> int {
    (b.column - a.column) * (c.row - a.row) - (b.row - a.row) * (c.column - a.column)
}

/// Whether the corners wind counter-clockwise (collinear counts).
pub open spec fn spec_ccw(a: Coord, b: Coord, c: Coord) -> bool {
    cross_of(a, b, c) >= 0
}

/// Whether the three corners of `triangle` wind counter-clockwise;
/// degenerate (collinear) triangles count as such.
pub fn counter_clockwise_triangle(triangle: [Coord; 3]) -> (r: bool)
    requires
        triangle[0].in_range(),
        triangle[1].in_range(),
        triangle[2].in_range(),
    ensures
        r == spec_ccw(triangle[0], triangle[1], triangle[2]),
{
    let a = triangle[0];
    let b = triangle[1];
    let c = triangle[2];
    proof {
        let lim = 2 * COORD_LIMIT as int;
        assert(lim * lim <= 0x40_0000_0000_0000_0000_0000_0000 && (b.column - a.column) * (c.row
            - a.row) <= lim * lim && (b.column - a.column) * (
        c.row - a.row) >= -(lim * lim) && (b.row - a.row) * (c.column - a.column) <= lim * lim && (
        b.row - a.row) * (c.column - a.column) >= -(lim * lim)) by (nonlinear_arith)
            requires
                lim == 2 * COORD_LIMIT as int,
                -lim <= b.column - a.column <= lim,
                -lim <= c.row - a.row <= lim,
                -lim <= b.row - a.row <= lim,
                -lim <= c.column - a.column <= lim,
        ;
    }
    let cross = wide_mul(b.column - a.column, c.row - a.row) - wide_mul(
        b.row - a.row,
        c.column - a.column,
    );
    cross >= 0
}

/// Whether `p` lies in the triangle `a`, `b`, `c` (corners given
/// counter-clockwise): on the counter-clockwise side of each edge, the
/// boundary included.
pub open spec fn triangle_contains_spec(a: Coord, b: Coord, c: Coord, p: Coord) -> bool {
    spec_ccw(a, b, p) && spec_ccw(b, c, p) && spec_ccw(c, a, p)
}

/// The point-in-triangle test behind the radar.
pub fn triangle_contains(triangle: [Coord; 3], point: Coord) -> (r: bool)
    requires
        triangle[0].in_range(),
        triangle[1].in_range(),
        triangle[2].in_range(),
        point.in_range(),
    ensures
        r == triangle_contains_spec(triangle[0], triangle[1], triangle[2], point),
{
    counter_clockwise_triangle([triangle[0], triangle[1], point])
        && counter_clockwise_triangle([triangle[1], triangle[2], point])
        && counter_clockwise_triangle([triangle[2], triangle[0], point])
}

/// The referee's lock on a piece that moved inside the radar, with the time
/// the piece has stood still since.
#[derive(Copy, Clone)]
pub struct Focus {
    pub time_still_s: i64,
    pub piece_index: usize,
}

/// The patrolling watcher. While unfocused it walks a scripted leg between
/// the two patrol extremes; a piece moving inside its radar locks its focus
/// (and gaze) onto that piece. It also tracks whose turn it is.
pub struct Referee {
    pub position: Coord,
    pub prev_position: Coord,
    pub direction: Coord,
    pub focused: Option<Focus>,
    pub interpolation_s: i64,
    pub interpolation: Interpolation,
    pub radar_start: Option<Coord>,
    pub trip_time: i64,
    pub turn: Team,
}

/// A point on the patrol path: on the patrol row, between the two extremes.
pub open spec fn on_patrol_line(c: Coord) -> bool {
    c.row == PATROL_ROW && PATROL_LEFT_X <= c.column <= PATROL_RIGHT_X
}

/// The patrol extreme the referee heads for next: the far one.
pub open spec fn patrol_target(x: i64) -> Coord {
    if x > PATROL_CENTER_X {
        Coord { column: PATROL_LEFT_X, row: PATROL_ROW }
    } else {
        Coord { column: PATROL_RIGHT_X, row: PATROL_ROW }
    }
}

/// The extreme a full patrol leg starts from: the near one.
pub open spec fn patrol_origin(x: i64) -> Coord {
    if x > PATROL_CENTER_X {
        Coord { column: PATROL_RIGHT_X, row: PATROL_ROW }
    } else {
        Coord { column: PATROL_LEFT_X, row: PATROL_ROW }
    }
}

/// The duration of a leg of length `dist`: the patrol covers half a cell
/// per second, so on the fixed-point scale the duration is twice the
/// distance.
pub open spec fn trip_of(dist: int) -> int {
    2 * dist
}

/// The radar cone of scaled reach `dir`: apex at the referee, the two far
/// corners offset sideways by seven tenths of the reach.
pub open spec fn radar_spec(r: Referee) -> (Coord, Coord, Coord) {
    let base = r.position;
    let dir = dir_scaled(r);
    let left = scale_7_10(rot90(dir));
    (
        base,
        coord_at(base.column + dir.column - left.column, base.row + dir.row - left.row),
        coord_at(base.column + dir.column + left.column, base.row + dir.row + left.row),
    )
}

/// The facing direction, normalized and scaled to the radar's reach.
pub open spec fn dir_scaled(r: Referee) -> Coord {
    let n = normalize_spec(r.direction);
    coord_at(n.column * DIR_MULTIPLIER, n.row * DIR_MULTIPLIER)
}

/// Seven tenths of a vector, componentwise.
pub open spec fn scale_7_10(v: Coord) -> Coord {
    coord_at(tdiv(v.column * 7, 10), tdiv(v.row * 7, 10))
}

/// Whether the referee's radar cone covers position `p`.
pub open spec fn sees(r: Referee, p: Coord) -> bool {
    triangle_contains_spec(radar_spec(r).0, radar_spec(r).1, radar_spec(r).2, p)
}

/// First piece at or after index `i` that moved this tick inside the radar.
pub open spec fn focus_scan_from(pieces: Seq<Piece>, r: Referee, i: int) -> Option<int>
    decreases pieces.len() - i when 0 <= i <= pieces.len()
{
    if i >= pieces.len() {
        None
    } else if pieces[i].moved && sees(r, pieces[i].pos) {
        Some(i)
    } else {
        focus_scan_from(pieces, r, i + 1)
    }
}

/// First piece that moved this tick inside the radar, if any: the piece the
/// referee locks onto.
pub open spec fn focus_scan(pieces: Seq<Piece>, r: Referee) -> Option<int> {
    focus_scan_from(pieces, r, 0)
}

/// A successful scan names a piece of the list.
pub proof fn lemma_focus_scan_bounds(pieces: Seq<Piece>, r: Referee, i: int)
    requires
        0 <= i <= pieces.len(),
        focus_scan_from(pieces, r, i) is Some,
    ensures
        i <= focus_scan_from(pieces, r, i).unwrap() < pieces.len(),
    decreases pieces.len() - i,
{
    if i < pieces.len() && !(pieces[i].moved && sees(r, pieces[i].pos)) {
        lemma_focus_scan_bounds(pieces, r, i + 1);
    }
}

/// The focus part of one tick: a piece moving inside the radar acquires the
/// focus; otherwise a held focus accumulates still time and, past the
/// vigilance threshold, is released — patrol resumes from the current
/// position toward the far extreme, the gaze blending back from its last
/// heading.
pub open spec fn next_focus_step(r: Referee, delta: int, pieces: Seq<Piece>) -> Referee {
    match focus_scan(pieces, r) {
        Some(i) => Referee {
            focused: Some(Focus { time_still_s: 0, piece_index: i as usize }),
            ..r
        },
        None => match r.focused {
            Some(f) => {
                let t = f.time_still_s + delta;
                if t > VIGILANCE_TIME {
                    let end = patrol_target(r.position.column);
                    Referee {
                        focused: None,
                        interpolation: Interpolation { start: r.position, end: end },
                        interpolation_s: 0,
                        trip_time: trip_of(abs_int(end.column - r.position.column)) as i64,
                        radar_start: Some(r.direction),
                        ..r
                    }
                } else {
                    Referee {
                        focused: Some(
                            Focus { time_still_s: t as i64, piece_index: f.piece_index },
                        ),
                        ..r
                    }
                }
            },
            None => r,
        },
    }
}

/// One full tick: the focus step, then either the gaze re-aimed at the
/// focused piece, or one step of patrol motion under the eased parameter;
/// a finished leg starts the next one between the two extremes. A blended
/// gaze that lands exactly on the origin falls back to the patrol heading,
/// so the radar cone stays well-defined.
pub open spec fn tick_step(r0: Referee, delta: int, pieces: Seq<Piece>) -> Referee {
    let r = next_focus_step(r0, delta, pieces);
    let r2 = match r.focused {
        Some(f) => Referee {
            direction: normalize_spec(
                coord_at(
                    pieces[f.piece_index as int].pos.column - r.position.column,
                    pieces[f.piece_index as int].pos.row - r.position.row,
                ),
            ),
            ..r
        },
        None => {
            let s2 = r.interpolation_s + delta;
            let eased = smooth_spec(leg_parameter(s2, r.trip_time as int));
            let newpos = interp_at(r.interpolation, eased);
            let x = tdiv((newpos.column - r.position.column) * r.trip_time * 2, delta * 5);
            let dir_end = coord_at(x, UNIT as int);
            let blend = match r.radar_start {
                Some(rs) => interp_at(Interpolation { start: rs, end: dir_end }, eased),
                None => dir_end,
            };
            let dir = if blend.column == 0 && blend.row == 0 {
                dir_end
            } else {
                blend
            };
            Referee {
                prev_position: r.position,
                position: newpos,
                direction: dir,
                interpolation_s: s2 as i64,
                ..r
            }
        },
    };
    if r2.interpolation_s >= r2.trip_time {
        Referee {
            interpolation: Interpolation {
                start: patrol_origin(r2.position.column),
                end: patrol_target(r2.position.column),
            },
            interpolation_s: 0,
            trip_time: trip_of(
                abs_int(
                    patrol_target(r2.position.column).column - patrol_origin(
                        r2.position.column,
                    ).column,
                ),
            ) as i64,
            radar_start: None,
            ..r2
        }
    } else {
        r2
    }
}

/// The duration of the first patrol leg, half a cell long.
pub const FIRST_LEG_TIME: i64 = 2 * UNIT;

/// The state a fresh referee starts in: at the patrol centre, gazing up the
/// board, on a half-cell leg to the right, with White to move.
pub open spec fn initial_referee() -> Referee {
    Referee {
        position: Coord { column: PATROL_CENTER_X, row: PATROL_ROW },
        prev_position: Coord { column: PATROL_CENTER_X, row: PATROL_ROW },
        direction: Coord { column: 0, row: UNIT },
        focused: None,
        interpolation_s: 0,
        interpolation: Interpolation {
            start: Coord { column: PATROL_CENTER_X, row: PATROL_ROW },
            end: Coord { column: PATROL_RIGHT_X, row: PATROL_ROW },
        },
        radar_start: None,
        trip_time: FIRST_LEG_TIME,
        turn: Team::White,
    }
}

impl Referee {
    /// The referee's internal invariant: it stays on the patrol line, the
    /// current leg is consistent, and the gaze is a bounded non-zero vector.
    pub open spec fn wf(self) -> bool {
        &&& on_patrol_line(self.position)
        &&& on_patrol_line(self.prev_position)
        &&& on_patrol_line(self.interpolation.start)
        &&& on_patrol_line(self.interpolation.end)
        &&& 2 * UNIT <= self.trip_time <= 4 * UNIT
        &&& 0 <= self.interpolation_s < self.trip_time
        &&& !(self.direction.column == 0 && self.direction.row == 0)
        &&& abs_int(self.direction.column as int) <= DIR_LIMIT
        &&& abs_int(self.direction.row as int) <= DIR_LIMIT
        &&& match self.radar_start {
            Some(v) => abs_int(v.column as int) <= DIR_LIMIT && abs_int(v.row as int)
                <= DIR_LIMIT,
            None => true,
        }
        &&& match self.focused {
            Some(f) => 0 <= f.time_still_s <= VIGILANCE_TIME,
            None => true,
        }
    }

    /// Enough range for the radar to be computed.
    pub open spec fn radar_ready(self) -> bool {
        &&& -crate::board::POS_LIMIT <= self.position.column <= crate::board::POS_LIMIT
        &&& -crate::board::POS_LIMIT <= self.position.row <= crate::board::POS_LIMIT
        &&& self.direction.in_range()
        &&& !(self.direction.column == 0 && self.direction.row == 0)
    }

    /// A referee meeting its invariant can compute its radar.
    pub proof fn lemma_wf_radar_ready(self)
        requires
            self.wf(),
        ensures
            self.radar_ready(),
    {
    }

    /// A fresh referee: at the patrol centre, gazing up the board, starting
    /// a half-cell leg to the right, with White to move.
    pub fn new() -> (r: Referee)
        ensures
            r == initial_referee(),
            r.wf(),
    {
        let initial = Coord { column: PATROL_CENTER_X, row: PATROL_ROW };
        let interpolation = Interpolation::new(
            initial,
            Coord { column: PATROL_RIGHT_X, row: PATROL_ROW },
        );
        Referee {
            position: initial,
            prev_position: initial,
            direction: Coord { column: 0, row: UNIT },
            focused: None,
            interpolation_s: 0,
            interpolation,
            radar_start: None,
            trip_time: FIRST_LEG_TIME,
            turn: Team::White,
        }
    }

    /// Whether the referee faces the low-column side of the board.
    pub fn looking_leftwards(&self) -> (r: bool)
        ensures
            r == (self.direction.column < 0),
    {
        self.direction.column < 0
    }

    /// The referee's position.
    pub fn pos_c(&self) -> (r: Coord)
        ensures
            r == self.position,
    {
        self.position
    }

    /// The facing direction, normalized and scaled to the radar's reach.
    pub fn dir_c(&self) -> (r: Coord)
        requires
            self.direction.in_range(),
            !(self.direction.column == 0 && self.direction.row == 0),
        ensures
            r == dir_scaled(*self),
            abs_int(r.column as int) <= DIR_MULTIPLIER * UNIT,
            abs_int(r.row as int) <= DIR_MULTIPLIER * UNIT,
    {
        let d = normalize_dir(self.direction);
        let r = d.times(DIR_MULTIPLIER);
        r
    }

    /// The three corners of the radar cone: apex, far right, far left.
    pub fn radar(&self) -> (r: [Coord; 3])
        requires
            self.radar_ready(),
        ensures
            (r[0], r[1], r[2]) == radar_spec(*self),
            r[0].in_range(),
            r[1].in_range(),
            r[2].in_range(),
    {
        let radar_base = self.pos_c();
        let dir = self.dir_c();
        let rot = rotate_90(dir);
        let left = Coord { column: scaled_7_10(rot.column), row: scaled_7_10(rot.row) };
        let radar_left = radar_base.plus(dir).plus(left);
        let radar_right = radar_base.plus(dir).minus(left);
        [radar_base, radar_right, radar_left]
    }

    /// Whether the radar currently covers any of the given pieces.
    pub fn saw_any_piece(&self, pieces: &Vec<Piece>, indexes: Vec<usize>) -> (r: bool)
        requires
            self.radar_ready(),
            pieces_in_range(pieces@),
            forall|k: int| 0 <= k < indexes@.len() ==> #[trigger] indexes@[k] < pieces@.len(),
        ensures
            r == exists|k: int|
                0 <= k < indexes@.len() && sees(*self, pieces@[#[trigger] indexes@[k] as int].pos),
    {
        let radar = self.radar();
        let n = indexes.len();
        let mut k: usize = 0;
        while k < n
            invariant
                0 <= k <= n,
                n == indexes@.len(),
                self.radar_ready(),
                pieces_in_range(pieces@),
                forall|j: int| 0 <= j < indexes@.len() ==> #[trigger] indexes@[j] < pieces@.len(),
                (radar[0], radar[1], radar[2]) == radar_spec(*self),
                radar[0].in_range(),
                radar[1].in_range(),
                radar[2].in_range(),
                forall|j: int|
                    0 <= j < k ==> !sees(*self, pieces@[#[trigger] indexes@[j] as int].pos),
            decreases n - k,
        {
            let idx = indexes[k];
            proof {
                lemma_pieces_in_range(pieces@, idx as int);
            }
            if triangle_contains(radar, pieces[idx].pos) {
                return true;
            }
            k = k + 1;
        }
        false
    }
}

impl Referee {
    /// Starts a fresh interpolation leg from `initial` to `end`.
    fn reset_referee_movement_interp_from(&mut self, initial: Coord, end: Coord)
        requires
            -COORD_LIMIT <= end.column - initial.column <= COORD_LIMIT,
        ensures
            *final(self) == (Referee {
                interpolation: Interpolation { start: initial, end: end },
                interpolation_s: 0,
                trip_time: trip_of(abs_int(end.column - initial.column)) as i64,
                radar_start: None,
                ..*old(self)
            }),
    {
        self.interpolation = Interpolation::new(initial, end);
        self.interpolation_s = 0;
        let d = end.column - initial.column;
        let dist = if d < 0 {
            -d
        } else {
            d
        };
        self.trip_time = 2 * dist;
        self.radar_start = None;
    }

    /// Starts the next full leg, from the near extreme toward the far one.
    fn reset_referee_movement_interp(&mut self)
        ensures
            *final(self) == (Referee {
                interpolation: Interpolation {
                    start: patrol_origin(old(self).position.column),
                    end: patrol_target(old(self).position.column),
                },
                interpolation_s: 0,
                trip_time: trip_of(
                    abs_int(
                        patrol_target(old(self).position.column).column - patrol_origin(
                            old(self).position.column,
                        ).column,
                    ),
                ) as i64,
                radar_start: None,
                ..*old(self)
            }),
    {
        let (start, end) = if self.position.column > PATROL_CENTER_X {
            (
                Coord { column: PATROL_RIGHT_X, row: PATROL_ROW },
                Coord { column: PATROL_LEFT_X, row: PATROL_ROW },
            )
        } else {
            (
                Coord { column: PATROL_LEFT_X, row: PATROL_ROW },
                Coord { column: PATROL_RIGHT_X, row: PATROL_ROW },
            )
        };
        self.reset_referee_movement_interp_from(start, end);
    }

    /// The focus step of one tick: acquire, hold, or release the focus.
    fn maybe_focus(&mut self, delta: i64, pieces: &Vec<Piece>)
        requires
            old(self).wf(),
            1 <= delta <= DELTA_LIMIT,
            pieces_in_range(pieces@),
        ensures
            *final(self) == next_focus_step(*old(self), delta as int, pieces@),
    {
        proof {
            self.lemma_wf_radar_ready();
        }
        let radar = self.radar();
        let n = pieces.len();
        let mut i: usize = 0;
        while i < n
            invariant
                0 <= i <= n,
                n == pieces@.len(),
                pieces_in_range(pieces@),
                *self == *old(self),
                self.radar_ready(),
                (radar[0], radar[1], radar[2]) == radar_spec(*self),
                radar[0].in_range(),
                radar[1].in_range(),
                radar[2].in_range(),
                focus_scan(pieces@, *self) == focus_scan_from(pieces@, *self, i as int),
            decreases n - i,
        {
            proof {
                lemma_pieces_in_range(pieces@, i as int);
            }
            if pieces[i].moved && triangle_contains(radar, pieces[i].pos) {
                self.focused = Some(Focus { time_still_s: 0, piece_index: i });
                return ;
            }
            i = i + 1;
        }
        if self.focused.is_some() {
            let f = self.focused.unwrap();
            let t = f.time_still_s + delta;
            if t > VIGILANCE_TIME {
                self.focused = None;
                let end = if self.position.column > PATROL_CENTER_X {
                    Coord { column: PATROL_LEFT_X, row: PATROL_ROW }
                } else {
                    Coord { column: PATROL_RIGHT_X, row: PATROL_ROW }
                };
                let radar_start = self.direction;
                let posc = self.pos_c();
                self.reset_referee_movement_interp_from(posc, end);
                self.radar_start = Some(radar_start);
            } else {
                self.focused = Some(Focus { time_still_s: t, piece_index: f.piece_index });
            }
        }
    }

    /// One tick of the referee: scan for a piece moving inside the radar,
    /// follow or release a held focus, and otherwise advance the patrol
    /// under the eased interpolation parameter. The turn indicator never
    /// changes here.
    #[verifier::spinoff_prover]
    pub fn tick(&mut self, delta: i64, pieces: &Vec<Piece>)
        requires
            old(self).wf(),
            1 <= delta <= DELTA_LIMIT,
            pieces_in_range(pieces@),
            match old(self).focused {
                Some(f) => f.piece_index < pieces@.len(),
                None => true,
            },
            forall|i: int|
                0 <= i < pieces@.len() ==> #[trigger] pieces@[i].pos != old(self).position,
        ensures
            *final(self) == tick_step(*old(self), delta as int, pieces@),
            final(self).wf(),
            final(self).turn == old(self).turn,
            match final(self).focused {
                Some(f) => f.piece_index < pieces@.len(),
                None => true,
            },
    {
        self.maybe_focus(delta, pieces);
        let ghost rmid = *self;
        if self.focused.is_some() {
            let f = self.focused.unwrap();
            proof {
                if focus_scan(pieces@, *old(self)) is Some {
                    lemma_focus_scan_bounds(pieces@, *old(self), 0);
                }
            }
            let d = pieces[f.piece_index].pos.minus(self.position);
            proof {
                lemma_pieces_in_range(pieces@, f.piece_index as int);
            }
            let dir = normalize_dir(d);
            self.direction = dir;
        } else {
            self.interpolation_s = self.interpolation_s + delta;
            self.prev_position = self.position;
            let t = (self.interpolation_s * UNIT) / self.trip_time;
            let sm = smooth(t);
            let newpos = self.interpolation.at(sm);
            proof {
                lemma_lerp_bounds(
                    rmid.interpolation.start.column as int,
                    rmid.interpolation.end.column as int,
                    sm as int,
                );
                lemma_lerp_bounds(
                    rmid.interpolation.start.row as int,
                    rmid.interpolation.end.row as int,
                    sm as int,
                );
            }
            self.position = newpos;
            let dx = self.position.column - self.prev_position.column;
            proof {
                lemma_tdiv_magnitude(dx as int * rmid.trip_time * 2, delta as int * 5);
                assert(-DIR_LIMIT <= dx as int * rmid.trip_time * 2 <= DIR_LIMIT)
                    by (nonlinear_arith)
                    requires
                        -2 * UNIT <= dx <= 2 * UNIT,
                        2 * UNIT <= rmid.trip_time <= 4 * UNIT,
                        DIR_LIMIT == 0x100_0000,
                        UNIT == 0x400,
                ;
            }
            let num = wide_mul(dx, self.trip_time) * 2;
            let x = wide_div(num, (delta * 5) as i128) as i64;
            let dir_end = Coord { column: x, row: UNIT };
            let blend = match self.radar_start {
                Some(rs) => {
                    proof {
                        lemma_lerp_bounds(rs.column as int, dir_end.column as int, sm as int);
                        lemma_lerp_bounds(rs.row as int, dir_end.row as int, sm as int);
                    }
                    Interpolation::new(rs, dir_end).at(sm)
                },
                None => dir_end,
            };
            // a blend through the origin would leave the radar undefined
            let dirv = if blend.column == 0 && blend.row == 0 {
                dir_end
            } else {
                blend
            };
            self.direction = dirv;
        }
        if self.interpolation_s >= self.trip_time {
            self.reset_referee_movement_interp();
        }
        proof {
            assert(*self == tick_step(*old(self), delta as int, pieces@));
        }
    }
}

/// The magnitude of a truncated quotient is at most the dividend's.
proof fn lemma_tdiv_magnitude(a: int, b: int)
    requires
        b >= 1,
    ensures
        abs_int(tdiv(a, b)) <= abs_int(a),
{
    if a >= 0 {
        assert(0 <= a / b <= a) by (nonlinear_arith)
            requires
                a >= 0,
                b >= 1,
        ;
    } else {
        assert(0 <= (-a) / b <= -a) by (nonlinear_arith)
            requires
                a < 0,
                b >= 1,
        ;
    }
}

/// Seven tenths of one component, truncated.
fn scaled_7_10(v: i64) -> (r: i64)
    requires
        -COORD_LIMIT <= v <= COORD_LIMIT,
    ensures
        r == tdiv(v * 7, 10),
        abs_int(r as int) <= abs_int(v as int),
{
    proof {
        assert(abs_int(tdiv(v * 7, 10)) <= abs_int(v as int) && -COORD_LIMIT * 7 <= v * 7
            <= COORD_LIMIT * 7) by (nonlinear_arith)
            requires
                -COORD_LIMIT <= v <= COORD_LIMIT,
        ;
    }
    wide_div(wide_mul(v, 7), 10) as i64
}

} // verus!
