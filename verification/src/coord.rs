//! Fixed-point 2D coordinates.
//!
//! A board cell is `UNIT` fixed-point steps on each axis, so a coordinate
//! whose components are multiples of `UNIT` lies exactly on a cell. Settled
//! pieces and the idle cursor stay on cells; only a dragged piece moves in
//! sub-cell steps.

use vstd::prelude::*;

verus! {

/// Fixed-point steps per board cell.
pub const UNIT: i64 = 1024;

/// Half a cell, used when rounding to the nearest cell.
pub const HALF_UNIT: i64 = 512;

/// Largest magnitude a coordinate component may take. Leaves room for every
/// arithmetic step of the rules (cell offsets, rounding, stacking captured
/// pieces) without overflowing `i64`.
pub const COORD_LIMIT: i64 = 0x4_0000_0000_0000;

/// Rounding of one component to the nearest cell, halves rounding away from
/// zero; the result is in fixed-point steps again (a multiple of `UNIT`).
pub open spec fn round_units(v: int) -> int {
    if v >= 0 {
        ((v + HALF_UNIT) / (UNIT as int)) * UNIT
    } else {
        -(((-v + HALF_UNIT) / (UNIT as int)) * UNIT)
    }
}

/// Flooring of one component to the cell at or below it, in fixed-point steps.
pub open spec fn floor_units(v: int) -> int {
    if v >= 0 {
        (v / (UNIT as int)) * UNIT
    } else {
        -(((-v + UNIT - 1) / (UNIT as int)) * UNIT)
    }
}

/// A position on (or off) the board: `column` and `row` in fixed-point steps.
#[derive(Clone, Copy, Debug, PartialEq, Eq, Structural)]
pub struct Coord {
    pub column: i64,
    pub row: i64,
}

impl Coord {
    /// Both components within `COORD_LIMIT`.
    pub open spec fn in_range(self) -> bool {
        -COORD_LIMIT <= self.column <= COORD_LIMIT && -COORD_LIMIT <= self.row <= COORD_LIMIT
    }

    /// Both components lie exactly on a cell.
    pub open spec fn aligned(self) -> bool {
        self.column % UNIT == 0 && self.row % UNIT == 0
    }

    /// The cell at the given column and row index.
    pub fn new_i(column: i32, row: i32) -> (r: Coord)
        ensures
            r.column == column * UNIT,
            r.row == row * UNIT,
            r.aligned(),
            r.in_range(),
    {
        Coord { column: (column as i64) * UNIT, row: (row as i64) * UNIT }
    }

    /// A coordinate directly from fixed-point steps.
    pub fn new_units(column: i64, row: i64) -> (r: Coord)
        ensures
            r == (Coord { column, row }),
    {
        Coord { column, row }
    }

    /// Index of the column cell this coordinate falls in (flooring).
    pub fn column(&self) -> (r: i64)
        requires
            self.in_range(),
        ensures
            r * UNIT == floor_units(self.column as int),
    {
        floor_cell(self.column)
    }

    /// Index of the row cell this coordinate falls in (flooring).
    pub fn row(&self) -> (r: i64)
        requires
            self.in_range(),
        ensures
            r * UNIT == floor_units(self.row as int),
    {
        floor_cell(self.row)
    }

    /// Componentwise absolute value.
    pub fn abs(self) -> (r: Coord)
        requires
            self.in_range(),
        ensures
            r.column == abs_int(self.column as int),
            r.row == abs_int(self.row as int),
    {
        Coord { column: if self.column < 0 { -self.column } else { self.column }, row: if self.row < 0 { -self.row } else { self.row } }
    }

    /// The corner of the cell this coordinate falls in.
    pub fn floor(self) -> (r: Coord)
        requires
            self.in_range(),
        ensures
            r == floor_coord(self),
            r.column == floor_units(self.column as int),
            r.row == floor_units(self.row as int),
            r.aligned(),
            r.in_range(),
    {
        let c = Coord { column: floor_cell(self.column) * UNIT, row: floor_cell(self.row) * UNIT };
        proof {
            lemma_floor_units_close(self.column as int);
            lemma_floor_units_close(self.row as int);
        }
        c
    }

    /// The nearest cell, halves rounding away from zero.
    pub fn round(self) -> (r: Coord)
        requires
            self.in_range(),
        ensures
            r == round_coord(self),
            r.column == round_units(self.column as int),
            r.row == round_units(self.row as int),
            r.aligned(),
            r.in_range(),
    {
        let c = Coord { column: round_unit(self.column), row: round_unit(self.row) };
        proof {
            lemma_round_units_close(self.column as int);
            lemma_round_units_close(self.row as int);
        }
        c
    }

    /// Componentwise sum.
    pub fn plus(self, other: Coord) -> (r: Coord)
        requires
            self.column + other.column <= i64::MAX,
            self.column + other.column >= i64::MIN,
            self.row + other.row <= i64::MAX,
            self.row + other.row >= i64::MIN,
        ensures
            r.column == self.column + other.column,
            r.row == self.row + other.row,
    {
        Coord { column: self.column + other.column, row: self.row + other.row }
    }

    /// Componentwise difference.
    pub fn minus(self, other: Coord) -> (r: Coord)
        requires
            self.column - other.column <= i64::MAX,
            self.column - other.column >= i64::MIN,
            self.row - other.row <= i64::MAX,
            self.row - other.row >= i64::MIN,
        ensures
            r.column == self.column - other.column,
            r.row == self.row - other.row,
    {
        Coord { column: self.column - other.column, row: self.row - other.row }
    }

    /// Both components scaled by an integer factor.
    pub fn times(self, k: i64) -> (r: Coord)
        requires
            self.column * k <= i64::MAX,
            self.column * k >= i64::MIN,
            self.row * k <= i64::MAX,
            self.row * k >= i64::MIN,
        ensures
            r.column == self.column * k,
            r.row == self.row * k,
    {
        proof {
            lemma_mul_in_i64(self.column as int, k as int);
            lemma_mul_in_i64(self.row as int, k as int);
        }
        Coord { column: self.column * k, row: self.row * k }
    }
}

/// Both components rounded to the nearest cell, halves away from zero.
pub open spec fn round_coord(c: Coord) -> Coord {
    Coord {
        column: round_units(c.column as int) as i64,
        row: round_units(c.row as int) as i64,
    }
}

/// Both components floored to the cell at or below.
pub open spec fn floor_coord(c: Coord) -> Coord {
    Coord {
        column: floor_units(c.column as int) as i64,
        row: floor_units(c.row as int) as i64,
    }
}

/// A coordinate already on a cell rounds to itself.
pub proof fn lemma_round_aligned(v: int)
    requires
        v % (UNIT as int) == 0,
        -COORD_LIMIT <= v <= COORD_LIMIT,
    ensures
        round_units(v) == v,
{
    if v >= 0 {
        let q = v / (UNIT as int);
        assert(v == q * UNIT) by (nonlinear_arith)
            requires
                q == v / (UNIT as int),
                v % (UNIT as int) == 0,
                v >= 0,
        ;
        assert((q * UNIT + HALF_UNIT) / (UNIT as int) == q) by (nonlinear_arith)
            requires
                q >= 0,
        ;
    } else {
        let w = -v;
        let q = w / (UNIT as int);
        assert(w == q * UNIT) by (nonlinear_arith)
            requires
                q == w / (UNIT as int),
                w % (UNIT as int) == 0,
                w >= 0,
        ;
        assert((q * UNIT + HALF_UNIT) / (UNIT as int) == q) by (nonlinear_arith)
            requires
                q >= 0,
        ;
    }
}

/// Rounding never escapes a cell-aligned bound.
pub proof fn lemma_round_bound(v: int, bound: int)
    requires
        bound % (UNIT as int) == 0,
        bound >= 0,
        -bound <= v <= bound,
    ensures
        -bound <= round_units(v) <= bound,
{
    lemma_round_units_close(v);
    let r = round_units(v);
    if r > bound {
        assert(false) by (nonlinear_arith)
            requires
                r % (UNIT as int) == 0,
                bound % (UNIT as int) == 0,
                r > bound,
                r - v <= HALF_UNIT,
                v <= bound,
        ;
    }
    if r < -bound {
        assert(false) by (nonlinear_arith)
            requires
                r % (UNIT as int) == 0,
                bound % (UNIT as int) == 0,
                r < -bound,
                v - r <= HALF_UNIT,
                v >= -bound,
        ;
    }
}

/// A component already on a cell floors to itself.
pub proof fn lemma_floor_aligned(v: int)
    requires
        v % (UNIT as int) == 0,
        -COORD_LIMIT <= v <= COORD_LIMIT,
    ensures
        floor_units(v) == v,
{
    if v >= 0 {
        let q = v / (UNIT as int);
        assert(v == q * UNIT) by (nonlinear_arith)
            requires
                q == v / (UNIT as int),
                v % (UNIT as int) == 0,
                v >= 0,
        ;
    } else {
        let w = -v;
        let q = w / (UNIT as int);
        assert(w == q * UNIT) by (nonlinear_arith)
            requires
                q == w / (UNIT as int),
                w % (UNIT as int) == 0,
                w >= 0,
        ;
        assert((w + UNIT - 1) / (UNIT as int) == q) by (nonlinear_arith)
            requires
                w == q * UNIT,
                q >= 0,
        ;
    }
}

/// A coordinate on a cell is its own nearest cell.
pub proof fn lemma_round_coord_aligned(c: Coord)
    requires
        c.aligned(),
        c.in_range(),
    ensures
        round_coord(c) == c,
{
    lemma_round_aligned(c.column as int);
    lemma_round_aligned(c.row as int);
}

/// The coordinate with the given fixed-point components.
pub open spec fn coord_at(col: int, row: int) -> Coord {
    Coord { column: col as i64, row: row as i64 }
}

/// Absolute value of a mathematical integer.
pub open spec fn abs_int(v: int) -> int {
    if v >= 0 {
        v
    } else {
        -v
    }
}

/// Truncating division: quotient of `a` by `b`, rounded toward zero, as `/`
/// truncates on machine integers.
pub open spec fn tdiv(a: int, b: int) -> int {
    if a >= 0 {
        a / b
    } else {
        -((-a) / b)
    }
}

proof fn lemma_mul_in_i64(a: int, b: int)
    requires
        i64::MIN <= a * b <= i64::MAX,
    ensures
        i64::MIN as i128 <= a * b <= i64::MAX as i128,
{
}

/// The product of two `i64` values, computed without overflow.
pub fn wide_mul(a: i64, b: i64) -> (r: i128)
    ensures
        r == a as int * b as int,
{
    proof {
        assert(a as int * b as int <= i128::MAX && a as int * b as int >= i128::MIN) by (nonlinear_arith)
            requires
                i64::MIN <= a <= i64::MAX,
                i64::MIN <= b <= i64::MAX,
        ;
    }
    (a as i128) * (b as i128)
}

/// Truncating division of a wide value by a positive divisor.
pub fn wide_div(a: i128, b: i128) -> (r: i128)
    requires
        a > i128::MIN,
        b > 0,
    ensures
        r == tdiv(a as int, b as int),
{
    if a >= 0 {
        a / b
    } else {
        -((-a) / b)
    }
}

fn floor_cell(v: i64) -> (r: i64)
    requires
        -COORD_LIMIT <= v <= COORD_LIMIT,
    ensures
        r * UNIT == floor_units(v as int),
{
    if v >= 0 {
        v / UNIT
    } else {
        -((-v + UNIT - 1) / UNIT)
    }
}

fn round_unit(v: i64) -> (r: i64)
    requires
        -COORD_LIMIT <= v <= COORD_LIMIT,
    ensures
        r == round_units(v as int),
{
    if v >= 0 {
        ((v + HALF_UNIT) / UNIT) * UNIT
    } else {
        -(((-v + HALF_UNIT) / UNIT) * UNIT)
    }
}

/// Rounding moves a component by at most half a cell.
pub proof fn lemma_round_units_close(v: int)
    ensures
        round_units(v) % (UNIT as int) == 0,
        abs_int(round_units(v) - v) <= HALF_UNIT,
{
    if v >= 0 {
        let q = (v + HALF_UNIT) / (UNIT as int);
        assert(q * UNIT % (UNIT as int) == 0) by (nonlinear_arith);
        assert((v + HALF_UNIT) == q * UNIT + (v + HALF_UNIT) % (UNIT as int)) by (nonlinear_arith)
            requires
                q == (v + HALF_UNIT) / (UNIT as int),
        ;
        assert(0 <= (v + HALF_UNIT) % (UNIT as int) < UNIT);
    } else {
        let w = -v;
        let q = (w + HALF_UNIT) / (UNIT as int);
        assert(q * UNIT % (UNIT as int) == 0) by (nonlinear_arith);
        assert((w + HALF_UNIT) == q * UNIT + (w + HALF_UNIT) % (UNIT as int)) by (nonlinear_arith)
            requires
                q == (w + HALF_UNIT) / (UNIT as int),
        ;
        assert(0 <= (w + HALF_UNIT) % (UNIT as int) < UNIT);
        assert((-(q * UNIT)) % (UNIT as int) == 0) by (nonlinear_arith)
            requires
                q * UNIT % (UNIT as int) == 0,
        ;
    }
}

/// Flooring moves a component down by less than a cell.
pub proof fn lemma_floor_units_close(v: int)
    ensures
        floor_units(v) % (UNIT as int) == 0,
        floor_units(v) <= v < floor_units(v) + UNIT,
{
    if v >= 0 {
        let q = v / (UNIT as int);
        assert(q * UNIT % (UNIT as int) == 0) by (nonlinear_arith);
        assert(v == q * UNIT + v % (UNIT as int)) by (nonlinear_arith)
            requires
                q == v / (UNIT as int),
        ;
        assert(0 <= v % (UNIT as int) < UNIT);
    } else {
        let w = -v;
        let q = (w + UNIT - 1) / (UNIT as int);
        assert(q * UNIT % (UNIT as int) == 0) by (nonlinear_arith);
        assert((w + UNIT - 1) == q * UNIT + (w + UNIT - 1) % (UNIT as int)) by (nonlinear_arith)
            requires
                q == (w + UNIT - 1) / (UNIT as int),
        ;
        assert(0 <= (w + UNIT - 1) % (UNIT as int) < UNIT);
        assert((-(q * UNIT)) % (UNIT as int) == 0) by (nonlinear_arith)
            requires
                q * UNIT % (UNIT as int) == 0,
        ;
    }
}

} // verus!
