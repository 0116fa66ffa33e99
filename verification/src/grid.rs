//! Addressing for a rectangular grid: conversion between a linear buffer
//! index and 2D (row, column) coordinates, bounds checking, and the
//! neighbor-offset vectors that define which directions are examined.

use vstd::prelude::*;

verus! {

/// The shape of a rectangular grid: a row count and a column count.
#[derive(Clone, Copy, PartialEq, Eq, Structural, Debug)]
pub struct Dimensions {
    pub rows: usize,
    pub columns: usize,
}

/// A 2D coordinate inside a grid, row-major.
#[derive(Clone, Copy, PartialEq, Eq, Structural, Debug)]
pub struct Location {
    pub row: usize,
    pub column: usize,
}

/// A neighbor-direction vector, applied to a `Location` by coordinate-wise
/// addition.
#[derive(Clone, Copy, PartialEq, Eq, Structural, Debug)]
pub struct Offset {
    pub d_row: i64,
    pub d_column: i64,
}

impl Dimensions {
    /// Whether a buffer of the given length fills a grid of these dimensions
    /// exactly: callers of the aggregation must establish this first.
    pub fn matches_len(&self, len: usize) -> (r: bool)
        ensures
            r == (self.rows * self.columns == len),
    {
        proof {
            assert(self.rows as int * self.columns as int <= u128::MAX) by (nonlinear_arith)
                requires
                    self.rows as int <= 0xFFFF_FFFF_FFFF_FFFFint,
                    self.columns as int <= 0xFFFF_FFFF_FFFF_FFFFint,
            ;
        }
        (self.rows as u128) * (self.columns as u128) == len as u128
    }
}

impl Location {
    /// Whether this location lies inside a grid of the given dimensions.
    pub open spec fn in_bounds(self, dims: Dimensions) -> bool {
        self.row < dims.rows && self.column < dims.columns
    }
}

/// The linear index of an in-bounds location, row-major.
pub open spec fn index_of(loc: Location, dims: Dimensions) -> int {
    loc.row * dims.columns + loc.column
}

/// The location of a linear index `0 <= i < rows * columns`, row-major.
pub open spec fn location_of(i: int, dims: Dimensions) -> Location {
    Location { row: (i / dims.columns as int) as usize, column: (i % dims.columns as int) as usize }
}

/// An in-bounds location maps to an index below `rows * columns`.
pub proof fn lemma_index_in_range(loc: Location, dims: Dimensions)
    requires
        loc.in_bounds(dims),
    ensures
        0 <= index_of(loc, dims) < dims.rows * dims.columns,
{
    assert(loc.row * dims.columns + loc.column < dims.rows * dims.columns) by (nonlinear_arith)
        requires
            loc.row < dims.rows,
            loc.column < dims.columns,
    ;
}

/// Converts an in-bounds location to its linear index: `row * columns + column`.
pub fn to_index(loc: Location, dims: Dimensions) -> (r: usize)
    requires
        loc.in_bounds(dims),
        dims.rows * dims.columns <= usize::MAX,
    ensures
        r == index_of(loc, dims),
        r < dims.rows * dims.columns,
{
    proof {
        lemma_index_in_range(loc, dims);
    }
    loc.row * dims.columns + loc.column
}

/// Converts a linear index below `rows * columns` back to its location,
/// by integer division and remainder by `columns`.
pub fn from_index(i: usize, dims: Dimensions) -> (r: Location)
    requires
        0 < dims.columns,
        i < dims.rows * dims.columns,
    ensures
        r == location_of(i as int, dims),
        r.in_bounds(dims),
        index_of(r, dims) == i,
{
    proof {
        lemma_location_round_trip(i as int, dims);
    }
    Location { row: i / dims.columns, column: i % dims.columns }
}

/// Index round-trip: for every valid index `0 <= i < rows * columns`,
/// `index_of(location_of(i)) == i`, and the recovered location is in bounds.
pub proof fn lemma_location_round_trip(i: int, dims: Dimensions)
    requires
        0 < dims.columns,
        0 <= i < dims.rows * dims.columns,
    ensures
        location_of(i, dims).in_bounds(dims),
        index_of(location_of(i, dims), dims) == i,
{
    let c = dims.columns as int;
    assert((i / c) * c + (i % c) == i && 0 <= i % c < c && 0 <= i / c < dims.rows)
        by (nonlinear_arith)
        requires
            0 < c,
            0 <= i < dims.rows * c,
    ;
}

/// The location one offset away, or `None` if it leaves the grid.
pub open spec fn neighbor_of(loc: Location, off: Offset, dims: Dimensions) -> Option<Location> {
    let nr = loc.row as int + off.d_row as int;
    let nc = loc.column as int + off.d_column as int;
    if 0 <= nr < dims.rows as int && 0 <= nc < dims.columns as int {
        Some(Location { row: nr as usize, column: nc as usize })
    } else {
        None
    }
}

/// Applies an offset to an in-bounds location by coordinate-wise addition,
/// rejecting results that fall outside the grid.
pub fn apply_offset(loc: Location, off: Offset, dims: Dimensions) -> (r: Option<Location>)
    requires
        loc.in_bounds(dims),
    ensures
        r == neighbor_of(loc, off, dims),
        r matches Some(n) ==> n.in_bounds(dims),
{
    let nr: i128 = loc.row as i128 + off.d_row as i128;
    let nc: i128 = loc.column as i128 + off.d_column as i128;
    if 0 <= nr && nr < dims.rows as i128 && 0 <= nc && nc < dims.columns as i128 {
        Some(Location { row: nr as usize, column: nc as usize })
    } else {
        None
    }
}

/// The two 4-connected neighbor directions examined per pixel: down and
/// right. The opposite directions are recovered by the symmetry closure.
pub fn offsets_4() -> (r: Vec<Offset>)
    ensures
        r@ == seq![
            (Offset { d_row: 1, d_column: 0 }),
            (Offset { d_row: 0, d_column: 1 }),
        ],
{
    let mut r: Vec<Offset> = Vec::new();
    r.push(Offset { d_row: 1, d_column: 0 });
    r.push(Offset { d_row: 0, d_column: 1 });
    proof {
        assert(r@ =~= seq![
            (Offset { d_row: 1, d_column: 0 }),
            (Offset { d_row: 0, d_column: 1 }),
        ]);
    }
    r
}

/// The four 8-connected neighbor directions examined per pixel: down, right
/// and the two downward diagonals. The opposite directions are recovered by
/// the symmetry closure.
pub fn offsets_8() -> (r: Vec<Offset>)
    ensures
        r@ == seq![
            (Offset { d_row: 1, d_column: 0 }),
            (Offset { d_row: 0, d_column: 1 }),
            (Offset { d_row: 1, d_column: -1i64 }),
            (Offset { d_row: 1, d_column: 1 }),
        ],
{
    let mut r: Vec<Offset> = Vec::new();
    r.push(Offset { d_row: 1, d_column: 0 });
    r.push(Offset { d_row: 0, d_column: 1 });
    r.push(Offset { d_row: 1, d_column: -1i64 });
    r.push(Offset { d_row: 1, d_column: 1 });
    proof {
        assert(r@ =~= seq![
            (Offset { d_row: 1, d_column: 0 }),
            (Offset { d_row: 0, d_column: 1 }),
            (Offset { d_row: 1, d_column: -1i64 }),
            (Offset { d_row: 1, d_column: 1 }),
        ]);
    }
    r
}

/// Location round-trip: converting an in-bounds location to its index and
/// back recovers the same location.
pub proof fn lemma_index_round_trip(loc: Location, dims: Dimensions)
    requires
        loc.in_bounds(dims),
    ensures
        location_of(index_of(loc, dims), dims) == loc,
{
    let c = dims.columns as int;
    let i = loc.row * c + loc.column;
    assert(i / c == loc.row && i % c == loc.column) by (nonlinear_arith)
        requires
            i == loc.row * c + loc.column,
            loc.column < c,
            0 <= loc.row,
            0 <= loc.column,
    ;
}

} // verus!
