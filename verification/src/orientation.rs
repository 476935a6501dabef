//! Orientation remapping of module cells.
//!
//! A module reports its 36 cells as one line of comma-separated integers,
//! linear index `i` covering the 6×6 grid row-major. A module may be
//! mounted in one of two orientations — identity (direction `0`) or rotated
//! 180° (any other direction) — and the rotation reflects both coordinates
//! of every cell. No other orientation exists.
//!
//! This module defines the placement map from a linear index to its cell
//! coordinate, its inverse, and proves that for both orientations the map
//! is a bijection between indices `0..36` and the 6×6 cells.

use vstd::prelude::*;

verus! {

/// Row of linear index `i` under the identity orientation.
pub open spec fn base_row(i: int) -> int {
    i / 6
}

/// Column of linear index `i` under the identity orientation.
pub open spec fn base_col(i: int) -> int {
    i % 6
}

/// Row of linear index `i` under the given orientation: direction `0` is
/// identity, every other direction is the 180° rotation.
pub open spec fn orient_row(direction: int, i: int) -> int {
    if direction == 0 {
        base_row(i)
    } else {
        5 - base_row(i)
    }
}

/// Column of linear index `i` under the given orientation.
pub open spec fn orient_col(direction: int, i: int) -> int {
    if direction == 0 {
        base_col(i)
    } else {
        5 - base_col(i)
    }
}

/// Linear index of cell `(r, c)` under the identity orientation: the
/// inverse of `(base_row, base_col)`.
pub open spec fn base_index(r: int, c: int) -> int {
    6 * r + c
}

/// Linear index of cell `(r, c)` under the given orientation: the inverse
/// of `(orient_row, orient_col)`.
pub open spec fn cell_index(direction: int, r: int, c: int) -> int {
    if direction == 0 {
        base_index(r, c)
    } else {
        base_index(5 - r, 5 - c)
    }
}

/// Law: for every orientation, the placement map sends each linear index to
/// an in-range cell, and the index map inverts it.
pub proof fn lemma_placement_bijective(direction: int, i: int)
    requires
        0 <= i < 36,
    ensures
        0 <= orient_row(direction, i) < 6,
        0 <= orient_col(direction, i) < 6,
        cell_index(direction, orient_row(direction, i), orient_col(direction, i)) == i,
{
    assert(i == 6 * (i / 6) + i % 6 && 0 <= i / 6 < 6 && 0 <= i % 6 < 6);
}

/// Law: for every orientation, the index map sends each cell to an in-range
/// linear index, and the placement map inverts it. Together with
/// `lemma_placement_bijective` this makes both maps bijections.
pub proof fn lemma_cell_index_bijective(direction: int, r: int, c: int)
    requires
        0 <= r < 6,
        0 <= c < 6,
    ensures
        0 <= cell_index(direction, r, c) < 36,
        orient_row(direction, cell_index(direction, r, c)) == r,
        orient_col(direction, cell_index(direction, r, c)) == c,
{
    let rx = if direction == 0 {
        r
    } else {
        5 - r
    };
    let cx = if direction == 0 {
        c
    } else {
        5 - c
    };
    assert((6 * rx + cx) / 6 == rx && (6 * rx + cx) % 6 == cx);
}

/// The 6×6 grid holding `vals[cell_index(direction, r, c)]` at cell
/// `(r, c)`: the cells of one module line placed by orientation.
pub open spec fn place_cells(direction: int, vals: Seq<int>) -> Seq<Seq<int>> {
    Seq::new(6, |r: int| Seq::new(6, |c: int| vals[cell_index(direction, r, c)]))
}

/// The 36 values read back off a grid in line order: the inverse direction
/// of `place_cells`.
pub open spec fn extract_cells(direction: int, grid: Seq<Seq<int>>) -> Seq<int> {
    Seq::new(36, |i: int| grid[orient_row(direction, i)][orient_col(direction, i)])
}

/// Law: placing a 36-element sequence on the grid and reading it back in
/// line order round-trips the sequence, for every orientation.
pub proof fn lemma_place_extract_roundtrip(direction: int, vals: Seq<int>)
    requires
        vals.len() == 36,
    ensures
        extract_cells(direction, place_cells(direction, vals)) == vals,
{
    let grid = place_cells(direction, vals);
    let back = extract_cells(direction, grid);
    assert forall|i: int| 0 <= i < 36 implies back[i] == vals[i] by {
        lemma_placement_bijective(direction, i);
    }
    assert(back =~= vals);
}

/// Law: reading a grid off in line order and placing the values again
/// rebuilds the grid, for every orientation.
pub proof fn lemma_extract_place_roundtrip(direction: int, grid: Seq<Seq<int>>)
    requires
        grid.len() == 6,
        forall|r: int| 0 <= r < 6 ==> (#[trigger] grid[r]).len() == 6,
    ensures
        place_cells(direction, extract_cells(direction, grid)) == grid,
{
    let vals = extract_cells(direction, grid);
    let back = place_cells(direction, vals);
    assert forall|r: int, c: int| 0 <= r < 6 && 0 <= c < 6 implies back[r][c] == grid[r][c] by {
        lemma_cell_index_bijective(direction, r, c);
    }
    assert forall|r: int| 0 <= r < 6 implies back[r] == grid[r] by {
        assert(back[r] =~= grid[r]);
    }
    assert(back =~= grid);
}

/// Computes the cell coordinate of linear index `i` under the given
/// orientation.
pub fn orientation_cell(direction: i32, i: usize) -> (rc: (usize, usize))
    requires
        i < 36,
    ensures
        rc.0 as int == orient_row(direction as int, i as int),
        rc.1 as int == orient_col(direction as int, i as int),
        rc.0 < 6,
        rc.1 < 6,
{
    let row = i / 6;
    let col = i % 6;
    if direction == 0 {
        (row, col)
    } else {
        (5 - row, 5 - col)
    }
}

} // verus!
