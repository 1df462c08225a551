//! The bijection between linear cell ids and grid coordinates.
//!
//! A cell id lives in `[1, width * width]`; it maps to coordinates
//! `(x, y)` with both components in `[1, width]`, and a pair of coordinates
//! maps to the leaf index `(y - 1) * width + (x - 1)`.

use vstd::arithmetic::div_mod::{
    lemma_fundamental_div_mod_converse_div,
    lemma_fundamental_div_mod_converse_mod,
};
use vstd::prelude::*;

verus! {

use crate::ledger::VaultError;

/// A cell's position on the grid, both components counted from 1.
#[derive(Clone, Copy, PartialEq, Eq, Structural, Debug)]
pub struct Coordinates {
    pub x: u32,
    pub y: u32,
}

/// Whether `id` names a cell of a `width`-wide grid.
pub open spec fn valid_cell_id(id: u32, width: u32) -> bool {
    1 <= id && id as int <= (width as int) * (width as int)
}

/// The column a cell id resolves to, counted from 1.
pub open spec fn coord_x(id: u32, width: u32) -> int {
    1 + (id - 1) as int % width as int
}

/// The row a cell id resolves to, counted from 1.
pub open spec fn coord_y(id: u32, width: u32) -> int {
    1 + (id - 1) as int / width as int
}

/// The leaf index of the cell at `(x, y)`.
pub open spec fn cell_index(x: int, y: int, width: u32) -> int {
    (y - 1) * (width as int) + (x - 1)
}

/// On its domain the mapper is total: a valid id has coordinates in
/// `[1, width]` on both axes, and its leaf index is exactly `id - 1`.
pub proof fn lemma_id_coordinates(id: u32, width: u32)
    requires
        width >= 1,
        valid_cell_id(id, width),
    ensures
        1 <= coord_x(id, width) <= width,
        1 <= coord_y(id, width) <= width,
        cell_index(coord_x(id, width), coord_y(id, width), width) == id - 1,
{
    let w = width as int;
    let i = (id - 1) as int;
    vstd::arithmetic::div_mod::lemma_fundamental_div_mod(i, w);
    vstd::arithmetic::div_mod::lemma_mod_bound(i, w);
    assert(i / w >= 0) by {
        vstd::arithmetic::div_mod::lemma_div_pos_is_pos(i, w);
    }
    assert(i / w <= w - 1) by {
        if i / w > w - 1 {
            assert(i / w >= w);
            vstd::arithmetic::mul::lemma_mul_inequality(w, i / w, w);
            assert(w * w <= (i / w) * w);
            assert(i == w * (i / w) + i % w);
            vstd::arithmetic::mul::lemma_mul_is_commutative(w, i / w);
            assert(i >= w * w);
        }
    }
}

/// A pair of in-range coordinates indexes a cell of the grid, and the index
/// resolves back to the same coordinates.
pub proof fn lemma_coordinates_index(x: int, y: int, width: u32)
    requires
        width >= 1,
        1 <= x <= width,
        1 <= y <= width,
    ensures
        0 <= cell_index(x, y, width) < (width as int) * (width as int),
        cell_index(x, y, width) % (width as int) == x - 1,
        cell_index(x, y, width) / (width as int) == y - 1,
{
    let w = width as int;
    let i = (y - 1) * w + (x - 1);
    lemma_fundamental_div_mod_converse_mod(i, w, y - 1, x - 1);
    lemma_fundamental_div_mod_converse_div(i, w, y - 1, x - 1);
    assert((y - 1) * w <= (w - 1) * w) by {
        vstd::arithmetic::mul::lemma_mul_inequality(y - 1, w - 1, w);
    }
    assert((w - 1) * w + (w - 1) < w * w) by (nonlinear_arith);
    assert(i >= 0) by {
        vstd::arithmetic::mul::lemma_mul_nonnegative(y - 1, w);
    }
}

/// Resolves a cell id to grid coordinates; ids outside `[1, width * width]`
/// are rejected.
pub fn get_coordinates_from_id(id: u32, width: u32) -> (r: Result<Coordinates, VaultError>)
    requires
        1 <= width <= 0xffff,
    ensures
        valid_cell_id(id, width) ==> r == Result::<Coordinates, VaultError>::Ok(
            Coordinates { x: coord_x(id, width) as u32, y: coord_y(id, width) as u32 },
        ),
        !valid_cell_id(id, width) ==> r == Result::<Coordinates, VaultError>::Err(
            VaultError::OutOfRange,
        ),
{
    proof {
        assert((width as int) * (width as int) <= 0xffff * 0xffff) by (nonlinear_arith)
            requires
                width <= 0xffff,
        ;
    }
    let cells: u64 = (width as u64) * (width as u64);
    if id < 1 || (id as u64) > cells {
        return Result::Err(VaultError::OutOfRange);
    }
    proof {
        lemma_id_coordinates(id, width);
    }
    let row = (id - 1) / width;
    let col = (id - 1) % width;
    Result::Ok(Coordinates { x: col + 1, y: row + 1 })
}

/// The leaf index owned by the cell at `(x, y)`.
pub fn get_index_from_coordinates(x: u32, y: u32, width: u32) -> (idx: usize)
    requires
        1 <= width <= 0xffff,
        1 <= x <= width,
        1 <= y <= width,
    ensures
        idx as int == cell_index(x as int, y as int, width),
        idx < (width as int) * (width as int),
{
    proof {
        lemma_coordinates_index(x as int, y as int, width);
    }
    proof {
        assert((y - 1) as int * (width as int) + (x - 1) <= 0xffff * 0xffff) by (nonlinear_arith)
            requires
                width <= 0xffff && 1 <= x <= width && 1 <= y <= width,
        ;
    }
    let idx64: u64 = ((y - 1) as u64) * (width as u64) + ((x - 1) as u64);
    proof {
        assert(idx64 <= 0xffff_ffff);
    }
    idx64 as usize
}

} // verus!
