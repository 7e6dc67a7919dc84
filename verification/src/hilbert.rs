use vstd::prelude::*;
use vstd::arithmetic::power2::pow2;
use vstd::bits::{lemma_u32_shl_is_mul, lemma_u32_pow2_no_overflow};
use crate::tile_id::{level_offset, pyramid_size, spec_tile_id, lemma_tile_id_in_level, MAX_TILE_ID, MAX_ZOOM};

verus! {

/// The index of cell `(x, y)` on the Hilbert curve of order `order`, as
/// `fast_hilbert::xy2h` computes it.
pub uninterp spec fn hilbert_index(x: u32, y: u32, order: u8) -> u64;

/// Calls `fast_hilbert::xy2h` on `u32` coordinates. Trusted: the result is
/// the curve index named `hilbert_index`, and for coordinates inside the
/// `2^order x 2^order` grid it is below `4^order`. That range is what a
/// Hilbert curve of that order covers; the crate states it only in a code
/// comment of its checked variant (`h in [0,1<<2*order)` for `(x,y) in
/// [0,1<<order)`), not in its documentation. The function has no failing
/// input for `u32` coordinates.
#[verifier::external_body]
fn hilbert_xy2h(x: u32, y: u32, order: u8) -> (h: u64)
    ensures
        h == hilbert_index(x, y, order),
        order <= 32 && x < pow2(order as nat) && y < pow2(order as nat) ==> h < pow2(2 * (order as nat)),
{
    fast_hilbert::xy2h(x, y, order)
}

/// Index of the last cell along one side of the grid of level `z`.
pub open spec fn last_cell(z: nat) -> nat {
    (pow2(z) - 1) as nat
}

/// A raw cell coordinate clamped into the grid of level `z`.
pub open spec fn clamp_cell(raw: u32, z: nat) -> nat {
    if raw <= last_cell(z) { raw as nat } else { last_cell(z) }
}

/// Number of cells along one side of the grid of level `zoom` (`2^zoom`),
/// or `None` where the level has no PMTiles tile ids (`zoom > 31`).
pub fn grid_side(zoom: u8) -> (side: Option<u32>)
    ensures
        zoom <= MAX_ZOOM <==> side is Some,
        side matches Some(n) ==> n == pow2(zoom as nat),
{
    if zoom > MAX_ZOOM {
        None
    } else {
        proof {
            lemma_u32_pow2_no_overflow(zoom as nat);
            lemma_u32_shl_is_mul(1, zoom as u32);
        }
        Some(1u32 << (zoom as u32))
    }
}

/// Clamps a raw cell coordinate into the grid of level `zoom`.
pub fn clamp_to_grid(raw: u32, zoom: u8) -> (cell: u32)
    requires
        zoom <= MAX_ZOOM,
    ensures
        cell == clamp_cell(raw, zoom as nat),
        cell < pow2(zoom as nat),
{
    proof {
        lemma_u32_pow2_no_overflow(zoom as nat);
        lemma_u32_shl_is_mul(1, zoom as u32);
    }
    let max_index: u32 = (1u32 << (zoom as u32)) - 1;
    if raw < max_index { raw } else { max_index }
}

/// The tile id of the cell at raw coordinates `(raw_x, raw_y)` of level
/// `zoom`: the coordinates are clamped into the grid, mapped onto the
/// Hilbert curve of that order, and shifted past all lower levels.
pub fn tile_id_for_cell(raw_x: u32, raw_y: u32, zoom: u8) -> (tid: u64)
    requires
        zoom <= MAX_ZOOM,
    ensures
        tid == spec_tile_id(
            zoom as nat,
            hilbert_index(clamp_cell(raw_x, zoom as nat) as u32, clamp_cell(raw_y, zoom as nat) as u32, zoom) as nat,
        ),
        pyramid_size(zoom as nat) <= tid < pyramid_size(zoom as nat + 1),
        tid <= MAX_TILE_ID,
{
    let x = clamp_to_grid(raw_x, zoom);
    let y = clamp_to_grid(raw_y, zoom);
    let h = hilbert_xy2h(x, y, zoom);
    let offset = level_offset(zoom);
    proof {
        lemma_tile_id_in_level(zoom as nat, h as nat);
    }
    offset + h
}

} // verus!
