use vstd::prelude::*;
use vstd::arithmetic::power2::{pow2, lemma_pow2_unfold, lemma2_to64, lemma2_to64_rest, lemma_pow2_pos};
use vstd::bits::{lemma_u64_shl_is_mul, lemma_u64_pow2_no_overflow};

verus! {

/// Highest zoom level of a PMTiles archive.
pub const MAX_ZOOM: u8 = 31;

/// Highest tile id of a PMTiles archive: the last tile of zoom level 31.
pub const MAX_TILE_ID: u64 = 6148914691236517204;

/// Number of tiles on one zoom level: `4^z`.
pub open spec fn tiles_on_level(z: nat) -> nat {
    pow2(2 * z)
}

/// Number of tiles on all zoom levels strictly below `z`:
/// `4^0 + 4^1 + ... + 4^(z-1)`. The tile ids of level `z` start here.
pub open spec fn pyramid_size(z: nat) -> nat
    decreases z,
{
    if z == 0 {
        0
    } else {
        pyramid_size((z - 1) as nat) + tiles_on_level((z - 1) as nat)
    }
}

/// The PMTiles tile id of the cell with Hilbert index `h` on level `z`.
pub open spec fn spec_tile_id(z: nat, h: nat) -> nat {
    pyramid_size(z) + h
}

/// The zoom level that a tile id belongs to: the highest level `z <= 31`
/// whose first tile id is at most `tid`.
pub open spec fn zoom_of_tile_id(tid: nat) -> nat {
    zoom_of_tile_id_from(tid, 0)
}

pub open spec fn zoom_of_tile_id_from(tid: nat, z: nat) -> nat
    decreases 31 - z,
{
    if z >= 31 || tid < pyramid_size(z + 1) {
        z
    } else {
        zoom_of_tile_id_from(tid, z + 1)
    }
}

pub proof fn lemma_tiles_on_level_unfold(z: nat)
    requires
        z > 0,
    ensures
        tiles_on_level(z) == 4 * tiles_on_level((z - 1) as nat),
{
    lemma_pow2_unfold(2 * z);
    lemma_pow2_unfold((2 * z - 1) as nat);
}

pub proof fn lemma_tiles_on_level_pos(z: nat)
    ensures
        tiles_on_level(z) > 0,
{
    lemma_pow2_pos(2 * z);
}

/// The closed form of the pyramid size: `3 * pyramid_size(z) + 1 == 4^z`.
pub proof fn lemma_pyramid_closed_form(z: nat)
    ensures
        3 * pyramid_size(z) + 1 == tiles_on_level(z),
    decreases z,
{
    if z == 0 {
        lemma2_to64();
    } else {
        lemma_pyramid_closed_form((z - 1) as nat);
        lemma_tiles_on_level_unfold(z);
    }
}

/// Pyramid sizes grow strictly with the level.
pub proof fn lemma_pyramid_strictly_increases(z1: nat, z2: nat)
    requires
        z1 < z2,
    ensures
        pyramid_size(z1) < pyramid_size(z2),
    decreases z2,
{
    lemma_tiles_on_level_pos((z2 - 1) as nat);
    if z1 < z2 - 1 {
        lemma_pyramid_strictly_increases(z1, (z2 - 1) as nat);
    }
}

/// `pyramid_size(32) - 1` is the highest PMTiles tile id.
pub proof fn lemma_max_tile_id()
    ensures
        pyramid_size(32) == MAX_TILE_ID + 1,
        pyramid_size(31) + tiles_on_level(31) == MAX_TILE_ID + 1,
{
    lemma_pyramid_closed_form(32);
    lemma2_to64();
    lemma2_to64_rest();
}

/// A tile id made from level `z` and an index on that level lies in the id
/// range of level `z`, and that range lies in the PMTiles id space.
pub proof fn lemma_tile_id_in_level(z: nat, h: nat)
    requires
        z <= 31,
        h < tiles_on_level(z),
    ensures
        pyramid_size(z) <= spec_tile_id(z, h) < pyramid_size(z + 1),
        spec_tile_id(z, h) <= MAX_TILE_ID,
{
    lemma_max_tile_id();
    if z < 31 {
        lemma_pyramid_strictly_increases(z + 1, 32);
    }
}

/// Law: the tile ids of different (level, index) pairs are different, and
/// tile ids order the tiles by level first, then by index on the level.
pub proof fn lemma_tile_id_order(z1: nat, h1: nat, z2: nat, h2: nat)
    requires
        z1 <= 31,
        z2 <= 31,
        h1 < tiles_on_level(z1),
        h2 < tiles_on_level(z2),
    ensures
        (spec_tile_id(z1, h1) < spec_tile_id(z2, h2)) <==> (z1 < z2 || (z1 == z2 && h1 < h2)),
        (spec_tile_id(z1, h1) == spec_tile_id(z2, h2)) <==> (z1 == z2 && h1 == h2),
{
    lemma_tile_id_in_level(z1, h1);
    lemma_tile_id_in_level(z2, h2);
    if z1 < z2 {
        if z1 + 1 < z2 {
            lemma_pyramid_strictly_increases(z1 + 1, z2);
        }
    } else if z2 < z1 {
        if z2 + 1 < z1 {
            lemma_pyramid_strictly_increases(z2 + 1, z1);
        }
    }
}

proof fn lemma_zoom_of_tile_id_from(tid: nat, z: nat, start: nat)
    requires
        start <= z <= 31,
        pyramid_size(z) <= tid,
        z < 31 ==> tid < pyramid_size(z + 1),
    ensures
        zoom_of_tile_id_from(tid, start) == z,
    decreases z - start,
{
    if start < z {
        lemma_pyramid_strictly_increases(start + 1, z + 1);
        if start + 1 < z {
            lemma_pyramid_strictly_increases(start + 1, z);
        }
        lemma_zoom_of_tile_id_from(tid, z, start + 1);
    }
}

/// Law: the level read back from a tile id is the level it was made from.
pub proof fn lemma_zoom_of_tile_id(z: nat, h: nat)
    requires
        z <= 31,
        h < tiles_on_level(z),
    ensures
        zoom_of_tile_id(spec_tile_id(z, h)) == z,
{
    lemma_tile_id_in_level(z, h);
    lemma_zoom_of_tile_id_from(spec_tile_id(z, h), z, 0);
}

/// First tile id of zoom level `z`: `(4^z - 1) / 3`.
pub fn level_offset(z: u8) -> (offset: u64)
    requires
        z <= MAX_ZOOM,
    ensures
        offset == pyramid_size(z as nat),
{
    let shift: u64 = 2 * (z as u64);
    proof {
        lemma_u64_pow2_no_overflow(shift as nat);
        lemma_u64_shl_is_mul(1, shift);
        lemma_pyramid_closed_form(z as nat);
    }
    let first_of_next: u64 = 1u64 << shift;
    let offset = (first_of_next - 1) / 3;
    proof {
        let s = pyramid_size(z as nat);
        assert(first_of_next - 1 == 3 * s);
        assert((3 * s) / 3 == s) by (nonlinear_arith);
    }
    offset
}

} // verus!
