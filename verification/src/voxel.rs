use vstd::prelude::*;
use ahash::AHashSet;
use crate::occupancy::{
    key_set_contents, key_set_contains, key_set_insert, key_set_with_capacity, voxel_set_contents, voxel_set_contains,
    voxel_set_insert, voxel_set_with_capacity,
};

verus! {

/// Capacity reserved up front for the set of occupied voxels.
pub const OCCUPANCY_CAPACITY: usize = 5_000_000;

/// Bound below which voxel coordinates pack into a key without overlap.
pub const VOXEL_COORD_LIMIT: u32 = 0x1000_0000;

/// The key of voxel `(vx, vy)` on level `z`: the level in bits 0..8, the
/// x coordinate from bit 8 and the y coordinate from bit 36, or-ed together
/// in 64 bits.
pub open spec fn spec_voxel_key(z: u8, vx: u32, vy: u32) -> u64 {
    (z as u64) | ((vx as u64) << 8u64) | ((vy as u64) << 36u64)
}

/// Packs a voxel of a level into one `u64` key.
pub fn voxel_key(z: u8, vx: u32, vy: u32) -> (key: u64)
    ensures
        key == spec_voxel_key(z, vx, vy),
        vx < VOXEL_COORD_LIMIT && vy < VOXEL_COORD_LIMIT ==> key == z + 0x100 * vx + 0x10_0000_0000 * vy,
{
    let key: u64 = (z as u64) | ((vx as u64) << 8u64) | ((vy as u64) << 36u64);
    proof {
        let zz = z as u64;
        let xx = vx as u64;
        let yy = vy as u64;
        assert(xx < 0x1000_0000 && yy < 0x1000_0000 && zz < 0x100 ==>
            (zz | (xx << 8u64) | (yy << 36u64)) == zz + 0x100 * xx + 0x10_0000_0000 * yy) by (bit_vector);
    }
    key
}

/// Law: voxels whose coordinates are below `2^28` have pairwise different
/// keys, so the occupancy set tells them apart.
pub proof fn lemma_voxel_key_injective(z1: u8, vx1: u32, vy1: u32, z2: u8, vx2: u32, vy2: u32)
    requires
        vx1 < VOXEL_COORD_LIMIT,
        vy1 < VOXEL_COORD_LIMIT,
        vx2 < VOXEL_COORD_LIMIT,
        vy2 < VOXEL_COORD_LIMIT,
    ensures
        spec_voxel_key(z1, vx1, vy1) == spec_voxel_key(z2, vx2, vy2) <==> (z1 == z2 && vx1 == vx2 && vy1 == vy2),
{
    let (a, b, c) = (z1 as u64, vx1 as u64, vy1 as u64);
    let (d, e, f) = (z2 as u64, vx2 as u64, vy2 as u64);
    assert(a < 0x100 && d < 0x100 && b < 0x1000_0000 && c < 0x1000_0000 && e < 0x1000_0000 && f < 0x1000_0000 ==>
        (((a | (b << 8u64) | (c << 36u64)) == (d | (e << 8u64) | (f << 36u64))) <==> (a == d && b == e && c == f)))
        by (bit_vector);
}

/// The packed keys of a point's voxels, one per level.
pub open spec fn packed_keys(voxels: Seq<(u32, u32)>) -> Seq<u64> {
    Seq::new(voxels.len(), |z: int| spec_voxel_key(z as u8, voxels[z].0, voxels[z].1))
}

/// A point's voxels as (level, x, y) triples, one per level.
pub open spec fn exact_keys(voxels: Seq<(u32, u32)>) -> Seq<(u8, u32, u32)> {
    Seq::new(voxels.len(), |z: int| (z as u8, voxels[z].0, voxels[z].1))
}

/// Law: the key a point is looked up by on level `z` carries the level `z`:
/// the low byte of the packed key, and the first part of the exact voxel.
pub proof fn lemma_level_keys_carry_level(voxels: Seq<(u32, u32)>, z: int)
    requires
        voxels.len() <= 0x100,
        0 <= z < voxels.len(),
    ensures
        packed_key_level(packed_keys(voxels)[z]) == z,
        exact_keys(voxels)[z].0 == z,
        exact_keys(voxels)[z].1 == voxels[z].0 && exact_keys(voxels)[z].2 == voxels[z].1,
{
    lemma_packed_key_level(z as u8, voxels[z].0, voxels[z].1);
}

/// The lowest level from `from` on whose voxel (given by its key, one per
/// level) is not yet occupied.
pub open spec fn first_free_level<K>(occupied: Set<K>, keys: Seq<K>, from: nat) -> Option<nat>
    decreases keys.len() - from,
{
    if from >= keys.len() {
        None
    } else if !occupied.contains(keys[from as int]) {
        Some(from)
    } else {
        first_free_level(occupied, keys, from + 1)
    }
}

/// The level a point is assigned to: the lowest level with a free voxel, or
/// the deepest level when all are taken.
pub open spec fn assigned_level<K>(occupied: Set<K>, keys: Seq<K>, max_zoom: u8) -> u8 {
    match first_free_level(occupied, keys, 0) {
        Some(z) => z as u8,
        None => max_zoom,
    }
}

/// The occupied voxels after a point has been assigned: the voxel it claimed
/// is added.
pub open spec fn occupied_after<K>(occupied: Set<K>, keys: Seq<K>) -> Set<K> {
    match first_free_level(occupied, keys, 0) {
        Some(z) => occupied.insert(keys[z as int]),
        None => occupied,
    }
}

pub proof fn lemma_first_free_level<K>(occupied: Set<K>, keys: Seq<K>, from: nat)
    ensures
        first_free_level(occupied, keys, from) matches Some(z) ==> {
            &&& from <= z < keys.len()
            &&& !occupied.contains(keys[z as int])
            &&& forall|w: int| from <= w < z ==> occupied.contains(#[trigger] keys[w])
        },
        first_free_level(occupied, keys, from) is None ==>
            forall|w: int| from <= w < keys.len() ==> occupied.contains(#[trigger] keys[w]),
    decreases keys.len() - from,
{
    if from < keys.len() && occupied.contains(keys[from as int]) {
        lemma_first_free_level(occupied, keys, from + 1);
    }
}

proof fn lemma_free_key_bounds_level<K>(occupied: Set<K>, keys: Seq<K>, max_zoom: u8, z: int)
    requires
        keys.len() == max_zoom as int + 1,
        0 <= z < keys.len(),
        !occupied.contains(keys[z]),
    ensures
        assigned_level(occupied, keys, max_zoom) <= z,
{
    lemma_first_free_level(occupied, keys, 0);
}

/// Law: a point whose voxel on level `z` has not been claimed (by its packed
/// key, which carries the level) is assigned a level of at most `z`,
/// whatever voxels with the same coordinates are claimed on other levels.
pub proof fn lemma_free_voxel_bounds_level(occupied: Set<u64>, voxels: Seq<(u32, u32)>, max_zoom: u8, z: int)
    requires
        voxels.len() == max_zoom as int + 1,
        0 <= z < voxels.len(),
        !occupied.contains(spec_voxel_key(z as u8, voxels[z].0, voxels[z].1)),
    ensures
        assigned_level(occupied, packed_keys(voxels), max_zoom) <= z,
{
    lemma_free_key_bounds_level(occupied, packed_keys(voxels), max_zoom, z);
}

/// Law: a point whose voxel `(z, x, y)` on level `z` has not been claimed is
/// assigned a level of at most `z`, whatever voxels with the same
/// coordinates are claimed on other levels.
pub proof fn lemma_free_exact_voxel_bounds_level(
    occupied: Set<(u8, u32, u32)>,
    voxels: Seq<(u32, u32)>,
    max_zoom: u8,
    z: int,
)
    requires
        voxels.len() == max_zoom as int + 1,
        0 <= z < voxels.len(),
        !occupied.contains((z as u8, voxels[z].0, voxels[z].1)),
    ensures
        assigned_level(occupied, exact_keys(voxels), max_zoom) <= z,
{
    lemma_free_key_bounds_level(occupied, exact_keys(voxels), max_zoom, z);
}

/// Assigns levels with voxels told apart by packed `u64` keys, as the
/// streaming engine does.
pub struct VoxelBucketer {
    occupied: AHashSet<u64>,
}

impl VoxelBucketer {
    /// The keys of the voxels claimed so far.
    pub closed spec fn occupied(&self) -> Set<u64> {
        key_set_contents(self.occupied)
    }

    /// A bucketer with no voxel occupied.
    pub fn new() -> (bucketer: Self)
        ensures
            bucketer.occupied() == Set::<u64>::empty(),
    {
        VoxelBucketer { occupied: key_set_with_capacity(OCCUPANCY_CAPACITY) }
    }

    /// Assigns a point to a zoom level. `voxels[z]` is the voxel the point
    /// falls into on level `z`, for every level `0..=max_zoom`. The point
    /// claims the voxel of the lowest level where that voxel is still free
    /// and is assigned to that level; when every voxel is taken it is
    /// assigned to `max_zoom` and claims nothing.
    pub fn assign_zoom(&mut self, voxels: &Vec<(u32, u32)>, max_zoom: u8) -> (z: u8)
        requires
            voxels.len() == max_zoom as int + 1,
        ensures
            z == assigned_level(old(self).occupied(), packed_keys(voxels@), max_zoom),
            final(self).occupied() == occupied_after(old(self).occupied(), packed_keys(voxels@)),
            z <= max_zoom,
            forall|w: int| 0 <= w < z ==> old(self).occupied().contains(#[trigger] packed_keys(voxels@)[w]),
            first_free_level(old(self).occupied(), packed_keys(voxels@), 0) is Some ==>
                !old(self).occupied().contains(packed_keys(voxels@)[z as int]),
            forall|w: int| 0 <= w <= max_zoom
                && !old(self).occupied().contains(#[trigger] spec_voxel_key(w as u8, voxels@[w].0, voxels@[w].1))
                ==> z <= w,
            final(self).occupied() == old(self).occupied() || ({
                let key = spec_voxel_key(z, voxels@[z as int].0, voxels@[z as int].1);
                &&& !old(self).occupied().contains(key)
                &&& final(self).occupied() == old(self).occupied().insert(key)
            }),
    {
        let ghost occ = self.occupied();
        let ghost keys = packed_keys(voxels@);
        let mut level: usize = 0;
        while level < voxels.len()
            invariant
                0 <= level <= voxels.len(),
                voxels.len() == max_zoom as int + 1,
                keys == packed_keys(voxels@),
                self.occupied() == occ,
                occ == old(self).occupied(),
                first_free_level(occ, keys, 0) == first_free_level(occ, keys, level as nat),
            decreases voxels.len() - level,
        {
            let (vx, vy) = voxels[level];
            let key = voxel_key(level as u8, vx, vy);
            assert(key == keys[level as int]);
            if !key_set_contains(&self.occupied, key) {
                key_set_insert(&mut self.occupied, key);
                assert(first_free_level(occ, keys, level as nat) == Some(level as nat));
                proof {
                    lemma_first_free_level(occ, keys, 0);
                    assert forall|w: int| 0 <= w <= max_zoom && !occ.contains(#[trigger] spec_voxel_key(w as u8, voxels@[w].0, voxels@[w].1))
                        implies level <= w by {
                        assert(keys[w] == spec_voxel_key(w as u8, voxels@[w].0, voxels@[w].1));
                        lemma_free_key_bounds_level(occ, keys, max_zoom, w);
                    }
                }
                return level as u8;
            }
            level = level + 1;
        }
        proof {
            lemma_first_free_level(occ, keys, 0);
            assert forall|w: int| 0 <= w <= max_zoom && !occ.contains(#[trigger] spec_voxel_key(w as u8, voxels@[w].0, voxels@[w].1))
                implies max_zoom <= w by {
                assert(keys[w] == spec_voxel_key(w as u8, voxels@[w].0, voxels@[w].1));
                lemma_free_key_bounds_level(occ, keys, max_zoom, w);
            }
        }
        max_zoom
    }
}

/// Assigns levels with voxels told apart by their exact (level, x, y), as
/// the standalone Parquet bucketer does.
pub struct ExactVoxelBucketer {
    occupied: AHashSet<(u8, u32, u32)>,
}

impl ExactVoxelBucketer {
    /// The voxels claimed so far.
    pub closed spec fn occupied(&self) -> Set<(u8, u32, u32)> {
        voxel_set_contents(self.occupied)
    }

    /// A bucketer with no voxel occupied.
    pub fn new() -> (bucketer: Self)
        ensures
            bucketer.occupied() == Set::<(u8, u32, u32)>::empty(),
    {
        ExactVoxelBucketer { occupied: voxel_set_with_capacity(OCCUPANCY_CAPACITY) }
    }

    /// Assigns a point to a zoom level, as `VoxelBucketer::assign_zoom` does,
    /// with voxels compared by level and coordinates.
    pub fn assign_zoom(&mut self, voxels: &Vec<(u32, u32)>, max_zoom: u8) -> (z: u8)
        requires
            voxels.len() == max_zoom as int + 1,
        ensures
            z == assigned_level(old(self).occupied(), exact_keys(voxels@), max_zoom),
            final(self).occupied() == occupied_after(old(self).occupied(), exact_keys(voxels@)),
            z <= max_zoom,
            forall|w: int| 0 <= w < z ==> old(self).occupied().contains(#[trigger] exact_keys(voxels@)[w]),
            first_free_level(old(self).occupied(), exact_keys(voxels@), 0) is Some ==>
                !old(self).occupied().contains(exact_keys(voxels@)[z as int]),
            forall|w: int| 0 <= w <= max_zoom && !old(self).occupied().contains((w as u8, #[trigger] voxels@[w].0, voxels@[w].1))
                ==> z <= w,
            final(self).occupied() == old(self).occupied() || ({
                let voxel = (z, voxels@[z as int].0, voxels@[z as int].1);
                &&& !old(self).occupied().contains(voxel)
                &&& final(self).occupied() == old(self).occupied().insert(voxel)
            }),
    {
        let ghost occ = self.occupied();
        let ghost keys = exact_keys(voxels@);
        let mut level: usize = 0;
        while level < voxels.len()
            invariant
                0 <= level <= voxels.len(),
                voxels.len() == max_zoom as int + 1,
                keys == exact_keys(voxels@),
                self.occupied() == occ,
                occ == old(self).occupied(),
                first_free_level(occ, keys, 0) == first_free_level(occ, keys, level as nat),
            decreases voxels.len() - level,
        {
            let (vx, vy) = voxels[level];
            let voxel = (level as u8, vx, vy);
            assert(voxel == keys[level as int]);
            if !voxel_set_contains(&self.occupied, voxel) {
                voxel_set_insert(&mut self.occupied, voxel);
                assert(first_free_level(occ, keys, level as nat) == Some(level as nat));
                proof {
                    lemma_first_free_level(occ, keys, 0);
                    assert forall|w: int| 0 <= w <= max_zoom && !occ.contains((w as u8, #[trigger] voxels@[w].0, voxels@[w].1))
                        implies level <= w by {
                        assert(keys[w] == (w as u8, voxels@[w].0, voxels@[w].1));
                        lemma_free_key_bounds_level(occ, keys, max_zoom, w);
                    }
                }
                return level as u8;
            }
            level = level + 1;
        }
        proof {
            lemma_first_free_level(occ, keys, 0);
            assert forall|w: int| 0 <= w <= max_zoom && !occ.contains((w as u8, #[trigger] voxels@[w].0, voxels@[w].1))
                implies max_zoom <= w by {
                assert(keys[w] == (w as u8, voxels@[w].0, voxels@[w].1));
                lemma_free_key_bounds_level(occ, keys, max_zoom, w);
            }
        }
        max_zoom
    }
}

/// Law: the two bucketers agree on points whose voxel coordinates are below
/// `2^28`: when the packed keys are exactly the packings of the claimed
/// voxels (all in that range), a point finds the same free level either way.
pub proof fn lemma_packed_and_exact_agree(voxels: Seq<(u32, u32)>, packed: Set<u64>, exact: Set<(u8, u32, u32)>)
    requires
        forall|z: int| 0 <= z < voxels.len() ==> (#[trigger] voxels[z]).0 < VOXEL_COORD_LIMIT && voxels[z].1 < VOXEL_COORD_LIMIT,
        forall|t: (u8, u32, u32)| #[trigger] exact.contains(t) ==> t.1 < VOXEL_COORD_LIMIT && t.2 < VOXEL_COORD_LIMIT,
        forall|k: u64| #[trigger] packed.contains(k) <==> exists|t: (u8, u32, u32)| exact.contains(t)
            && k == #[trigger] spec_voxel_key(t.0, t.1, t.2),
    ensures
        first_free_level(packed, packed_keys(voxels), 0) == first_free_level(exact, exact_keys(voxels), 0),
{
    assert forall|z: int| 0 <= z < voxels.len() implies
        packed.contains(#[trigger] packed_keys(voxels)[z]) == exact.contains(exact_keys(voxels)[z]) by {
        let t = exact_keys(voxels)[z];
        let k = packed_keys(voxels)[z];
        assert(k == spec_voxel_key(t.0, t.1, t.2));
        assert(voxels[z].0 < VOXEL_COORD_LIMIT && voxels[z].1 < VOXEL_COORD_LIMIT);
        if exact.contains(t) {
            assert(packed.contains(k));
        }
        if packed.contains(k) {
            let u = choose|u: (u8, u32, u32)| exact.contains(u) && k == spec_voxel_key(u.0, u.1, u.2);
            lemma_voxel_key_injective(u.0, u.1, u.2, t.0, t.1, t.2);
            assert(u == t);
        }
    }
    lemma_first_free_agree(voxels, packed, exact, 0);
}

proof fn lemma_first_free_agree(voxels: Seq<(u32, u32)>, packed: Set<u64>, exact: Set<(u8, u32, u32)>, from: nat)
    requires
        forall|z: int| 0 <= z < voxels.len() ==>
            packed.contains(#[trigger] packed_keys(voxels)[z]) == exact.contains(exact_keys(voxels)[z]),
    ensures
        first_free_level(packed, packed_keys(voxels), from) == first_free_level(exact, exact_keys(voxels), from),
    decreases voxels.len() - from,
{
    if from < voxels.len() {
        assert(packed.contains(packed_keys(voxels)[from as int]) == exact.contains(exact_keys(voxels)[from as int]));
        lemma_first_free_agree(voxels, packed, exact, from + 1);
    }
}

/// Occupied voxels after points with the per-level voxel keys `points` have
/// been assigned one after the other, starting from `occupied`.
pub open spec fn occupied_after_all<K>(occupied: Set<K>, points: Seq<Seq<K>>) -> Set<K>
    decreases points.len(),
{
    if points.len() == 0 {
        occupied
    } else {
        occupied_after(occupied_after_all(occupied, points.drop_last()), points.last())
    }
}

/// Occupied voxels just before point `i` of `points` is assigned.
pub open spec fn occupied_before<K>(occupied: Set<K>, points: Seq<Seq<K>>, i: int) -> Set<K> {
    occupied_after_all(occupied, points.take(i))
}

/// Whether point `i` claims a voxel (finds a free level).
pub open spec fn claims_voxel<K>(occupied: Set<K>, points: Seq<Seq<K>>, i: int) -> bool {
    first_free_level(occupied_before(occupied, points, i), points[i], 0) is Some
}

/// The key of the voxel point `i` claims.
pub open spec fn claimed_key<K>(occupied: Set<K>, points: Seq<Seq<K>>, i: int) -> K {
    points[i][first_free_level(occupied_before(occupied, points, i), points[i], 0).unwrap() as int]
}

proof fn lemma_occupied_before_step<K>(occupied: Set<K>, points: Seq<Seq<K>>, i: int)
    requires
        0 <= i < points.len(),
    ensures
        occupied_before(occupied, points, i + 1) == occupied_after(occupied_before(occupied, points, i), points[i]),
{
    assert(points.take(i + 1).drop_last() =~= points.take(i));
}

proof fn lemma_occupied_grows<K>(occupied: Set<K>, points: Seq<Seq<K>>, i: int, j: int)
    requires
        0 <= i <= j <= points.len(),
    ensures
        occupied_before(occupied, points, i).subset_of(occupied_before(occupied, points, j)),
    decreases j - i,
{
    if i < j {
        lemma_occupied_grows(occupied, points, i, j - 1);
        lemma_occupied_before_step(occupied, points, j - 1);
    }
}

/// Law: over a run of points, every voxel is claimed by at most one point:
/// two different points that both claim a voxel claim different ones. With
/// points in brightness order, each voxel keeps the first (brightest) point
/// that reached it.
pub proof fn lemma_claimed_voxels_distinct<K>(occupied: Set<K>, points: Seq<Seq<K>>, i: int, j: int)
    requires
        0 <= i < j < points.len(),
        claims_voxel(occupied, points, i),
        claims_voxel(occupied, points, j),
    ensures
        claimed_key(occupied, points, i) != claimed_key(occupied, points, j),
{
    let before_i = occupied_before(occupied, points, i);
    let before_j = occupied_before(occupied, points, j);
    lemma_first_free_level(before_i, points[i], 0);
    lemma_first_free_level(before_j, points[j], 0);
    lemma_occupied_before_step(occupied, points, i);
    lemma_occupied_grows(occupied, points, i + 1, j);
    assert(occupied_before(occupied, points, i + 1).contains(claimed_key(occupied, points, i)));
}

/// Law: a voxel once claimed stays occupied for all later points, so no
/// later point claims it again.
pub proof fn lemma_claimed_voxel_stays<K>(occupied: Set<K>, points: Seq<Seq<K>>, i: int, j: int)
    requires
        0 <= i < j <= points.len(),
        claims_voxel(occupied, points, i),
    ensures
        occupied_before(occupied, points, j).contains(claimed_key(occupied, points, i)),
{
    lemma_occupied_before_step(occupied, points, i);
    lemma_occupied_grows(occupied, points, i + 1, j);
}

/// The level point `i` of a run is assigned.
pub open spec fn level_in_run<K>(occupied: Set<K>, points: Seq<Seq<K>>, i: int, max_zoom: u8) -> u8 {
    assigned_level(occupied_before(occupied, points, i), points[i], max_zoom)
}

/// Law: a point's level depends only on the points before it: appending
/// more points (or cutting the stream into batches differently, which feeds
/// the same points in the same order) does not change it.
pub proof fn lemma_level_depends_on_prefix<K>(occupied: Set<K>, points: Seq<Seq<K>>, more: Seq<Seq<K>>, i: int, max_zoom: u8)
    requires
        0 <= i < points.len(),
    ensures
        occupied_before(occupied, points + more, i) == occupied_before(occupied, points, i),
        level_in_run(occupied, points + more, i, max_zoom) == level_in_run(occupied, points, i, max_zoom),
{
    assert((points + more).take(i) =~= points.take(i));
    assert((points + more)[i] == points[i]);
}

/// `first_free_level` is `z` when every voxel before `z` is taken and the
/// one on `z` is free.
proof fn lemma_first_free_level_is<K>(occupied: Set<K>, keys: Seq<K>, from: nat, z: nat)
    requires
        from <= z < keys.len(),
        !occupied.contains(keys[z as int]),
        forall|w: int| from <= w < z ==> occupied.contains(#[trigger] keys[w]),
    ensures
        first_free_level(occupied, keys, from) == Some(z),
    decreases z - from,
{
    if from < z {
        lemma_first_free_level_is(occupied, keys, from + 1, z);
    }
}

/// The two runs agree on the voxels of levels up to `m`, and the shallower
/// run holds no others.
pub open spec fn agree_up_to<K>(level_of: spec_fn(K) -> nat, m: nat, shallow: Set<K>, deep: Set<K>) -> bool {
    &&& forall|k: K| #[trigger] shallow.contains(k) ==> level_of(k) <= m
    &&& forall|k: K| level_of(k) <= m ==> (#[trigger] deep.contains(k) <==> shallow.contains(k))
}

/// One point, seen by two runs that agree up to level `m`: where the
/// shallower run finds a free level, the deeper run finds the same one;
/// where it finds none, the deeper run finds none up to `m`; and the runs
/// still agree up to `m` afterwards.
proof fn lemma_step_agrees<K>(
    level_of: spec_fn(K) -> nat,
    s: Set<K>,
    d: Set<K>,
    p: Seq<K>,
    q: Seq<K>,
    m: u8,
    m2: u8,
)
    requires
        m < m2,
        agree_up_to(level_of, m as nat, s, d),
        p.len() == m as int + 1,
        q.len() == m2 as int + 1,
        forall|z: int| 0 <= z <= m ==> #[trigger] q[z] == p[z],
        forall|z: int| 0 <= z <= m2 ==> level_of(#[trigger] q[z]) == z,
    ensures
        first_free_level(s, p, 0) matches Some(z) ==> first_free_level(d, q, 0) == Some(z),
        first_free_level(s, p, 0) is None ==> match first_free_level(d, q, 0) {
            Some(z2) => z2 > m,
            None => true,
        },
        agree_up_to(level_of, m as nat, occupied_after(s, p), occupied_after(d, q)),
{
    lemma_first_free_level(s, p, 0);
    lemma_first_free_level(d, q, 0);
    assert forall|z: int| 0 <= z <= m implies #[trigger] q[z] == p[z] && level_of(p[z]) == z by {
        assert(q[z] == p[z]);
        assert(level_of(q[z]) == z);
    }
    match first_free_level(s, p, 0) {
        Some(z) => {
            assert(q[z as int] == p[z as int]);
            assert(level_of(p[z as int]) == z);
            assert(d.contains(p[z as int]) == s.contains(p[z as int]));
            assert forall|w: int| 0 <= w < z implies d.contains(#[trigger] q[w]) by {
                assert(q[w] == p[w]);
                assert(s.contains(p[w]));
                assert(level_of(p[w]) == w);
            }
            lemma_first_free_level_is(d, q, 0, z);
            assert(occupied_after(s, p) == s.insert(p[z as int]));
            assert(occupied_after(d, q) == d.insert(q[z as int]));
        },
        None => {
            assert forall|w: int| 0 <= w <= m implies d.contains(#[trigger] q[w]) by {
                assert(q[w] == p[w]);
                assert(s.contains(p[w]));
                assert(level_of(p[w]) == w);
            }
            match first_free_level(d, q, 0) {
                Some(z2) => {
                    if z2 <= m {
                        assert(d.contains(q[z2 as int]));
                    }
                    assert(level_of(q[z2 as int]) == z2);
                },
                None => {},
            }
        },
    }
}

proof fn lemma_runs_agree_up_to<K>(
    level_of: spec_fn(K) -> nat,
    points: Seq<Seq<K>>,
    deeper: Seq<Seq<K>>,
    m: u8,
    m2: u8,
    i: int,
)
    requires
        m < m2,
        points.len() == deeper.len(),
        0 <= i <= points.len(),
        forall|j: int| 0 <= j < points.len() ==> (#[trigger] points[j]).len() == m as int + 1
            && deeper[j].len() == m2 as int + 1,
        forall|j: int, z: int| 0 <= j < points.len() && 0 <= z <= m ==> #[trigger] deeper[j][z] == points[j][z],
        forall|j: int, z: int| 0 <= j < points.len() && 0 <= z <= m2 ==> level_of(#[trigger] deeper[j][z]) == z,
    ensures
        agree_up_to(level_of, m as nat, occupied_before(Set::empty(), points, i), occupied_before(Set::empty(), deeper, i)),
    decreases i,
{
    if i == 0 {
        assert(points.take(0) =~= Seq::<Seq<K>>::empty());
        assert(deeper.take(0) =~= Seq::<Seq<K>>::empty());
    } else {
        let j = i - 1;
        lemma_runs_agree_up_to(level_of, points, deeper, m, m2, j);
        lemma_occupied_before_step(Set::empty(), points, j);
        lemma_occupied_before_step(Set::empty(), deeper, j);
        lemma_shared_levels(level_of, points, deeper, m, m2, j);
        lemma_step_agrees(
            level_of,
            occupied_before(Set::empty(), points, j),
            occupied_before(Set::empty(), deeper, j),
            points[j],
            deeper[j],
            m,
            m2,
        );
    }
}

/// Point `j` of the two runs, level by level.
proof fn lemma_shared_levels<K>(
    level_of: spec_fn(K) -> nat,
    points: Seq<Seq<K>>,
    deeper: Seq<Seq<K>>,
    m: u8,
    m2: u8,
    j: int,
)
    requires
        points.len() == deeper.len(),
        0 <= j < points.len(),
        forall|j: int| 0 <= j < points.len() ==> (#[trigger] points[j]).len() == m as int + 1
            && deeper[j].len() == m2 as int + 1,
        forall|j: int, z: int| 0 <= j < points.len() && 0 <= z <= m ==> #[trigger] deeper[j][z] == points[j][z],
        forall|j: int, z: int| 0 <= j < points.len() && 0 <= z <= m2 ==> level_of(#[trigger] deeper[j][z]) == z,
    ensures
        points[j].len() == m as int + 1,
        deeper[j].len() == m2 as int + 1,
        forall|z: int| 0 <= z <= m ==> #[trigger] deeper[j][z] == points[j][z],
        forall|z: int| 0 <= z <= m2 ==> level_of(#[trigger] deeper[j][z]) == z,
{
}

/// Law: raising `max_zoom` moves only the points that had sunk to the last
/// level. Two runs over the same points, the second with the deeper
/// `m2 > m` (each point's voxels on the shared levels are the same, and a
/// voxel's level can be read from its key), assign every point below `m`
/// the same level, and every point on `m` a level of at least `m`.
pub proof fn lemma_raising_max_zoom<K>(
    level_of: spec_fn(K) -> nat,
    points: Seq<Seq<K>>,
    deeper: Seq<Seq<K>>,
    m: u8,
    m2: u8,
    i: int,
)
    requires
        m < m2,
        points.len() == deeper.len(),
        0 <= i < points.len(),
        forall|j: int| 0 <= j < points.len() ==> (#[trigger] points[j]).len() == m as int + 1
            && deeper[j].len() == m2 as int + 1,
        forall|j: int, z: int| 0 <= j < points.len() && 0 <= z <= m ==> #[trigger] deeper[j][z] == points[j][z],
        forall|j: int, z: int| 0 <= j < points.len() && 0 <= z <= m2 ==> level_of(#[trigger] deeper[j][z]) == z,
    ensures
        level_in_run(Set::empty(), points, i, m) < m ==>
            level_in_run(Set::empty(), deeper, i, m2) == level_in_run(Set::empty(), points, i, m),
        level_in_run(Set::empty(), points, i, m) == m ==> level_in_run(Set::empty(), deeper, i, m2) >= m,
{
    lemma_runs_agree_up_to(level_of, points, deeper, m, m2, i);
    lemma_shared_levels(level_of, points, deeper, m, m2, i);
    lemma_step_agrees(
        level_of,
        occupied_before(Set::empty(), points, i),
        occupied_before(Set::empty(), deeper, i),
        points[i],
        deeper[i],
        m,
        m2,
    );
    lemma_first_free_level(occupied_before(Set::empty(), points, i), points[i], 0);
    lemma_first_free_level(occupied_before(Set::empty(), deeper, i), deeper[i], 0);
}

/// The level a packed voxel key carries in its low byte.
pub open spec fn packed_key_level(key: u64) -> nat {
    (key & 0xFF) as nat
}

/// A packed key's low byte is its level, so `packed_key_level` reads the
/// level of `packed_keys` (as `lemma_raising_max_zoom` needs).
pub proof fn lemma_packed_key_level(z: u8, vx: u32, vy: u32)
    ensures
        packed_key_level(spec_voxel_key(z, vx, vy)) == z,
{
    let (a, b, c) = (z as u64, vx as u64, vy as u64);
    assert(a < 0x100 ==> ((a | (b << 8u64) | (c << 36u64)) & 0xFF) == a) by (bit_vector);
}

} // verus!
