use arrowtiles::framing::{tile_coordinate, TileCoordinate};
use arrowtiles::hilbert::{clamp_to_grid, grid_side, tile_id_for_cell};
use arrowtiles::tile_id::{level_offset, MAX_TILE_ID, MAX_ZOOM};

#[test]
fn level_offsets_are_pyramid_sizes() {
    assert_eq!(level_offset(0), 0);
    assert_eq!(level_offset(1), 1);
    assert_eq!(level_offset(2), 5);
    assert_eq!(level_offset(3), 21);
    assert_eq!(level_offset(14), 89478485);
    assert_eq!(level_offset(31), 1537228672809129301);
    for z in 0..=MAX_ZOOM {
        assert_eq!(level_offset(z), pmtiles::PYRAMID_SIZE_BY_ZOOM[z as usize]);
    }
}

#[test]
fn level_offset_formula() {
    for z in 0..=MAX_ZOOM {
        assert_eq!(level_offset(z), ((1u64 << (2 * z as u32)) - 1) / 3);
    }
}

#[test]
fn max_tile_id_is_pmtiles_max() {
    assert_eq!(MAX_TILE_ID, pmtiles::MAX_TILE_ID);
    assert_eq!(MAX_ZOOM, pmtiles::MAX_ZOOM);
}

#[test]
fn grid_side_per_level() {
    assert_eq!(grid_side(0), Some(1));
    assert_eq!(grid_side(1), Some(2));
    assert_eq!(grid_side(14), Some(16384));
    assert_eq!(grid_side(31), Some(1u32 << 31));
    assert_eq!(grid_side(32), None);
    assert_eq!(grid_side(255), None);
}

#[test]
fn clamp_keeps_cells_inside_the_grid() {
    assert_eq!(clamp_to_grid(2, 2), 2);
    assert_eq!(clamp_to_grid(3, 2), 3);
    assert_eq!(clamp_to_grid(4, 2), 3);
    assert_eq!(clamp_to_grid(5, 0), 0);
    assert_eq!(clamp_to_grid(u32::MAX, 31), (1u32 << 31) - 1);
}

#[test]
fn tile_ids_of_low_levels() {
    assert_eq!(tile_id_for_cell(0, 0, 0), 0);
    assert_eq!(tile_id_for_cell(9, 9, 0), 0);
    // Order-1 Hilbert curve: (0,0)=0, (0,1)=1, (1,1)=2, (1,0)=3.
    assert_eq!(tile_id_for_cell(0, 0, 1), 1);
    assert_eq!(tile_id_for_cell(0, 1, 1), 2);
    assert_eq!(tile_id_for_cell(1, 1, 1), 3);
    assert_eq!(tile_id_for_cell(1, 0, 1), 4);
    // Raw coordinates beyond the grid are clamped to its last cell.
    assert_eq!(tile_id_for_cell(7, 0, 1), 4);
}

#[test]
fn tile_ids_stay_in_their_level() {
    for z in 0..=MAX_ZOOM {
        let last = (1u32 << z) - 1;
        for (x, y) in [(0, 0), (last, 0), (0, last), (last, last), (last / 2, last / 3)] {
            let tid = tile_id_for_cell(x, y, z);
            assert!(tid >= level_offset(z));
            if z < MAX_ZOOM {
                assert!(tid < level_offset(z + 1));
            } else {
                assert!(tid <= MAX_TILE_ID);
            }
        }
    }
}

#[test]
fn tile_ids_agree_with_pmtiles() {
    for (x, y, z) in [(0u32, 0u32, 0u8), (1, 0, 1), (5, 9, 4), (123, 456, 10), (70000, 3, 17), (1 << 30, 5, 31)] {
        let tid = tile_id_for_cell(x, y, z);
        let ours = tile_coordinate(tid).unwrap();
        assert_eq!(ours, TileCoordinate { z, x, y });
        let theirs: pmtiles::TileId = pmtiles::TileCoord::new(z, x, y).unwrap().into();
        assert_eq!(theirs.value(), tid);
    }
}

#[test]
fn tile_coordinate_bounds() {
    assert_eq!(tile_coordinate(0), Some(TileCoordinate { z: 0, x: 0, y: 0 }));
    assert_eq!(tile_coordinate(4), Some(TileCoordinate { z: 1, x: 1, y: 0 }));
    assert_eq!(tile_coordinate(MAX_TILE_ID).map(|c| c.z), Some(31));
    assert_eq!(tile_coordinate(MAX_TILE_ID + 1), None);
    assert_eq!(tile_coordinate(u64::MAX), None);
}

#[test]
fn tile_ids_order_by_level_then_index() {
    let mut previous: Option<u64> = None;
    for z in 0..6u8 {
        let side = 1u32 << z;
        let mut ids: Vec<u64> = Vec::new();
        for x in 0..side {
            for y in 0..side {
                ids.push(tile_id_for_cell(x, y, z));
            }
        }
        ids.sort();
        ids.dedup();
        assert_eq!(ids.len() as u64, 1u64 << (2 * z));
        assert_eq!(ids[0], level_offset(z));
        if let Some(p) = previous {
            assert!(p < ids[0]);
        }
        previous = ids.last().copied();
    }
}
