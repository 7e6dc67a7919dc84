use arrowtiles::voxel::{voxel_key, ExactVoxelBucketer, VoxelBucketer};

#[test]
fn voxel_key_layout() {
    assert_eq!(voxel_key(0, 0, 0), 0);
    assert_eq!(voxel_key(3, 1, 2), 3 + (1 << 8) + (2u64 << 36));
    assert_eq!(voxel_key(255, (1 << 28) - 1, (1 << 28) - 1), 255 | (((1u64 << 28) - 1) << 8) | (((1u64 << 28) - 1) << 36));
}

#[test]
fn voxel_keys_overlap_beyond_28_bits() {
    assert_eq!(voxel_key(0, 1 << 28, 0), voxel_key(0, 0, 1));
}

#[test]
fn points_fill_voxels_level_by_level() {
    let mut bucketer = VoxelBucketer::new();
    let voxels = vec![(0u32, 0u32), (0, 1), (1, 3)];
    assert_eq!(bucketer.assign_zoom(&voxels, 2), 0);
    assert_eq!(bucketer.assign_zoom(&voxels, 2), 1);
    assert_eq!(bucketer.assign_zoom(&voxels, 2), 2);
    // All three voxels are taken: the point stays at the deepest level.
    assert_eq!(bucketer.assign_zoom(&voxels, 2), 2);
    // A point in another level-0 voxel starts at the top again.
    assert_eq!(bucketer.assign_zoom(&vec![(1, 0), (2, 1), (5, 3)], 2), 0);
    // Sharing only the level-1 voxel of the first point: level 1 is taken.
    assert_eq!(bucketer.assign_zoom(&vec![(1, 0), (0, 1), (7, 7)], 2), 2);
}

#[test]
fn single_level_run() {
    let mut bucketer = VoxelBucketer::new();
    assert_eq!(bucketer.assign_zoom(&vec![(4, 4)], 0), 0);
    assert_eq!(bucketer.assign_zoom(&vec![(4, 4)], 0), 0);
    assert_eq!(bucketer.assign_zoom(&vec![(4, 5)], 0), 0);
}

#[test]
fn levels_are_distinct_voxels() {
    // The same (vx, vy) on different levels are different voxels.
    let mut bucketer = VoxelBucketer::new();
    assert_eq!(bucketer.assign_zoom(&vec![(2, 2), (2, 2)], 1), 0);
    assert_eq!(bucketer.assign_zoom(&vec![(2, 2), (2, 2)], 1), 1);
}

#[test]
fn exact_bucketer_fills_voxels_level_by_level() {
    let mut bucketer = ExactVoxelBucketer::new();
    let voxels = vec![(0u32, 0u32), (0, 1), (1, 3)];
    assert_eq!(bucketer.assign_zoom(&voxels, 2), 0);
    assert_eq!(bucketer.assign_zoom(&voxels, 2), 1);
    assert_eq!(bucketer.assign_zoom(&voxels, 2), 2);
    assert_eq!(bucketer.assign_zoom(&voxels, 2), 2);
}

#[test]
fn exact_bucketer_tells_far_voxels_apart() {
    // Packed keys of these two voxels coincide; exact voxels do not.
    let mut packed = VoxelBucketer::new();
    assert_eq!(packed.assign_zoom(&vec![(1 << 28, 0), (0, 0)], 1), 0);
    assert_eq!(packed.assign_zoom(&vec![(0, 1), (0, 0)], 1), 1);
    let mut exact = ExactVoxelBucketer::new();
    assert_eq!(exact.assign_zoom(&vec![(1 << 28, 0), (0, 0)], 1), 0);
    assert_eq!(exact.assign_zoom(&vec![(0, 1), (0, 0)], 1), 0);
}

#[test]
fn bucketers_agree_on_small_coordinates() {
    let mut packed = VoxelBucketer::new();
    let mut exact = ExactVoxelBucketer::new();
    let mut seed: u64 = 12345;
    for _ in 0..2000 {
        let mut voxels = Vec::new();
        for z in 0..4u32 {
            seed = seed.wrapping_mul(6364136223846793005).wrapping_add(1442695040888963407);
            let vx = ((seed >> 33) as u32) % (4 << z);
            let vy = ((seed >> 13) as u32) % (4 << z);
            voxels.push((vx, vy));
        }
        assert_eq!(packed.assign_zoom(&voxels, 3), exact.assign_zoom(&voxels, 3));
    }
}

#[test]
fn claimed_voxels_are_claimed_once() {
    // Points claiming a voxel on the same level never share it.
    let mut bucketer = ExactVoxelBucketer::new();
    let mut claimed = std::collections::HashSet::new();
    let mut seed: u64 = 99;
    for _ in 0..3000 {
        let mut voxels = Vec::new();
        for z in 0..3u32 {
            seed = seed.wrapping_mul(6364136223846793005).wrapping_add(1442695040888963407);
            voxels.push((((seed >> 40) as u32) % (2 << z), ((seed >> 20) as u32) % (2 << z)));
        }
        let z = bucketer.assign_zoom(&voxels, 2);
        let voxel = (z, voxels[z as usize].0, voxels[z as usize].1);
        let fresh = claimed.insert(voxel);
        assert!(fresh || z == 2);
    }
}

fn levels(points: &[Vec<(u32, u32)>], max_zoom: u8) -> Vec<u8> {
    let mut bucketer = VoxelBucketer::new();
    points.iter().map(|v| bucketer.assign_zoom(&v[..=max_zoom as usize].to_vec(), max_zoom)).collect()
}

fn sample_points(n: usize, depth: u32) -> Vec<Vec<(u32, u32)>> {
    let mut seed: u64 = 7;
    (0..n)
        .map(|_| {
            seed = seed.wrapping_mul(6364136223846793005).wrapping_add(1442695040888963407);
            let x = (seed >> 40) as u32 % 1024;
            let y = (seed >> 20) as u32 % 1024;
            (0..=depth).map(|z| (x >> (10 - z), y >> (10 - z))).collect()
        })
        .collect()
}

#[test]
fn levels_depend_only_on_earlier_points() {
    let points = sample_points(600, 6);
    let all = levels(&points, 6);
    let prefix = levels(&points[..250], 6);
    assert_eq!(&all[..250], &prefix[..]);
}

#[test]
fn raising_max_zoom_moves_only_sunk_points() {
    let points = sample_points(800, 6);
    let shallow = levels(&points, 3);
    let deep = levels(&points, 6);
    for (a, b) in shallow.iter().zip(deep.iter()) {
        if *a < 3 {
            assert_eq!(a, b);
        } else {
            assert!(*b >= 3);
        }
    }
}
