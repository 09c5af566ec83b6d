use jigshuffle::{
    Config, ConfigBuilder, Grid, Mode, ShuffleError, collect_blocks, copy_block, floor_log2,
    jigshuffle, mask_to_levels, relocate_level,
};
use rand_xoshiro::Xoshiro256StarStar;
use rand_xoshiro::rand_core::SeedableRng;

fn grid_of(rows: usize, cols: usize, data: Vec<i32>) -> Grid<i32> {
    assert_eq!(data.len(), rows * cols);
    Grid::from_vec(rows, cols, data)
}

fn mask_of(rows: usize, cols: usize, data: Vec<bool>) -> Grid<bool> {
    assert_eq!(data.len(), rows * cols);
    Grid::from_vec(rows, cols, data)
}

fn iota_grid(rows: usize, cols: usize) -> Grid<i32> {
    let data: Vec<i32> = (0..(rows * cols) as i32).collect();
    grid_of(rows, cols, data)
}

fn all_eligible(rows: usize, cols: usize) -> Grid<bool> {
    mask_of(rows, cols, vec![false; rows * cols])
}

fn all_excluded(rows: usize, cols: usize) -> Grid<bool> {
    mask_of(rows, cols, vec![true; rows * cols])
}

#[test]
fn builder_defaults() {
    let config = ConfigBuilder::new().build();
    assert_eq!(config.chunk_po2, 0);
    assert!(!config.flip);
    assert!(!config.rotate);
}

#[test]
fn builder_sets_fields() {
    let config = ConfigBuilder::new().chunk_po2(5).flip(true).rotate(true).build();
    assert_eq!(config.chunk_po2, 5);
    assert!(config.flip);
    assert!(config.rotate);
}

#[test]
fn builder_chunk_rounds_down() {
    assert_eq!(ConfigBuilder::new().chunk(1).build().chunk_po2, 0);
    assert_eq!(ConfigBuilder::new().chunk(2).build().chunk_po2, 1);
    assert_eq!(ConfigBuilder::new().chunk(10).build().chunk_po2, 3);
    assert_eq!(ConfigBuilder::new().chunk(16).build().chunk_po2, 4);
    assert_eq!(ConfigBuilder::new().chunk(u64::MAX).build().chunk_po2, 63);
}

#[test]
fn floor_log2_exact_values() {
    assert_eq!(floor_log2(1), 0);
    assert_eq!(floor_log2(2), 1);
    assert_eq!(floor_log2(3), 1);
    assert_eq!(floor_log2(4), 2);
    assert_eq!(floor_log2(255), 7);
    assert_eq!(floor_log2(256), 8);
    assert_eq!(floor_log2(u64::MAX), 63);
}

#[test]
fn shape_mismatch_is_rejected() {
    let arr = iota_grid(4, 4);
    let mask = all_eligible(3, 3);
    let config = ConfigBuilder::new().chunk_po2(1).build();
    let mut random = Xoshiro256StarStar::seed_from_u64(1);
    let result = jigshuffle(&arr, &mask, &config, &mut random);
    assert_eq!(result.unwrap_err(), ShuffleError::ShapeMismatch);
}

#[test]
fn oversized_level_is_rejected() {
    let arr = iota_grid(4, 4);
    let mask = all_eligible(4, 4);
    let config = Config { chunk_po2: 64, flip: false, rotate: false };
    let mut random = Xoshiro256StarStar::seed_from_u64(1);
    let result = jigshuffle(&arr, &mask, &config, &mut random);
    assert_eq!(result.unwrap_err(), ShuffleError::LevelTooLarge);
}

#[test]
fn fully_excluded_mask_is_identity() {
    let arr = iota_grid(4, 4);
    let mask = all_excluded(4, 4);
    let config = ConfigBuilder::new().chunk_po2(2).flip(true).rotate(true).build();
    let mut random = Xoshiro256StarStar::seed_from_u64(7);
    let out = jigshuffle(&arr, &mask, &config, &mut random).unwrap();
    assert_eq!(out.data, arr.data);
}

#[test]
fn mask_reduction_merges_full_grid() {
    let mask = all_eligible(4, 4);
    let levels = mask_to_levels(&mask, 2);
    // A fully eligible 4x4 grid collapses to a single block of side 4.
    for r in 0..4usize {
        for c in 0..4usize {
            let expected = if r == 0 && c == 0 { 4 } else { 0 };
            assert_eq!(levels.get(r, c), expected);
        }
    }
}

#[test]
fn mask_reduction_respects_level_cap() {
    let mask = all_eligible(4, 4);
    let levels = mask_to_levels(&mask, 1);
    // Capped at side 2: four blocks of side 2 at the even origins.
    for r in 0..4usize {
        for c in 0..4usize {
            let expected = if r % 2 == 0 && c % 2 == 0 { 2 } else { 0 };
            assert_eq!(levels.get(r, c), expected);
        }
    }
}

#[test]
fn mask_reduction_keeps_unmergeable_singles() {
    // One excluded corner stops the 2x2 merge; the other three cells stay
    // single-cell blocks.
    let mask = mask_of(2, 2, vec![true, false, false, false]);
    let levels = mask_to_levels(&mask, 1);
    assert_eq!(levels.get(0, 0), 0);
    assert_eq!(levels.get(0, 1), 1);
    assert_eq!(levels.get(1, 0), 1);
    assert_eq!(levels.get(1, 1), 1);
}

#[test]
fn mask_reduction_mixed_levels() {
    // 4x4 with the top-left 2x2 fully eligible, the rest excluded except one
    // lone cell: one side-2 block and one side-1 block.
    let mut cells = vec![true; 16];
    cells[0] = false;
    cells[1] = false;
    cells[4] = false;
    cells[5] = false;
    cells[15] = false;
    let mask = mask_of(4, 4, cells);
    let levels = mask_to_levels(&mask, 2);
    assert_eq!(levels.get(0, 0), 2);
    assert_eq!(levels.get(0, 1), 0);
    assert_eq!(levels.get(1, 0), 0);
    assert_eq!(levels.get(1, 1), 0);
    assert_eq!(levels.get(3, 3), 1);
    assert_eq!(levels.get(2, 2), 0);
}

#[test]
fn collect_blocks_row_major() {
    let mask = all_eligible(4, 4);
    let levels = mask_to_levels(&mask, 1);
    let blocks = collect_blocks(&levels, 1);
    assert_eq!(blocks, vec![(0, 0), (0, 2), (2, 0), (2, 2)]);
    let singles = collect_blocks(&levels, 0);
    assert!(singles.is_empty());
}

#[test]
fn transform_noop_matches_reference() {
    let arr = grid_of(2, 2, vec![0, 1, 2, 3]);
    let mut out = grid_of(2, 2, vec![9, 9, 9, 9]);
    copy_block(&arr, &mut out, 0, 0, 0, 0, 2, Mode::Noop);
    assert_eq!(out.data, vec![0, 1, 2, 3]);
}

#[test]
fn transform_flip_x_matches_reference() {
    let arr = grid_of(2, 2, vec![0, 1, 2, 3]);
    let mut out = grid_of(2, 2, vec![9, 9, 9, 9]);
    copy_block(&arr, &mut out, 0, 0, 0, 0, 2, Mode::FlipX);
    // Columns mirrored.
    assert_eq!(out.data, vec![1, 0, 3, 2]);
}

#[test]
fn transform_flip_y_matches_reference() {
    let arr = grid_of(2, 2, vec![0, 1, 2, 3]);
    let mut out = grid_of(2, 2, vec![9, 9, 9, 9]);
    copy_block(&arr, &mut out, 0, 0, 0, 0, 2, Mode::FlipY);
    // Rows mirrored.
    assert_eq!(out.data, vec![2, 3, 0, 1]);
}

#[test]
fn transform_flip_both_matches_reference() {
    let arr = grid_of(2, 2, vec![0, 1, 2, 3]);
    let mut out = grid_of(2, 2, vec![9, 9, 9, 9]);
    copy_block(&arr, &mut out, 0, 0, 0, 0, 2, Mode::FlipBoth);
    assert_eq!(out.data, vec![3, 2, 1, 0]);
}

#[test]
fn transform_swap_matches_reference() {
    let arr = grid_of(2, 2, vec![0, 1, 2, 3]);
    let mut out = grid_of(2, 2, vec![9, 9, 9, 9]);
    copy_block(&arr, &mut out, 0, 0, 0, 0, 2, Mode::Swap);
    // Transposed.
    assert_eq!(out.data, vec![0, 2, 1, 3]);
}

#[test]
fn transform_larger_flip_x() {
    // A 4x4 block under FlipX against a hand-mirrored reference.
    let arr = iota_grid(4, 4);
    let mut out = iota_grid(4, 4);
    copy_block(&arr, &mut out, 0, 0, 0, 0, 4, Mode::FlipX);
    let expected: Vec<i32> = vec![3, 2, 1, 0, 7, 6, 5, 4, 11, 10, 9, 8, 15, 14, 13, 12];
    assert_eq!(out.data, expected);
}

#[test]
fn reversed_permutation_swaps_blocks_corner_to_corner() {
    // 4x4 payload 0..15 row-major, all eligible, blocks of side 2, no
    // transforms, and a permutation that reverses the collection order:
    // each 2x2 block's content lands at the diagonally opposite origin.
    let arr = iota_grid(4, 4);
    let mask = all_eligible(4, 4);
    let levels = mask_to_levels(&mask, 1);
    let blocks = collect_blocks(&levels, 1);
    assert_eq!(blocks, vec![(0, 0), (0, 2), (2, 0), (2, 2)]);
    let mut out = arr.duplicate();
    let perm: Vec<usize> = vec![3, 2, 1, 0];
    let modes = vec![Mode::Noop; 4];
    relocate_level(&arr, &mut out, &blocks, 2, &perm, &modes);
    let expected: Vec<i32> = vec![10, 11, 8, 9, 14, 15, 12, 13, 2, 3, 0, 1, 6, 7, 4, 5];
    assert_eq!(out.data, expected);
}

fn sorted(v: &[i32]) -> Vec<i32> {
    let mut s = v.to_vec();
    s.sort();
    s
}

#[test]
fn conservation_all_eligible() {
    let arr = iota_grid(8, 8);
    let mask = all_eligible(8, 8);
    let config = ConfigBuilder::new().chunk_po2(2).flip(true).rotate(true).build();
    let mut random = Xoshiro256StarStar::seed_from_u64(42);
    let out = jigshuffle(&arr, &mask, &config, &mut random).unwrap();
    assert_eq!(sorted(&out.data), sorted(&arr.data));
}

#[test]
fn conservation_with_partial_mask() {
    let arr = iota_grid(8, 8);
    let mut cells = vec![false; 64];
    // Exclude an irregular set of cells.
    for (i, cell) in cells.iter_mut().enumerate() {
        if i % 5 == 0 || i / 8 == 3 {
            *cell = true;
        }
    }
    let mask = mask_of(8, 8, cells.clone());
    let config = ConfigBuilder::new().chunk_po2(3).flip(true).build();
    let mut random = Xoshiro256StarStar::seed_from_u64(9);
    let out = jigshuffle(&arr, &mask, &config, &mut random).unwrap();
    assert_eq!(sorted(&out.data), sorted(&arr.data));
    // Excluded cells keep their places.
    for r in 0..8usize {
        for c in 0..8usize {
            if cells[r * 8 + c] {
                assert_eq!(out.get(r, c), arr.get(r, c), "cell ({r}, {c}) was excluded");
            }
        }
    }
}

#[test]
fn reproducibility_same_seed_same_output() {
    let arr = iota_grid(16, 16);
    let mask = all_eligible(16, 16);
    let config = ConfigBuilder::new().chunk_po2(2).flip(true).rotate(true).build();
    let mut r1 = Xoshiro256StarStar::seed_from_u64(1234);
    let mut r2 = Xoshiro256StarStar::seed_from_u64(1234);
    let out1 = jigshuffle(&arr, &mask, &config, &mut r1).unwrap();
    let out2 = jigshuffle(&arr, &mask, &config, &mut r2).unwrap();
    assert_eq!(out1.data, out2.data);
}

#[test]
fn shuffle_actually_moves_content() {
    // With 64 blocks in play, a fixed seed is overwhelmingly unlikely to
    // draw the identity permutation everywhere; this exercises the random
    // draws end to end.
    let arr = iota_grid(16, 16);
    let mask = all_eligible(16, 16);
    let config = ConfigBuilder::new().chunk_po2(1).build();
    let mut random = Xoshiro256StarStar::seed_from_u64(2024);
    let out = jigshuffle(&arr, &mask, &config, &mut random).unwrap();
    assert_ne!(out.data, arr.data);
    assert_eq!(sorted(&out.data), sorted(&arr.data));
}

#[test]
fn identity_config_moves_blocks_whole() {
    // Without flips or rotations each 2x2 block must appear translated
    // somewhere, its interior order intact.
    let arr = iota_grid(4, 4);
    let mask = all_eligible(4, 4);
    let config = ConfigBuilder::new().chunk_po2(1).build();
    let mut random = Xoshiro256StarStar::seed_from_u64(5);
    let out = jigshuffle(&arr, &mask, &config, &mut random).unwrap();
    // Each source block must be found, untransformed, at one of the four
    // origins.
    let origins = [(0usize, 0usize), (0, 2), (2, 0), (2, 2)];
    for &(sr, sc) in origins.iter() {
        let mut found = 0;
        for &(br, bc) in origins.iter() {
            let translated = (0..2).all(|dr| {
                (0..2).all(|dc| out.get(br + dr, bc + dc) == arr.get(sr + dr, sc + dc))
            });
            if translated {
                found += 1;
            }
        }
        assert!(found >= 1, "block at ({sr}, {sc}) was not moved whole");
    }
}

#[test]
fn single_cell_blocks_shuffle() {
    // Level 0 only: single cells are permuted, nothing is transformed.
    let arr = iota_grid(3, 3);
    let mask = all_eligible(3, 3);
    let config = ConfigBuilder::new().chunk_po2(0).build();
    let mut random = Xoshiro256StarStar::seed_from_u64(77);
    let out = jigshuffle(&arr, &mask, &config, &mut random).unwrap();
    assert_eq!(sorted(&out.data), sorted(&arr.data));
}

#[test]
fn empty_grid_shuffles_to_empty() {
    let arr: Grid<i32> = Grid::from_vec(0, 0, Vec::new());
    let mask: Grid<bool> = Grid::from_vec(0, 0, Vec::new());
    let config = ConfigBuilder::new().chunk_po2(3).build();
    let mut random = Xoshiro256StarStar::seed_from_u64(0);
    let out = jigshuffle(&arr, &mask, &config, &mut random).unwrap();
    assert!(out.data.is_empty());
}

#[test]
fn conservation_rotate_only() {
    let arr = iota_grid(8, 8);
    let mask = all_eligible(8, 8);
    let config = ConfigBuilder::new().chunk_po2(3).rotate(true).build();
    let mut random = Xoshiro256StarStar::seed_from_u64(11);
    let out = jigshuffle(&arr, &mask, &config, &mut random).unwrap();
    assert_eq!(sorted(&out.data), sorted(&arr.data));
}

#[test]
fn non_square_grid_reduces_and_shuffles() {
    // A 4x2 grid can only form blocks up to side 2.
    let mask = all_eligible(4, 2);
    let levels = mask_to_levels(&mask, 3);
    for r in 0..4usize {
        for c in 0..2usize {
            let expected = if r % 2 == 0 && c == 0 { 2 } else { 0 };
            assert_eq!(levels.get(r, c), expected);
        }
    }
    let arr = iota_grid(4, 2);
    let config = ConfigBuilder::new().chunk_po2(3).flip(true).build();
    let mut random = Xoshiro256StarStar::seed_from_u64(13);
    let out = jigshuffle(&arr, &mask, &config, &mut random).unwrap();
    assert_eq!(sorted(&out.data), sorted(&arr.data));
}

#[test]
fn single_eligible_cell_stays() {
    // A lone eligible cell forms a 1x1 block; permuting one block is a
    // no-op, so the output equals the input.
    let arr = iota_grid(4, 4);
    let mut cells = vec![true; 16];
    cells[5] = false;
    let mask = mask_of(4, 4, cells);
    let config = ConfigBuilder::new().chunk_po2(2).flip(true).rotate(true).build();
    let mut random = Xoshiro256StarStar::seed_from_u64(3);
    let out = jigshuffle(&arr, &mask, &config, &mut random).unwrap();
    assert_eq!(out.data, arr.data);
}
