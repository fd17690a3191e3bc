use hydrology::grid::filled_grid;
use hydrology::render::paint_distances;
use hydrology::rivers::{river_distance_field, river_distances, river_mask};
use hydrology::shore::{record_start, shore_depth_within_limit, shore_distances};
use std::collections::HashMap;

/// A `w` by `h` map with a one-cell water border and land inside.
fn island(w: usize, h: usize) -> Vec<Vec<u8>> {
    let mut g = filled_grid(w, h, 0u8);
    for x in 1..w - 1 {
        for y in 1..h - 1 {
            g[x][y] = 255;
        }
    }
    g
}

#[test]
fn small_island_distances() {
    let mut g = island(5, 5);
    assert!(shore_depth_within_limit(&g, 5, 5));
    let starts = shore_distances(&mut g, 5, 5);
    assert!(starts.is_empty());
    for x in 0..5 {
        for y in 0..5 {
            let border = x == 0 || y == 0 || x == 4 || y == 4;
            if border {
                assert_eq!(g[x][y], 0);
            } else if x == 2 && y == 2 {
                assert!(g[x][y] == 2 || g[x][y] == 3);
            } else {
                assert!(g[x][y] == 1 || g[x][y] == 2);
            }
        }
    }
    // The first shore cell visited passes distance 2 to its two shore
    // neighbours before they are visited, so some shore cell ends at 2.
    let ring_at_two = (1..4)
        .flat_map(|x| (1..4).map(move |y| (x, y)))
        .filter(|&(x, y)| !(x == 2 && y == 2) && g[x][y] == 2)
        .count();
    assert!(ring_at_two >= 1);
}

#[test]
fn corridor_distances_are_exact() {
    // One column: water at the top, then a corridor of land.
    let mut g = filled_grid(1, 100, 255u8);
    g[0][0] = 0;
    let starts = shore_distances(&mut g, 1, 100);
    assert!(starts.is_empty());
    for y in 0..100 {
        assert_eq!(g[0][y] as usize, y);
    }
}

#[test]
fn depth_limit_detects_deep_land() {
    let mut shallow = filled_grid(1, 254, 255u8);
    shallow[0][0] = 0;
    assert!(shore_depth_within_limit(&shallow, 1, 254));
    let mut deep = filled_grid(1, 255, 255u8);
    deep[0][0] = 0;
    assert!(!shore_depth_within_limit(&deep, 1, 255));
    let all_land = filled_grid(3, 3, 255u8);
    assert!(shore_depth_within_limit(&all_land, 3, 3));
}

#[test]
fn land_without_shore_is_untouched() {
    let mut g = filled_grid(4, 4, 255u8);
    let starts = shore_distances(&mut g, 4, 4);
    assert!(starts.is_empty());
    assert!(g.iter().flatten().all(|&v| v == 255));
}

#[test]
fn starting_points_lie_inland() {
    let (w, h) = (90, 90);
    let mut g = island(w, h);
    let starts = shore_distances(&mut g, w, h);
    for (key, &(x, y)) in starts.iter() {
        assert!(x > 0 && y > 0 && x + 2 < w && y + 2 < h);
        assert_eq!(*key, (x / 10) * h + y / 10);
        assert!(g[x][y] > 35);
    }
    // The centre of the island is 44 or 45 cells from the water.
    assert!(g[45][45] >= 44 && g[45][45] <= 46);
}

#[test]
fn river_mask_values() {
    let mut land = filled_grid(3, 2, 255u8);
    land[0][0] = 0;
    land[2][1] = 0;
    let mut rivers = filled_grid(3, 2, false);
    rivers[1][0] = true;
    rivers[2][1] = true;
    let dst = river_mask(&land, &rivers, 3, 2);
    assert_eq!(dst, vec![vec![9999, 0], vec![1, 0], vec![0, 9999]]);
}

#[test]
fn river_distances_along_a_row() {
    let land = filled_grid(6, 1, 255u8);
    let mut rivers = filled_grid(6, 1, false);
    rivers[0][0] = true;
    let mut dst = river_mask(&land, &rivers, 6, 1);
    river_distances(&mut dst, &land, 6, 1);
    assert_eq!(dst, vec![vec![1], vec![2], vec![3], vec![4], vec![5], vec![6]]);
    let field = river_distance_field(&land, &rivers, 6, 1);
    assert_eq!(field, dst);
}

#[test]
fn river_distances_stop_at_water_and_cap() {
    let mut land = filled_grid(1, 300, 255u8);
    land[0][299] = 0;
    let mut rivers = filled_grid(1, 300, false);
    rivers[0][0] = true;
    let field = river_distance_field(&land, &rivers, 1, 300);
    assert_eq!(field[0][0], 1);
    assert_eq!(field[0][10], 11);
    assert_eq!(field[0][253], 254);
    assert_eq!(field[0][254], 255);
    assert_eq!(field[0][298], 255);
    assert_eq!(field[0][299], 9999);
}

#[test]
fn river_without_land_stays_unmeasured() {
    let land = filled_grid(3, 3, 255u8);
    let rivers = filled_grid(3, 3, false);
    let field = river_distance_field(&land, &rivers, 3, 3);
    assert!(field.iter().flatten().all(|&v| v == 0));
}

#[test]
fn painting_writes_grey_levels() {
    let field = vec![vec![0usize, 300], vec![17, 255]];
    let pitch = 8;
    let mut pixels = vec![1u8; 2 * pitch];
    paint_distances(&mut pixels, pitch, &field, 2, 2);
    assert_eq!(&pixels[0..3], &[0, 0, 0]);
    assert_eq!(&pixels[3..6], &[17, 17, 17]);
    assert_eq!(&pixels[6..8], &[1, 1]);
    assert_eq!(&pixels[8..11], &[255, 255, 255]);
    assert_eq!(&pixels[11..14], &[255, 255, 255]);
    assert_eq!(&pixels[14..16], &[1, 1]);
}

#[test]
fn neighbouring_distances_stay_close() {
    let (w, h) = (40, 30);
    let mut g = island(w, h);
    g[20][15] = 0;
    let _ = shore_distances(&mut g, w, h);
    for x in 1..w - 1 {
        for y in 1..h - 1 {
            if g[x][y] == 0 {
                continue;
            }
            for (nx, ny) in [(x + 1, y), (x, y + 1)] {
                if g[nx][ny] != 0 {
                    let a = g[x][y] as i32;
                    let b = g[nx][ny] as i32;
                    assert!((a - b).abs() <= 3);
                }
            }
        }
    }
}

#[test]
fn empty_grids_are_handled() {
    let mut g: Vec<Vec<u8>> = Vec::new();
    assert!(shore_depth_within_limit(&g, 0, 0));
    let starts = shore_distances(&mut g, 0, 0);
    assert!(starts.is_empty());
    let rivers: Vec<Vec<bool>> = Vec::new();
    let field = river_distance_field(&g, &rivers, 0, 0);
    assert!(field.is_empty());
    let mut pixels: Vec<u8> = Vec::new();
    paint_distances(&mut pixels, 0, &field, 0, 0);
    assert!(pixels.is_empty());
}

#[test]
fn shore_cells_that_are_not_unvisited_get_distance_one() {
    // Land marked 7 next to water is a shore cell but never unvisited land,
    // so it is visited once, at distance 1.
    let mut g = filled_grid(3, 1, 7u8);
    g[0][0] = 0;
    g[2][0] = 255;
    let _ = shore_distances(&mut g, 3, 1);
    assert_eq!(g, vec![vec![0], vec![1], vec![2]]);
}

#[test]
fn overlapping_rows_keep_the_later_write() {
    // With a pitch of 3 bytes, column 1 of row 0 and column 0 of row 1 share a
    // pixel; column 1 is painted after column 0, so its row 0 wins.
    let field = vec![vec![10usize, 20], vec![30, 400]];
    let mut pixels = vec![1u8; 9];
    paint_distances(&mut pixels, 3, &field, 2, 2);
    assert_eq!(pixels, vec![10, 10, 10, 30, 30, 30, 255, 255, 255]);
}

#[test]
fn record_start_follows_the_draw() {
    let mut starts: HashMap<usize, (usize, usize)> = HashMap::new();
    record_start(&mut starts, 12, 25, 40, 50, 40, false);
    assert!(starts.is_empty());
    record_start(&mut starts, 12, 25, 35, 50, 40, true);
    assert!(starts.is_empty());
    record_start(&mut starts, 48, 25, 40, 50, 40, true);
    assert!(starts.is_empty());
    record_start(&mut starts, 12, 25, 40, 50, 40, true);
    assert_eq!(starts.len(), 1);
    assert_eq!(starts.get(&(1 * 40 + 2)), Some(&(12, 25)));
    record_start(&mut starts, 17, 21, 90, 50, 40, true);
    assert_eq!(starts.len(), 1);
    assert_eq!(starts.get(&(1 * 40 + 2)), Some(&(17, 21)));
}
