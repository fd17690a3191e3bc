use hydrology::grid::{filled_grid, set_cell};
use hydrology::landmass::{
    automaton_step, cell_fate, clean_stragglers, count_land, generate_land, mark_land, scatter_land,
};

fn is_binary(g: &Vec<Vec<u8>>) -> bool {
    g.iter().all(|c| c.iter().all(|&v| v == 0 || v == 255))
}

#[test]
fn filled_grid_has_shape_and_value() {
    let g = filled_grid(4, 3, 7u8);
    assert_eq!(g.len(), 4);
    assert!(g.iter().all(|c| c.len() == 3 && c.iter().all(|&v| v == 7)));
    let e: Vec<Vec<u8>> = filled_grid(0, 3, 1u8);
    assert!(e.is_empty());
}

#[test]
fn set_cell_changes_one_cell() {
    let mut g = filled_grid(3, 3, 0u8);
    set_cell(&mut g, 1, 2, 9);
    assert_eq!(g[1][2], 9);
    assert_eq!(g.iter().flatten().filter(|&&v| v != 0).count(), 1);
}

#[test]
fn cell_fate_compares_with_threshold() {
    assert_eq!(cell_fate(3, 5), 0);
    assert_eq!(cell_fate(5, 5), 255);
    assert_eq!(cell_fate(9, 5), 255);
    assert_eq!(cell_fate(0, 0), 255);
}

#[test]
fn count_land_counts_nonzero_cells() {
    let mut g = filled_grid(5, 5, 0u8);
    g[0][0] = 255;
    g[1][1] = 3;
    g[4][4] = 255;
    g[2][3] = 1;
    assert_eq!(count_land(&g, 0, 5, 0, 5), 4);
    assert_eq!(count_land(&g, 0, 2, 0, 2), 2);
    assert_eq!(count_land(&g, 1, 3, 1, 4), 2);
    assert_eq!(count_land(&g, 3, 3, 0, 5), 0);
}

#[test]
fn automaton_keeps_full_land_and_water() {
    let land = filled_grid(30, 30, 255u8);
    for it in 0..=6 {
        let next = automaton_step(&land, 30, 30, it);
        assert_eq!(next.len(), 30);
        assert!(next.iter().all(|c| c.len() == 30 && c.iter().all(|&v| v == 255)));
    }
    let water = filled_grid(30, 30, 0u8);
    for it in 0..6 {
        let next = automaton_step(&water, 30, 30, it);
        assert!(next.iter().all(|c| c.iter().all(|&v| v == 0)));
    }
}

#[test]
fn automaton_output_is_binary() {
    let mut g = filled_grid(20, 20, 0u8);
    for x in 0..20 {
        for y in 0..20 {
            if (x * 7 + y * 3) % 5 == 0 {
                g[x][y] = 255;
            }
        }
    }
    let next = automaton_step(&g, 20, 20, 2);
    assert!(is_binary(&next));
}

#[test]
fn scatter_only_adds_land() {
    let mut g = filled_grid(10, 10, 0u8);
    g[3][3] = 7;
    scatter_land(&mut g, 10, 10);
    let changed: usize = g.iter().flatten().filter(|&&v| v == 255).count();
    assert!(changed >= 1 && changed <= 4 + 1);
    for x in 0..10 {
        for y in 0..10 {
            assert!(g[x][y] == 0 || g[x][y] == 255 || (x == 3 && y == 3 && g[x][y] == 7));
        }
    }
    let mut tiny = filled_grid(4, 4, 0u8);
    scatter_land(&mut tiny, 4, 4);
    assert!(tiny.iter().flatten().all(|&v| v == 0));
}

#[test]
fn stragglers_are_removed() {
    let mut g = filled_grid(6, 6, 0u8);
    g[1][1] = 255;
    g[3][3] = 255;
    g[3][4] = 255;
    g[4][3] = 255;
    g[4][4] = 255;
    clean_stragglers(&mut g, 6, 6);
    assert_eq!(g[1][1], 0);
    assert_eq!(g[3][3], 255);
    assert_eq!(g[3][4], 255);
    assert_eq!(g[4][3], 255);
    assert_eq!(g[4][4], 255);
}

#[test]
fn cleaning_sees_earlier_clears() {
    // A line of two cells: the first has one neighbour and is cleared,
    // then the second has none left and is cleared too.
    let mut g = filled_grid(3, 1, 0u8);
    g[0][0] = 255;
    g[1][0] = 255;
    clean_stragglers(&mut g, 3, 1);
    assert_eq!(g, vec![vec![0], vec![0], vec![0]]);
}

#[test]
fn generated_land_is_binary() {
    let g = generate_land(40, 30);
    assert_eq!(g.len(), 40);
    assert!(g.iter().all(|c| c.len() == 30));
    assert!(is_binary(&g));
}

#[test]
fn scatter_spreads_land() {
    let mut g = filled_grid(100, 100, 0u8);
    scatter_land(&mut g, 100, 100);
    let land = g.iter().flatten().filter(|&&v| v == 255).count();
    assert!(land > 1 && land <= 400);
}

#[test]
fn mark_land_marks_listed_points_in_the_grid() {
    let mut g = filled_grid(3, 2, 0u8);
    g[0][0] = 9;
    let points = vec![(1, 1), (5, 0), (0, 0), (2, 7), (1, 1)];
    mark_land(&mut g, &points, 3, 2);
    assert_eq!(g, vec![vec![255, 0], vec![0, 255], vec![0, 0]]);
}

#[test]
fn scatter_marks_every_point_it_draws() {
    let mut g = filled_grid(20, 15, 0u8);
    let points = scatter_land(&mut g, 20, 15);
    assert_eq!(points.len(), 20 * 15 / 25);
    for &(x, y) in &points {
        assert!(x < 20 && y < 15);
        assert_eq!(g[x][y], 255);
    }
    let land: usize = g.iter().flatten().filter(|&&v| v == 255).count();
    assert!(land >= 1 && land <= points.len());
    for x in 0..20 {
        for y in 0..15 {
            if g[x][y] == 255 {
                assert!(points.contains(&(x, y)));
            } else {
                assert_eq!(g[x][y], 0);
            }
        }
    }
}
