use nanorand::{Rng, WyRand};
use wcloud::{find_space_for_rect, find_space_for_rect_masked, region_is_empty, to_summed_area_table, Point, Rect};

fn table_of(grid: &[u32], width: usize) -> Vec<u32> {
    let mut t = grid.to_vec();
    to_summed_area_table(&mut t, width, 0);
    t
}

fn brute_free(grid: &[u32], width: usize, x: usize, y: usize, w: usize, h: usize) -> bool {
    for cy in y + 1..=y + h {
        for cx in x + 1..=x + w {
            if grid[cy * width + cx] != 0 {
                return false;
            }
        }
    }
    true
}

#[test]
fn summed_area_table_values() {
    let grid = vec![1, 0, 1, 0, 1, 1, 1, 1, 0];
    let t = table_of(&grid, 3);
    assert_eq!(t, vec![1, 1, 2, 1, 2, 4, 2, 4, 6]);
}

#[test]
fn summed_area_table_from_later_row() {
    let grid = vec![1, 0, 1, 0, 1, 1, 1, 1, 0];
    let full = table_of(&grid, 3);
    let mut partial = full.clone();
    partial[3..].copy_from_slice(&grid[3..]);
    to_summed_area_table(&mut partial, 3, 1);
    assert_eq!(partial, full);
}

#[test]
fn query_matches_brute_force_scan() {
    let mut rng = WyRand::new_seed(7);
    for _ in 0..20 {
        let (w, h) = (7usize, 5usize);
        let grid: Vec<u32> = (0..w * h).map(|_| if rng.generate_range(0u32..4) == 0 { 1 } else { 0 }).collect();
        let t = table_of(&grid, w);
        for y in 0..h {
            for x in 0..w {
                for rh in 0..(h - y) {
                    for rw in 0..(w - x) {
                        assert_eq!(region_is_empty(&t, w, x, y, rw, rh), brute_free(&grid, w, x, y, rw, rh));
                    }
                }
            }
        }
    }
}

#[test]
fn region_with_one_occupied_cell() {
    let mut grid = vec![0u32; 16];
    grid[2 * 4 + 1] = 1;
    let t = table_of(&grid, 4);
    assert!(!region_is_empty(&t, 4, 0, 1, 1, 1));
    assert!(!region_is_empty(&t, 4, 0, 0, 3, 3));
    assert!(region_is_empty(&t, 4, 1, 0, 2, 3));
    assert!(region_is_empty(&t, 4, 0, 0, 3, 1));
}

#[test]
fn region_block_lies_past_the_corner() {
    let t = vec![0u32, 0, 0, 0, 1, 1, 0, 1, 1];
    assert!(!region_is_empty(&t, 3, 0, 0, 1, 1));
    assert!(region_is_empty(&t, 3, 1, 1, 1, 1));
}

#[test]
fn find_space_on_empty_canvas() {
    let t = table_of(&vec![0u32; 100], 10);
    let mut rng = WyRand::new_seed(1);
    let rect = Rect { width: 3, height: 2 };
    let p = find_space_for_rect(&t, 10, 10, &rect, &mut rng).unwrap();
    assert!(p.x < 7 && p.y < 8);
}

#[test]
fn find_space_on_full_canvas() {
    let t = table_of(&vec![1u32; 100], 10);
    let mut rng = WyRand::new_seed(1);
    let rect = Rect { width: 1, height: 1 };
    assert_eq!(find_space_for_rect(&t, 10, 10, &rect, &mut rng), None);
}

#[test]
fn find_space_single_hole() {
    let mut grid = vec![1u32; 25];
    grid[2 * 5 + 3] = 0;
    let t = table_of(&grid, 5);
    let rect = Rect { width: 1, height: 1 };
    for seed in 0..10 {
        let mut rng = WyRand::new_seed(seed);
        assert_eq!(find_space_for_rect(&t, 5, 5, &rect, &mut rng), Some(Point { x: 2, y: 1 }));
    }
}

#[test]
fn find_space_masked_respects_columns() {
    let t = table_of(&vec![0u32; 36], 6);
    let rect = Rect { width: 1, height: 1 };
    let skip = vec![(2usize, 2usize); 6];
    for seed in 0..10 {
        let mut rng = WyRand::new_seed(seed);
        let p = find_space_for_rect_masked(&t, 6, 6, &skip, &rect, &mut rng).unwrap();
        assert_eq!(p.x, 2);
    }
}
