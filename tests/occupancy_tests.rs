use wcloud::{create_mask_skip_list, Occupancy, Point, Rect};

#[test]
fn degenerate_canvas_is_refused() {
    assert!(Occupancy::new(0, 10).is_none());
    assert!(Occupancy::new(10, 0).is_none());
    assert!(Occupancy::new(70000, 70000).is_none());
    assert!(Occupancy::new(3, 4).is_some());
}

#[test]
fn commit_then_query() {
    let mut occ = Occupancy::new(10, 10).unwrap();
    assert!(occ.query(2, 3, 4, 2));
    occ.commit(Rect { width: 4, height: 2 }, Point { x: 2, y: 3 });
    assert!(!occ.query(2, 3, 4, 2));
    assert!(!occ.query(5, 4, 1, 1));
    assert!(occ.query(6, 3, 3, 2));
    assert!(occ.query(0, 5, 9, 4));
    assert!(occ.query(0, 0, 9, 3));
    assert!(!occ.query(0, 0, 9, 4));
}

#[test]
fn commit_keeps_table_exact() {
    let mut occ = Occupancy::new(6, 5).unwrap();
    occ.commit(Rect { width: 2, height: 2 }, Point { x: 1, y: 1 });
    occ.commit(Rect { width: 3, height: 1 }, Point { x: 2, y: 3 });
    let mut expected = occ.grid.clone();
    wcloud::to_summed_area_table(&mut expected, 6, 0);
    assert_eq!(occ.table, expected);
    assert_eq!(occ.grid.iter().sum::<u32>(), 7);
    assert_eq!(occ.grid[2 * 6 + 2], 1);
    assert_eq!(occ.grid[4 * 6 + 5], 1);
}

#[test]
fn mask_seeds_occupancy() {
    let pixels = vec![255u8, 0, 0, 255, 0, 0, 0, 0, 255, 255, 255, 255];
    let occ = Occupancy::from_mask(4, 3, &pixels).unwrap();
    assert_eq!(occ.grid, vec![1, 0, 0, 1, 0, 0, 0, 0, 1, 1, 1, 1]);
    assert!(occ.query(0, 0, 3, 1));
    assert!(!occ.query(0, 0, 1, 2));
    assert!(Occupancy::from_mask(4, 3, &pixels[..11]).is_none());
}

#[test]
fn skip_list_matches_direct_scan() {
    let pixels = vec![255u8, 0, 0, 255, 0, 255, 255, 0, 255, 255, 255, 255];
    let skip = create_mask_skip_list(&pixels, 4);
    assert_eq!(skip, vec![(1, 2), (0, 3), (0, 4)]);
}
