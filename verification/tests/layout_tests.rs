use rustweek_anims::layout::{
    grid_cell, pack_xy, segment_index, unpack_xy, x_range, Target, GRID_WIDE, ROTATED_SEGMENTS,
};

#[test]
fn pack_puts_row_above_column() {
    assert_eq!(pack_xy(3, 2), 0x0002_0003);
    assert_eq!(pack_xy(0, 0), 0);
    assert_eq!(pack_xy(0xffff, 0xffff), 0xffff_ffff);
}

#[test]
fn unpack_gives_back_coordinates() {
    for &(x, y) in &[(0u16, 0u16), (7, 2), (47, 59), (0xffff, 1), (1, 0xffff)] {
        assert_eq!(unpack_xy(pack_xy(x, y)), (x as u32, y as u32));
    }
    assert_eq!(unpack_xy(0x0002_0007), (7, 2));
}

#[test]
fn keys_order_row_major() {
    assert!(pack_xy(47, 1) < pack_xy(0, 2));
    assert!(pack_xy(3, 2) < pack_xy(4, 2));
}

#[test]
fn grid_cells_fill_rows_of_eight() {
    assert_eq!(GRID_WIDE, 8);
    assert_eq!(grid_cell(0), Target::Grid { col: 0, row: 0 });
    assert_eq!(grid_cell(7), Target::Grid { col: 7, row: 0 });
    assert_eq!(grid_cell(8), Target::Grid { col: 0, row: 1 });
    assert_eq!(grid_cell(19), Target::Grid { col: 3, row: 2 });
}

#[test]
fn walk_starts_at_segment_five() {
    assert_eq!(segment_index(0), 5);
    assert_eq!(segment_index(17), 22);
    assert_eq!(segment_index(18), 0);
    assert_eq!(segment_index(22), 4);
    assert_eq!(segment_index(23), 23);
    assert_eq!(segment_index(40), 40);
}

#[test]
fn walk_visits_each_rotated_segment_once() {
    let mut seen = vec![false; ROTATED_SEGMENTS];
    for s in 0..ROTATED_SEGMENTS {
        let ix = segment_index(s);
        assert!(ix < ROTATED_SEGMENTS);
        assert!(!seen[ix]);
        seen[ix] = true;
    }
    assert!(seen.iter().all(|b| *b));
}

#[test]
fn x_range_finds_extremes() {
    assert_eq!(x_range(&vec![5, 2, 9, 4]), (2, 9));
    assert_eq!(x_range(&vec![7]), (7, 7));
    assert_eq!(x_range(&vec![3, 3, 3]), (3, 3));
}
