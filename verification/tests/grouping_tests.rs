use rustweek_anims::grouping::{
    assign_grid_in_order, group_by_strip, group_by_xy, place_in_cells, STRIP_ROW_SLOTS,
};
use rustweek_anims::layout::{pack_xy, Target, TileState, CUT_SCALE_PCT, PLACED_SCALE_PCT};
use rustweek_anims::order::stable_order;

fn tile(x: u16, y: u16, target: Target) -> TileState {
    TileState { xy: pack_xy(x, y), target, target_scale_pct: CUT_SCALE_PCT }
}

fn keys(tiles: &Vec<TileState>) -> Vec<u32> {
    tiles.iter().map(|t| t.xy).collect()
}

#[test]
fn grid_follows_sorted_order() {
    let mut tiles = vec![
        tile(5, 1, Target::Grid { col: 0, row: 0 }),
        tile(2, 0, Target::Grid { col: 1, row: 0 }),
        tile(3, 1, Target::Grid { col: 2, row: 0 }),
    ];
    let perm = stable_order(&keys(&tiles));
    assert_eq!(perm, vec![1, 2, 0]);
    assign_grid_in_order(&mut tiles, &perm);
    assert_eq!(tiles[1].target, Target::Grid { col: 0, row: 0 });
    assert_eq!(tiles[2].target, Target::Grid { col: 1, row: 0 });
    assert_eq!(tiles[0].target, Target::Grid { col: 2, row: 0 });
    assert_eq!(tiles[0].target_scale_pct, CUT_SCALE_PCT);
}

#[test]
fn grouping_sends_equal_cells_to_first_of_run() {
    let mut tiles = vec![
        tile(4, 0, Target::Grid { col: 0, row: 0 }),
        tile(1, 0, Target::Grid { col: 1, row: 0 }),
        tile(4, 0, Target::Grid { col: 2, row: 0 }),
        tile(1, 0, Target::Grid { col: 3, row: 0 }),
        tile(4, 0, Target::Grid { col: 4, row: 0 }),
        tile(2, 0, Target::Grid { col: 5, row: 0 }),
    ];
    let perm = stable_order(&keys(&tiles));
    assert_eq!(perm, vec![1, 3, 5, 0, 2, 4]);
    group_by_xy(&mut tiles, &perm);
    assert_eq!(tiles[1].target, Target::Grid { col: 1, row: 0 });
    assert_eq!(tiles[3].target, Target::Grid { col: 1, row: 0 });
    assert_eq!(tiles[5].target, Target::Grid { col: 5, row: 0 });
    assert_eq!(tiles[0].target, Target::Grid { col: 0, row: 0 });
    assert_eq!(tiles[2].target, Target::Grid { col: 0, row: 0 });
    assert_eq!(tiles[4].target, Target::Grid { col: 0, row: 0 });
    for a in 0..tiles.len() {
        for b in 0..tiles.len() {
            if tiles[a].xy == tiles[b].xy {
                assert_eq!(tiles[a].target, tiles[b].target);
            }
        }
    }
}

#[test]
fn strips_lay_out_runs_of_adjacent_cells() {
    // keys 0, 1, 1, 2 form one strip of three columns; 5 and 100 stand alone.
    let g = Target::Grid { col: 0, row: 0 };
    let mut tiles = vec![tile(100, 0, g), tile(1, 0, g), tile(0, 0, g), tile(5, 0, g), tile(1, 0, g), tile(2, 0, g)];
    let perm = stable_order(&keys(&tiles));
    assert_eq!(perm, vec![2, 1, 4, 5, 3, 0]);
    group_by_strip(&mut tiles, &perm);
    assert_eq!(tiles[2].target, Target::Strip { col: 0, row: 0 });
    assert_eq!(tiles[1].target, Target::Strip { col: 1, row: 0 });
    assert_eq!(tiles[4].target, Target::Strip { col: 1, row: 0 });
    assert_eq!(tiles[5].target, Target::Strip { col: 2, row: 0 });
    assert_eq!(tiles[3].target, Target::Strip { col: 4, row: 0 });
    assert_eq!(tiles[0].target, Target::Strip { col: 6, row: 0 });
    assert!(tiles.iter().all(|t| t.target_scale_pct == PLACED_SCALE_PCT));
}

#[test]
fn strips_wrap_to_next_row() {
    // Eight single-cell strips take columns 0, 2, 4, ..., 14; the ninth
    // would need slots 16 and 17 and starts row 1.
    assert_eq!(STRIP_ROW_SLOTS, 16);
    let g = Target::Grid { col: 0, row: 0 };
    let mut tiles: Vec<TileState> = (0..9u16).map(|k| tile(3 * k, 0, g)).collect();
    let perm = stable_order(&keys(&tiles));
    group_by_strip(&mut tiles, &perm);
    let cols: Vec<Target> = tiles.iter().map(|t| t.target).collect();
    assert_eq!(
        cols,
        vec![
            Target::Strip { col: 0, row: 0 },
            Target::Strip { col: 2, row: 0 },
            Target::Strip { col: 4, row: 0 },
            Target::Strip { col: 6, row: 0 },
            Target::Strip { col: 8, row: 0 },
            Target::Strip { col: 10, row: 0 },
            Target::Strip { col: 12, row: 0 },
            Target::Strip { col: 14, row: 0 },
            Target::Strip { col: 0, row: 1 },
        ]
    );
}

#[test]
fn wide_strip_at_row_start_does_not_wrap() {
    // A strip of 20 adjacent cells at the start of a row stays on the row.
    let g = Target::Grid { col: 0, row: 0 };
    let mut tiles: Vec<TileState> = (0..20u16).map(|k| tile(k, 3, g)).collect();
    tiles.push(tile(40, 3, g));
    let perm = stable_order(&keys(&tiles));
    group_by_strip(&mut tiles, &perm);
    assert_eq!(tiles[19].target, Target::Strip { col: 19, row: 0 });
    assert_eq!(tiles[20].target, Target::Strip { col: 0, row: 1 });
}

#[test]
fn distinct_cells_never_share_a_strip_slot() {
    let g = Target::Grid { col: 0, row: 0 };
    let coords: Vec<(u16, u16)> = vec![(0, 0), (1, 0), (3, 0), (4, 0), (4, 0), (9, 0), (0, 1), (1, 1), (2, 1), (3, 1), (4, 1), (5, 1), (6, 1), (7, 1), (20, 1), (21, 1)];
    let mut tiles: Vec<TileState> = coords.iter().map(|&(x, y)| tile(x, y, g)).collect();
    let perm = stable_order(&keys(&tiles));
    group_by_strip(&mut tiles, &perm);
    for a in 0..tiles.len() {
        for b in 0..tiles.len() {
            assert_eq!(tiles[a].xy == tiles[b].xy, tiles[a].target == tiles[b].target);
        }
    }
}

#[test]
fn cells_come_back_from_keys() {
    let g = Target::Grid { col: 0, row: 0 };
    let mut tiles = vec![tile(7, 2, g), tile(0, 0, g), tile(47, 59, g)];
    place_in_cells(&mut tiles);
    assert_eq!(tiles[0].target, Target::Cell { x: 7, y: 2 });
    assert_eq!(tiles[1].target, Target::Cell { x: 0, y: 0 });
    assert_eq!(tiles[2].target, Target::Cell { x: 47, y: 59 });
    assert!(tiles.iter().all(|t| t.target_scale_pct == PLACED_SCALE_PCT));
}
