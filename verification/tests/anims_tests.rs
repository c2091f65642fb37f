use rustweek_anims::anims::{Anims, Backdrop, Frame, TileDraw, ALL_ALPHAS};
use rustweek_anims::layout::{pack_xy, Target, CUT_SCALE_PCT, PLACED_SCALE_PCT};
use rustweek_anims::stage::{Phase, Progress};

fn frame(advance: bool, seg: usize, cut: Vec<(u16, u16)>) -> Frame {
    Frame { advance, seg, n_segs: 30, alpha_step: 0, cut }
}

fn idle() -> Frame {
    frame(false, 100, vec![])
}

fn press() -> Frame {
    frame(true, 100, vec![])
}

/// A deck advanced to the walk slide.
fn at_walk() -> Anims {
    let mut a = Anims::new();
    for _ in 0..3 {
        a.render(&press());
    }
    assert_eq!(a.progress, Progress::RPath);
    a
}

#[test]
fn new_deck_starts_at_outline() {
    let a = Anims::new();
    assert_eq!(a.progress, Progress::Original);
    assert_eq!(a.phase, Phase::Initial);
    assert!(a.tiles.is_empty());
    assert_eq!(a.segments_done, 0);
    assert_eq!(a.this_seg_start, 0);
}

#[test]
fn outline_slides_draw_no_tiles() {
    let mut a = Anims::new();
    let d = a.render(&idle());
    assert_eq!(d.backdrop, Backdrop::Outline);
    assert!(d.tiles.is_empty());
    assert_eq!(a.progress, Progress::Original);
    let d = a.render(&press());
    assert_eq!(d.backdrop, Backdrop::Outline);
    assert_eq!(a.progress, Progress::Flat);
    let d = a.render(&press());
    assert_eq!(d.backdrop, Backdrop::Flattened { grid: false });
    assert_eq!(a.progress, Progress::FlatGrid);
    let d = a.render(&press());
    assert_eq!(d.backdrop, Backdrop::Flattened { grid: true });
    assert_eq!(a.progress, Progress::RPath);
}

#[test]
fn frames_without_advance_keep_slide() {
    let mut a = Anims::new();
    for _ in 0..5 {
        a.render(&idle());
    }
    assert_eq!(a.progress, Progress::Original);
}

#[test]
fn walk_cuts_each_segment_once() {
    let mut a = at_walk();
    let f = frame(false, 0, vec![(3, 4), (4, 4)]);
    assert_eq!(a.highlight(&f), Some(5));
    let d = a.render(&f);
    assert_eq!(d.backdrop, Backdrop::Walk { highlight: Some(5) });
    assert_eq!(d.added, 2);
    assert_eq!(a.segments_done, 1);
    assert_eq!(a.this_seg_start, 0);
    assert_eq!(a.tiles.len(), 2);
    assert_eq!(a.tiles[0].xy, pack_xy(3, 4));
    assert_eq!(a.tiles[1].target, Target::Grid { col: 1, row: 0 });
    assert_eq!(a.tiles[1].target_scale_pct, CUT_SCALE_PCT);
    // the same step again highlights but does not cut
    let d = a.render(&frame(false, 0, vec![(3, 4), (4, 4)]));
    assert_eq!(d.added, 0);
    assert_eq!(a.tiles.len(), 2);
    // the next step cuts a new segment; the earlier tiles tick, the new do not
    let d = a.render(&frame(false, 1, vec![(5, 4)]));
    assert_eq!(d.added, 1);
    assert_eq!(a.this_seg_start, 2);
    assert_eq!(a.tiles[2].target, Target::Grid { col: 2, row: 0 });
    assert_eq!(
        d.tiles,
        vec![
            TileDraw { alphas: false, line_late: false, tick: true },
            TileDraw { alphas: false, line_late: false, tick: true },
            TileDraw { alphas: false, line_late: false, tick: false },
        ]
    );
    // past the last segment nothing is highlighted and every tile ticks
    let d = a.render(&frame(false, 30, vec![]));
    assert_eq!(d.backdrop, Backdrop::Walk { highlight: None });
    assert_eq!(a.this_seg_start, 3);
    assert!(d.tiles.iter().all(|t| t.tick));
}

#[test]
fn skipped_steps_are_not_cut() {
    let mut a = at_walk();
    let d = a.render(&frame(false, 3, vec![(1, 1)]));
    assert_eq!(d.backdrop, Backdrop::Walk { highlight: Some(8) });
    assert_eq!(d.added, 0);
    assert!(a.tiles.is_empty());
}

#[test]
fn whole_talk() {
    let mut a = at_walk();
    a.render(&frame(false, 0, vec![(4, 1), (2, 1)]));
    a.render(&frame(false, 1, vec![(3, 1), (2, 1)]));
    a.render(&frame(false, 2, vec![(9, 0)]));
    assert_eq!(a.tiles.len(), 5);
    // sort: keys (9,0) < (2,1) = (2,1) < (3,1) < (4,1)
    a.render(&press());
    assert_eq!(a.phase, Phase::Sorted);
    assert_eq!(a.perm, vec![4, 1, 3, 2, 0]);
    assert_eq!(a.tiles[4].target, Target::Grid { col: 0, row: 0 });
    assert_eq!(a.tiles[1].target, Target::Grid { col: 1, row: 0 });
    assert_eq!(a.tiles[3].target, Target::Grid { col: 2, row: 0 });
    assert_eq!(a.tiles[0].target, Target::Grid { col: 4, row: 0 });
    // group: the second (2, 1) joins the first
    a.render(&press());
    assert_eq!(a.phase, Phase::Grouped);
    assert_eq!(a.tiles[3].target, Target::Grid { col: 1, row: 0 });
    // invert
    let d = a.render(&press());
    assert!(d.tiles.iter().all(|t| t.line_late && !t.alphas));
    assert_eq!(a.phase, Phase::GroupedAlpha);
    assert_eq!(a.inv_perm, vec![4, 1, 3, 2, 0]);
    // alphas appear in sorted order as the threshold grows
    let d = a.render(&Frame { advance: false, seg: 100, n_segs: 30, alpha_step: 2, cut: vec![] });
    let alphas: Vec<bool> = d.tiles.iter().map(|t| t.alphas).collect();
    assert_eq!(alphas, vec![false, true, false, false, true]);
    // strips
    a.render(&press());
    assert_eq!(a.progress, Progress::StripGroup);
    let d = a.render(&idle());
    assert_eq!(d.backdrop, Backdrop::Bare);
    assert_eq!(a.phase, Phase::StripGroup);
    assert!(d.tiles.iter().all(|t| t.alphas));
    // (9, 0) stands alone; (2, 1), (3, 1), (4, 1) form a strip after a gap
    assert_eq!(a.tiles[4].target, Target::Strip { col: 0, row: 0 });
    assert_eq!(a.tiles[1].target, Target::Strip { col: 2, row: 0 });
    assert_eq!(a.tiles[3].target, Target::Strip { col: 2, row: 0 });
    assert_eq!(a.tiles[2].target, Target::Strip { col: 3, row: 0 });
    assert_eq!(a.tiles[0].target, Target::Strip { col: 4, row: 0 });
    // home
    a.render(&press());
    assert_eq!(a.progress, Progress::Strips);
    a.render(&idle());
    assert_eq!(a.phase, Phase::Strips);
    assert_eq!(a.tiles[0].target, Target::Cell { x: 4, y: 1 });
    assert_eq!(a.tiles[4].target, Target::Cell { x: 9, y: 0 });
    assert!(a.tiles.iter().all(|t| t.target_scale_pct == PLACED_SCALE_PCT));
    // the end rests
    a.render(&press());
    assert_eq!((a.progress, a.phase), (Progress::Strips, Phase::Strips));
    assert_eq!(ALL_ALPHAS, 1000);
}

#[test]
fn eight_advances_reach_last_slide() {
    let mut a = Anims::new();
    let mut seen = vec![];
    for k in 0..9 {
        if k == 3 {
            // grouping needs at least one tile
            a.render(&frame(false, 0, vec![(1, 1)]));
        }
        a.render(&press());
        seen.push((a.progress, a.phase));
    }
    assert_eq!(
        seen,
        vec![
            (Progress::Flat, Phase::Initial),
            (Progress::FlatGrid, Phase::Initial),
            (Progress::RPath, Phase::Initial),
            (Progress::RPath, Phase::Sorted),
            (Progress::RPath, Phase::Grouped),
            (Progress::RPath, Phase::GroupedAlpha),
            (Progress::StripGroup, Phase::GroupedAlpha),
            (Progress::Strips, Phase::StripGroup),
            (Progress::Strips, Phase::Strips),
        ]
    );
}
