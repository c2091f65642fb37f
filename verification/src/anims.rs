use vstd::prelude::*;
use crate::grouping::{
    assign_grid_in_order, cell_target, group_by_strip, group_by_xy, grouped_tile, keys_of, place,
    retarget, strip_layout, strip_target, keys_in_order, MAX_STRIP_TILES,
};
use crate::layout::{
    grid_cell, pack_xy, segment_index, spec_grid_cell, spec_pack_xy, spec_segment_index, TileState,
    CUT_SCALE_PCT,
};
use crate::order::{inverse, is_inverse, is_stable_order, stable_order};
use crate::stage::{Phase, Progress};

verus! {

/// Tile alpha threshold used once every tile shows its coverage.
pub const ALL_ALPHAS: usize = 1000;

/// What one frame hands to the deck: whether to advance, the step of the
/// segment walk the clock has reached, how many segments the flattened
/// outline has, the alpha threshold the clock has reached, and the tiles
/// `(x, y)` cut from the highlighted segment, if the drawing side cut any.
#[derive(Debug)]
pub struct Frame {
    pub advance: bool,
    pub seg: usize,
    pub n_segs: usize,
    pub alpha_step: usize,
    pub cut: Vec<(u16, u16)>,
}

/// What is drawn under the tiles.
#[derive(Clone, Copy, PartialEq, Eq, Structural, Debug)]
pub enum Backdrop {
    /// The outline as designed, with a dot at every segment end.
    Outline,
    /// The flattened outline with its dots, over the tile grid if `grid`.
    Flattened { grid: bool },
    /// The tile grid and the flattened outline, with segment `highlight`
    /// marked when there is one.
    Walk { highlight: Option<usize> },
    /// Nothing but the tiles.
    Bare,
}

/// How one tile is drawn in a frame: with its coverage alphas rather than a
/// plain background; with its line segment drawn in the second pass, over
/// every tile's background, rather than in the first; and whether its
/// animation advances one tick.
#[derive(Clone, Copy, PartialEq, Eq, Structural, Debug)]
pub struct TileDraw {
    pub alphas: bool,
    pub line_late: bool,
    pub tick: bool,
}

/// The drawing that a frame calls for: the backdrop, how many tiles the
/// frame cut and appended, and, for the slides that show tiles, one entry
/// per tile.
#[derive(Debug)]
pub struct FrameDraw {
    pub backdrop: Backdrop,
    pub added: usize,
    pub tiles: Vec<TileDraw>,
}

/// The state of the animation deck.
#[derive(Debug)]
pub struct Anims {
    pub segments_done: usize,
    pub tiles: Vec<TileState>,
    pub this_seg_start: usize,
    pub phase: Phase,
    pub perm: Vec<usize>,
    pub inv_perm: Vec<usize>,
    pub progress: Progress,
}

/// Progress after a frame.
pub open spec fn next_progress(progress: Progress, phase: Phase, advance: bool) -> Progress {
    match progress {
        Progress::Original => if advance { Progress::Flat } else { progress },
        Progress::Flat => if advance { Progress::FlatGrid } else { progress },
        Progress::FlatGrid => if advance { Progress::RPath } else { progress },
        Progress::RPath => if advance && phase == Phase::GroupedAlpha {
            Progress::StripGroup
        } else {
            progress
        },
        Progress::StripGroup => if advance { Progress::Strips } else { progress },
        Progress::Strips => progress,
    }
}

/// Phase after the slide's drawing, before the frame's advance is applied.
pub open spec fn drawn_phase(progress: Progress, phase: Phase) -> Phase {
    match progress {
        Progress::StripGroup => if phase.spec_rank() < 4 { Phase::StripGroup } else { phase },
        Progress::Strips => if phase.spec_rank() < 5 { Phase::Strips } else { phase },
        _ => phase,
    }
}

/// Phase after a frame.
pub open spec fn next_phase(progress: Progress, phase: Phase, advance: bool) -> Phase {
    if progress == Progress::RPath && advance {
        match phase {
            Phase::Initial => Phase::Sorted,
            Phase::Sorted => Phase::Grouped,
            Phase::Grouped => Phase::GroupedAlpha,
            _ => phase,
        }
    } else {
        drawn_phase(progress, phase)
    }
}

/// The tiles cut from a segment, appended after `start` tiles: each keyed
/// by its packed coordinates, headed to the next free cell of the
/// right-hand grid, at the cut scale.
pub open spec fn cut_tiles(start: int, cut: Seq<(u16, u16)>) -> Seq<TileState> {
    Seq::new(
        cut.len(),
        |k: int|
            TileState {
                xy: spec_pack_xy(cut[k].0, cut[k].1),
                target: spec_grid_cell(start + k),
                target_scale_pct: CUT_SCALE_PCT,
            },
    )
}

/// How tile `i` is drawn, given the phase it is drawn in, the inverse order,
/// the alpha threshold and the first tile of the newest segment.
pub open spec fn tile_draw(phase: Phase, inv: Seq<usize>, thresh: usize, start: usize, i: int) -> TileDraw {
    TileDraw {
        alphas: phase.spec_rank() >= 3 && inv[i] < thresh,
        line_late: phase.spec_rank() >= 2,
        tick: i < start,
    }
}

/// Appends the tiles cut from the current segment.
fn append_cut(tiles: &mut Vec<TileState>, cut: &Vec<(u16, u16)>)
    requires
        old(tiles).len() + cut.len() <= usize::MAX,
    ensures
        final(tiles)@ == old(tiles)@ + cut_tiles(old(tiles).len() as int, cut@),
{
    let ghost before = tiles@;
    let m = cut.len();
    let mut k: usize = 0;
    while k < m
        invariant
            k <= m,
            m == cut.len(),
            before.len() + m <= usize::MAX,
            tiles@ == before + cut_tiles(before.len() as int, cut@).subrange(0, k as int),
        decreases m - k,
    {
        let (x, y) = cut[k];
        let ix = tiles.len();
        let t = TileState { xy: pack_xy(x, y), target: grid_cell(ix), target_scale_pct: CUT_SCALE_PCT };
        tiles.push(t);
        proof {
            assert(cut_tiles(before.len() as int, cut@).subrange(0, k + 1) =~= cut_tiles(
                before.len() as int,
                cut@,
            ).subrange(0, k as int).push(t));
        }
        k += 1;
    }
    proof {
        assert(cut_tiles(before.len() as int, cut@).subrange(0, m as int) =~= cut_tiles(
            before.len() as int,
            cut@,
        ));
    }
}

impl Anims {
    /// The state is consistent: the newest segment starts within the tiles;
    /// once sorted, `perm` is the stable order of the tiles by key; once the
    /// alphas show, `inv_perm` inverts it; and slide and phase agree.
    pub open spec fn wf(&self) -> bool {
        &&& self.this_seg_start <= self.tiles.len()
        &&& self.phase.spec_rank() >= 1 ==> is_stable_order(keys_of(self.tiles@), self.perm@)
        &&& self.phase.spec_rank() >= 3 ==> is_inverse(self.perm@, self.inv_perm@)
        &&& self.progress.spec_rank() <= 2 ==> self.phase == Phase::Initial
        &&& self.progress == Progress::RPath ==> self.phase.spec_rank() <= 3
        &&& self.progress == Progress::StripGroup ==> self.phase.spec_rank() >= 3
        &&& self.progress == Progress::Strips ==> self.phase.spec_rank() >= 4
    }

    /// A frame highlights a segment: the walk is on and the clock's step
    /// names a segment of the outline.
    pub open spec fn highlights(&self, frame: &Frame) -> bool {
        &&& self.progress == Progress::RPath
        &&& self.phase == Phase::Initial
        &&& frame.seg < frame.n_segs
    }

    /// A frame cuts the highlighted segment into tiles: it is the first frame
    /// to reach this step of the walk.
    pub open spec fn cuts(&self, frame: &Frame) -> bool {
        self.highlights(frame) && frame.seg == self.segments_done
    }

    /// The tiles once the frame's cut, if any, is appended.
    pub open spec fn cut_result(&self, frame: &Frame) -> Seq<TileState> {
        if self.cuts(frame) {
            self.tiles@ + cut_tiles(self.tiles.len() as int, frame.cut@)
        } else {
            self.tiles@
        }
    }

    /// The inputs on which a frame is defined: grouping by cell needs at least
    /// one tile, the strip layout's counters must fit, and the appended tiles
    /// must be countable.
    pub open spec fn frame_ok(&self, frame: &Frame) -> bool {
        &&& !(self.progress == Progress::RPath && self.phase == Phase::Sorted && frame.advance
            && self.tiles.len() == 0)
        &&& self.progress == Progress::StripGroup ==> self.tiles.len() <= MAX_STRIP_TILES
        &&& self.cuts(frame) ==> self.tiles.len() + frame.cut.len() <= usize::MAX
    }

    /// What the walk slide does in a frame, to everything but the slide and
    /// the phase: it cuts the highlighted segment on first reaching it, marks
    /// where the newest segment's tiles begin, and on an advance sorts the
    /// tiles into the right-hand grid (from `Initial`), groups them by cell
    /// (from `Sorted`) or inverts their order (from `Grouped`).
    pub open spec fn walk_step(&self, after: &Anims, frame: &Frame, d: &FrameDraw) -> bool {
        let mid = self.cut_result(frame);
        &&& self.cuts(frame) ==> after.segments_done == self.segments_done + 1
            && after.this_seg_start == self.tiles.len() && d.added == frame.cut.len()
        &&& !self.cuts(frame) ==> after.segments_done == self.segments_done && d.added == 0
        &&& self.highlights(frame) && !self.cuts(frame) ==> after.this_seg_start == self.this_seg_start
        &&& !self.highlights(frame) ==> after.this_seg_start == self.tiles.len()
        &&& frame.advance && self.phase == Phase::Initial ==> {
            &&& is_stable_order(keys_of(mid), after.perm@)
            &&& after.tiles.len() == mid.len()
            &&& forall|k: int|
                0 <= k < after.perm.len() ==> after.tiles@[#[trigger] after.perm@[k] as int] == retarget(
                    mid[after.perm@[k] as int],
                    spec_grid_cell(k),
                )
        }
        &&& !(frame.advance && self.phase == Phase::Initial) ==> after.perm == self.perm
        &&& frame.advance && self.phase == Phase::Sorted ==> {
            &&& after.tiles.len() == self.tiles.len()
            &&& forall|k: int|
                0 <= k < after.perm.len() ==> after.tiles@[#[trigger] after.perm@[k] as int]
                    == grouped_tile(self.tiles@, self.perm@, k)
        }
        &&& !(frame.advance && (self.phase == Phase::Initial || self.phase == Phase::Sorted))
            ==> after.tiles@ == mid
        &&& frame.advance && self.phase == Phase::Grouped ==> is_inverse(self.perm@, after.inv_perm@)
        &&& !(frame.advance && self.phase == Phase::Grouped) ==> after.inv_perm == self.inv_perm
        &&& d.backdrop == (Backdrop::Walk {
            highlight: if self.highlights(frame) {
                Some(spec_segment_index(frame.seg as int) as usize)
            } else {
                None
            },
        })
        &&& d.tiles.len() == after.tiles.len()
        &&& forall|i: int|
            0 <= i < d.tiles.len() ==> d.tiles@[i] == tile_draw(
                self.phase,
                after.inv_perm@,
                if self.phase == Phase::GroupedAlpha { frame.alpha_step } else { 0 },
                after.this_seg_start,
                i,
            )
    }

    /// What the strip slide does in a frame, to everything but the slide
    /// and the phase: the first time, it lays the tiles out in strips; then
    /// it draws every tile with its alphas.
    pub open spec fn strip_group_step(&self, after: &Anims, d: &FrameDraw) -> bool {
        &&& after.segments_done == self.segments_done
        &&& after.this_seg_start == self.this_seg_start
        &&& after.perm == self.perm
        &&& after.inv_perm == self.inv_perm
        &&& after.tiles.len() == self.tiles.len()
        &&& self.phase.spec_rank() < 4 ==> forall|k: int|
            0 <= k < self.perm.len() ==> after.tiles@[#[trigger] self.perm@[k] as int] == place(
                self.tiles@[self.perm@[k] as int],
                strip_target(strip_layout(keys_in_order(self.tiles@, self.perm@), 0, 0, 0)[k]),
            )
        &&& self.phase.spec_rank() >= 4 ==> after.tiles == self.tiles
        &&& d.backdrop == Backdrop::Bare
        &&& d.added == 0
        &&& d.tiles.len() == after.tiles.len()
        &&& forall|i: int|
            0 <= i < d.tiles.len() ==> d.tiles@[i] == tile_draw(
                drawn_phase(self.progress, self.phase),
                after.inv_perm@,
                ALL_ALPHAS,
                after.this_seg_start,
                i,
            )
    }

    /// What the last slide does in a frame, to everything but the slide and
    /// the phase: the first time, it sends every tile home to its own cell;
    /// then it draws every tile with its alphas.
    pub open spec fn strips_step(&self, after: &Anims, d: &FrameDraw) -> bool {
        &&& after.segments_done == self.segments_done
        &&& after.this_seg_start == self.this_seg_start
        &&& after.perm == self.perm
        &&& after.inv_perm == self.inv_perm
        &&& after.tiles.len() == self.tiles.len()
        &&& self.phase.spec_rank() < 5 ==> forall|k: int|
            0 <= k < self.tiles.len() ==> after.tiles@[k] == place(
                self.tiles@[k],
                cell_target(self.tiles@[k].xy),
            )
        &&& self.phase.spec_rank() >= 5 ==> after.tiles == self.tiles
        &&& d.backdrop == Backdrop::Bare
        &&& d.added == 0
        &&& d.tiles.len() == after.tiles.len()
        &&& forall|i: int|
            0 <= i < d.tiles.len() ==> d.tiles@[i] == tile_draw(
                drawn_phase(self.progress, self.phase),
                after.inv_perm@,
                ALL_ALPHAS,
                after.this_seg_start,
                i,
            )
    }

    /// What the outline slides do in a frame, to everything but the slide:
    /// nothing, and they draw no tiles.
    pub open spec fn outline_step(&self, after: &Anims, d: &FrameDraw) -> bool {
        &&& after.segments_done == self.segments_done
        &&& after.this_seg_start == self.this_seg_start
        &&& after.perm == self.perm
        &&& after.inv_perm == self.inv_perm
        &&& after.tiles == self.tiles
        &&& d.backdrop == match self.progress {
            Progress::Original => Backdrop::Outline,
            Progress::Flat => (Backdrop::Flattened { grid: false }),
            _ => (Backdrop::Flattened { grid: true }),
        }
        &&& d.added == 0
        &&& d.tiles.len() == 0
    }

    /// What a frame does, slide by slide, as `render` states it.
    pub open spec fn frame_result(&self, after: &Anims, frame: &Frame, d: &FrameDraw) -> bool {
        &&& after.progress == next_progress(self.progress, self.phase, frame.advance)
        &&& after.phase == next_phase(self.progress, self.phase, frame.advance)
        &&& self.progress.spec_rank() <= 2 ==> self.outline_step(after, d)
        &&& self.progress == Progress::RPath ==> self.walk_step(after, frame, d)
        &&& self.progress == Progress::StripGroup ==> self.strip_group_step(after, d)
        &&& self.progress == Progress::Strips ==> self.strips_step(after, d)
        &&& keys_of(after.tiles@) == keys_of(self.cut_result(frame))
    }

    /// A deck at the first slide, with no tiles.
    pub fn new() -> (a: Anims)
        ensures
            a.wf(),
            a.progress == Progress::Original,
            a.phase == Phase::Initial,
            a.segments_done == 0,
            a.this_seg_start == 0,
            a.tiles@.len() == 0,
            a.perm@.len() == 0,
            a.inv_perm@.len() == 0,
    {
        Anims {
            segments_done: 0,
            tiles: Vec::new(),
            this_seg_start: 0,
            phase: Phase::Initial,
            perm: Vec::new(),
            inv_perm: Vec::new(),
            progress: Progress::Original,
        }
    }

    /// The segment the frame highlights, if any.
    pub fn highlight(&self, frame: &Frame) -> (h: Option<usize>)
        ensures
            h == (if self.highlights(frame) {
                Some(spec_segment_index(frame.seg as int) as usize)
            } else {
                None
            }),
    {
        if self.progress == Progress::RPath && self.phase == Phase::Initial && frame.seg < frame.n_segs {
            Some(segment_index(frame.seg))
        } else {
            None
        }
    }

    /// Sorts the tiles by key into `perm`.
    fn make_perm(&mut self)
        ensures
            final(self).tiles == old(self).tiles,
            final(self).segments_done == old(self).segments_done,
            final(self).this_seg_start == old(self).this_seg_start,
            final(self).phase == old(self).phase,
            final(self).inv_perm == old(self).inv_perm,
            final(self).progress == old(self).progress,
            is_stable_order(keys_of(old(self).tiles@), final(self).perm@),
    {
        let n = self.tiles.len();
        let mut keys: Vec<u32> = Vec::new();
        let mut i: usize = 0;
        while i < n
            invariant
                i <= n,
                n == self.tiles.len(),
                keys.len() == i,
                forall|k: int| 0 <= k < i ==> keys@[k] == self.tiles@[k].xy,
            decreases n - i,
        {
            keys.push(self.tiles[i].xy);
            i += 1;
        }
        proof {
            assert(keys@ =~= keys_of(self.tiles@));
        }
        self.perm = stable_order(&keys);
    }

    /// How every tile is drawn this frame, at alpha threshold `thresh`.
    fn tile_pass(&self, thresh: usize) -> (v: Vec<TileDraw>)
        requires
            self.this_seg_start <= self.tiles.len(),
            self.phase.spec_rank() >= 3 ==> self.inv_perm.len() == self.tiles.len(),
        ensures
            v.len() == self.tiles.len(),
            forall|i: int| 0 <= i < v.len() ==> v@[i] == tile_draw(
                self.phase,
                self.inv_perm@,
                thresh,
                self.this_seg_start,
                i,
            ),
    {
        let n = self.tiles.len();
        let rank = self.phase.rank();
        let mut v: Vec<TileDraw> = Vec::new();
        let mut i: usize = 0;
        while i < n
            invariant
                i <= n,
                n == self.tiles.len(),
                rank == self.phase.spec_rank(),
                self.phase.spec_rank() >= 3 ==> self.inv_perm.len() == n,
                v.len() == i,
                forall|k: int| 0 <= k < i ==> v@[k] == tile_draw(
                    self.phase,
                    self.inv_perm@,
                    thresh,
                    self.this_seg_start,
                    k,
                ),
            decreases n - i,
        {
            let alphas = rank >= 3 && self.inv_perm[i] < thresh;
            v.push(TileDraw { alphas, line_late: rank >= 2, tick: i < self.this_seg_start });
            i += 1;
        }
        v
    }

    /// The walk along the flattened outline: highlights and cuts segments,
    /// and on an advance sorts, groups or inverts the tiles' order.
    fn draw_r_path(&mut self, frame: &Frame) -> (d: FrameDraw)
        requires
            old(self).wf(),
            old(self).progress == Progress::RPath,
            old(self).frame_ok(frame),
        ensures
            final(self).progress == old(self).progress,
            final(self).phase == old(self).phase,
            old(self).walk_step(final(self), frame, &d),
            final(self).this_seg_start <= final(self).tiles.len(),
            keys_of(final(self).tiles@) == keys_of(old(self).cut_result(frame)),
            final(self).phase.spec_rank() >= 1 ==> is_stable_order(keys_of(final(self).tiles@), final(self).perm@),
            final(self).phase.spec_rank() >= 3 ==> is_inverse(final(self).perm@, final(self).inv_perm@),
            frame.advance && old(self).phase == Phase::Grouped ==> is_inverse(final(self).perm@, final(self).inv_perm@),
    {
        let highlight = self.highlight(frame);
        let mut added: usize = 0;
        if self.phase == Phase::Initial && frame.seg < frame.n_segs {
            if frame.seg == self.segments_done {
                self.segments_done = self.segments_done + 1;
                self.this_seg_start = self.tiles.len();
                append_cut(&mut self.tiles, &frame.cut);
                added = frame.cut.len();
            }
        } else {
            self.this_seg_start = self.tiles.len();
        }
        let ghost mid = self.tiles@;
        proof {
            assert(mid == old(self).cut_result(frame));
        }
        let mut alpha_thresh: usize = 0;
        if frame.advance {
            match self.phase {
                Phase::Initial => {
                    self.make_perm();
                    assign_grid_in_order(&mut self.tiles, &self.perm);
                },
                Phase::Sorted => {
                    proof {
                        assert(mid == old(self).tiles@);
                    }
                    group_by_xy(&mut self.tiles, &self.perm);
                },
                Phase::Grouped => {
                    self.inv_perm = inverse(&self.perm);
                },
                _ => {},
            }
        }
        if self.phase == Phase::GroupedAlpha {
            alpha_thresh = frame.alpha_step;
        }
        let tiles = self.tile_pass(alpha_thresh);
        FrameDraw { backdrop: Backdrop::Walk { highlight }, added, tiles }
    }

    /// The strip slide: on first showing, lays the tiles out in strips.
    fn draw_strip_group(&mut self) -> (d: FrameDraw)
        requires
            old(self).wf(),
            old(self).progress == Progress::StripGroup,
            old(self).tiles.len() <= MAX_STRIP_TILES,
        ensures
            final(self).phase == drawn_phase(old(self).progress, old(self).phase),
            final(self).progress == old(self).progress,
            old(self).strip_group_step(final(self), &d),
            keys_of(final(self).tiles@) == keys_of(old(self).tiles@),
    {
        if self.phase.rank() < 4 {
            group_by_strip(&mut self.tiles, &self.perm);
            self.phase = Phase::StripGroup;
        }
        let tiles = self.tile_pass(ALL_ALPHAS);
        FrameDraw { backdrop: Backdrop::Bare, added: 0, tiles }
    }

    /// The final slide: on first showing, sends every tile home to its cell.
    fn draw_strips(&mut self) -> (d: FrameDraw)
        requires
            old(self).wf(),
            old(self).progress == Progress::Strips,
        ensures
            final(self).phase == drawn_phase(old(self).progress, old(self).phase),
            final(self).progress == old(self).progress,
            old(self).strips_step(final(self), &d),
            keys_of(final(self).tiles@) == keys_of(old(self).tiles@),
    {
        if self.phase.rank() < 5 {
            crate::grouping::place_in_cells(&mut self.tiles);
            proof {
                assert(keys_of(self.tiles@) =~= keys_of(old(self).tiles@));
            }
            self.phase = Phase::Strips;
        }
        let tiles = self.tile_pass(ALL_ALPHAS);
        FrameDraw { backdrop: Backdrop::Bare, added: 0, tiles }
    }

    /// Plays one frame: draws the current slide, changing the tiles as the
    /// slide does, and on an advance moves to the next phase or slide.
    pub fn render(&mut self, frame: &Frame) -> (d: FrameDraw)
        requires
            old(self).wf(),
            old(self).frame_ok(frame),
        ensures
            final(self).wf(),
            final(self).progress == next_progress(old(self).progress, old(self).phase, frame.advance),
            final(self).phase == next_phase(old(self).progress, old(self).phase, frame.advance),
            old(self).progress.spec_rank() <= 2 ==> old(self).outline_step(final(self), &d),
            old(self).progress == Progress::RPath ==> old(self).walk_step(final(self), frame, &d),
            old(self).progress == Progress::StripGroup ==> old(self).strip_group_step(final(self), &d),
            old(self).progress == Progress::Strips ==> old(self).strips_step(final(self), &d),
            keys_of(final(self).tiles@) == keys_of(old(self).cut_result(frame)),
            old(self).frame_result(final(self), frame, &d),
    {
        match self.progress {
            Progress::Original => {
                if frame.advance {
                    self.progress = Progress::Flat;
                }
                FrameDraw { backdrop: Backdrop::Outline, added: 0, tiles: Vec::new() }
            },
            Progress::Flat => {
                if frame.advance {
                    self.progress = Progress::FlatGrid;
                }
                FrameDraw { backdrop: Backdrop::Flattened { grid: false }, added: 0, tiles: Vec::new() }
            },
            Progress::FlatGrid => {
                if frame.advance {
                    self.progress = Progress::RPath;
                }
                FrameDraw { backdrop: Backdrop::Flattened { grid: true }, added: 0, tiles: Vec::new() }
            },
            Progress::RPath => {
                let d = self.draw_r_path(frame);
                if frame.advance {
                    match self.phase {
                        Phase::Initial => {
                            self.phase = Phase::Sorted;
                        },
                        Phase::Sorted => {
                            self.phase = Phase::Grouped;
                        },
                        Phase::Grouped => {
                            self.phase = Phase::GroupedAlpha;
                        },
                        Phase::GroupedAlpha => {
                            self.progress = Progress::StripGroup;
                        },
                        _ => {},
                    }
                }
                d
            },
            Progress::StripGroup => {
                let d = self.draw_strip_group();
                if frame.advance {
                    self.progress = Progress::Strips;
                }
                d
            },
            Progress::Strips => self.draw_strips(),
        }
    }
}

/// Where a slide and phase stand in the talk, from 0 (the outline as
/// designed) to 8 (the tiles back home in strips).
pub open spec fn stage(progress: Progress, phase: Phase) -> nat {
    match progress {
        Progress::Original => 0,
        Progress::Flat => 1,
        Progress::FlatGrid => 2,
        Progress::RPath => 3 + phase.spec_rank(),
        Progress::StripGroup => 7,
        Progress::Strips => 8,
    }
}

/// The slide and phase pairs that a deck can be in.
pub open spec fn consistent(progress: Progress, phase: Phase) -> bool {
    &&& progress.spec_rank() <= 2 ==> phase == Phase::Initial
    &&& progress == Progress::RPath ==> phase.spec_rank() <= 3
    &&& progress == Progress::StripGroup ==> phase.spec_rank() >= 3
    &&& progress == Progress::Strips ==> phase.spec_rank() >= 4
}

/// Each advance moves the talk exactly one step forward, until the last
/// step, where it stays; a frame without an advance never changes the step.
pub proof fn lemma_advance_one_step(progress: Progress, phase: Phase, advance: bool)
    requires
        consistent(progress, phase),
    ensures
        consistent(next_progress(progress, phase, advance), next_phase(progress, phase, advance)),
        stage(next_progress(progress, phase, advance), next_phase(progress, phase, advance)) == if advance {
            if stage(progress, phase) < 8 { stage(progress, phase) + 1 } else { 8 }
        } else {
            stage(progress, phase)
        },
{
}

/// Neither the slide nor the phase ever moves backwards.
pub proof fn lemma_monotone(progress: Progress, phase: Phase, advance: bool)
    ensures
        next_progress(progress, phase, advance).spec_rank() >= progress.spec_rank(),
        next_phase(progress, phase, advance).spec_rank() >= phase.spec_rank(),
{
}

/// Without an advance the slide stays.
pub proof fn lemma_no_advance_keeps_slide(progress: Progress, phase: Phase)
    ensures
        next_progress(progress, phase, false) == progress,
{
}

/// The last slide, once its tiles are home, is a resting state.
pub proof fn lemma_last_slide_rests(advance: bool)
    ensures
        next_progress(Progress::Strips, Phase::Strips, advance) == Progress::Strips,
        next_phase(Progress::Strips, Phase::Strips, advance) == Phase::Strips,
{
}

/// The slide and phase after `n` frames that each advance.
pub open spec fn advance_n(progress: Progress, phase: Phase, n: nat) -> (Progress, Phase)
    decreases n,
{
    if n == 0 {
        (progress, phase)
    } else {
        advance_n(next_progress(progress, phase, true), next_phase(progress, phase, true), (n - 1) as nat)
    }
}

/// From the first slide, eight advances reach the last slide, and the
/// frame after that has sent every tile home.
pub proof fn lemma_talk_finishes()
    ensures
        advance_n(Progress::Original, Phase::Initial, 8).0 == Progress::Strips,
        advance_n(Progress::Original, Phase::Initial, 9) == (Progress::Strips, Phase::Strips),
{
    reveal_with_fuel(advance_n, 10);
}

/// In every frame that shows tiles, exactly the tiles before the newest
/// segment advance their animation: the tile at index `i` ticks if and only
/// if `i` is below where the newest segment starts after the frame. A frame
/// that cuts a segment starts the newest segment at the old tile count, so
/// none of the tiles it cuts moves in that frame, while every earlier tile
/// does. The outline slides draw no tiles.
pub proof fn lemma_only_older_tiles_tick(before: Anims, after: Anims, frame: Frame, d: FrameDraw)
    requires
        before.wf(),
        before.frame_ok(&frame),
        before.frame_result(&after, &frame, &d),
    ensures
        before.progress.spec_rank() <= 2 ==> d.tiles.len() == 0,
        before.progress.spec_rank() >= 3 ==> d.tiles.len() == after.tiles.len(),
        forall|i: int| 0 <= i < d.tiles.len() ==> (#[trigger] d.tiles@[i]).tick == (i < after.this_seg_start),
        before.cuts(&frame) ==> after.this_seg_start == before.tiles.len(),
        before.cuts(&frame) ==> forall|i: int|
            0 <= i < d.tiles.len() ==> (#[trigger] d.tiles@[i]).tick == (i < before.tiles.len()),
{
}

/// A frame that cuts a segment without advancing appends one tile per cut
/// cell, in order, after the tiles there were, leaving those unchanged: the
/// tile at overall index `j` is keyed by its cell, `y * 65536 + x`, heads to
/// column `j % 8` and row `j / 8` of the right-hand grid, at the cut scale,
/// so that no two cut tiles head to the same cell and the rows fill in turn.
pub proof fn lemma_cut_fills_grid(before: Anims, after: Anims, frame: Frame, d: FrameDraw)
    requires
        before.wf(),
        before.frame_ok(&frame),
        before.frame_result(&after, &frame, &d),
        before.cuts(&frame),
        !frame.advance,
    ensures
        d.added == frame.cut.len(),
        after.tiles.len() == before.tiles.len() + frame.cut.len(),
        forall|j: int| 0 <= j < before.tiles.len() ==> after.tiles@[j] == before.tiles@[j],
        forall|k: int|
            0 <= k < frame.cut.len() ==> {
                let j = before.tiles.len() + k;
                let t = #[trigger] after.tiles@[before.tiles.len() + k];
                &&& t.xy == frame.cut@[k].1 * 65536 + frame.cut@[k].0
                &&& t.target is Grid
                &&& t.target->Grid_col == j % 8
                &&& t.target->Grid_row == j / 8
                &&& t.target_scale_pct == CUT_SCALE_PCT
            },
        forall|j1: int, j2: int|
            before.tiles.len() <= j1 < after.tiles.len() && before.tiles.len() <= j2 < after.tiles.len() && j1
                != j2 ==> #[trigger] after.tiles@[j1].target != #[trigger] after.tiles@[j2].target,
{
    let n = before.tiles.len() as int;
    let mid = before.cut_result(&frame);
    assert(after.tiles@ == mid);
    assert forall|k: int| 0 <= k < frame.cut.len() implies {
        let j = n + k;
        let t = #[trigger] after.tiles@[n + k];
        &&& t.xy == frame.cut@[k].1 * 65536 + frame.cut@[k].0
        &&& t.target is Grid
        &&& t.target->Grid_col == j % 8
        &&& t.target->Grid_row == j / 8
        &&& t.target_scale_pct == CUT_SCALE_PCT
    } by {
        assert(after.tiles@[n + k] == cut_tiles(n, frame.cut@)[k]);
        assert(n + k <= usize::MAX);
    }
    assert forall|j1: int, j2: int|
        n <= j1 < after.tiles.len() && n <= j2 < after.tiles.len() && j1 != j2 implies #[trigger] after.tiles@[j1].target
        != #[trigger] after.tiles@[j2].target by {
        assert(after.tiles@[j1] == cut_tiles(n, frame.cut@)[j1 - n]);
        assert(after.tiles@[j2] == cut_tiles(n, frame.cut@)[j2 - n]);
        assert(j1 == (j1 / 8) * 8 + j1 % 8);
        assert(j2 == (j2 / 8) * 8 + j2 % 8);
        assert(j1 <= usize::MAX && j2 <= usize::MAX);
    }
}

} // verus!
