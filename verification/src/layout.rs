use vstd::prelude::*;

verus! {

/// Number of cells per row of the grid on the right, where tiles land as
/// they are cut out of the outline.
pub const GRID_WIDE: usize = 8;

/// Number of leading segments of the flattened outline whose order is
/// rotated so that the walk starts at a more interesting segment.
pub const ROTATED_SEGMENTS: usize = 23;

/// How far the rotation moves the start of the walk.
pub const ROTATION: usize = 5;

/// Where a tile is headed, given by integer coordinates of the layout that
/// places it; the drawing side turns these into canvas positions.
#[derive(Clone, Copy, PartialEq, Eq, Structural, Debug)]
pub enum Target {
    /// A cell of the grid on the right: column `col` (below `GRID_WIDE`) and row `row`.
    Grid { col: usize, row: usize },
    /// A slot of the strip layout: column `col`, row `row`.
    Strip { col: usize, row: usize },
    /// The tile's own cell of the outline grid, at tile coordinates `(x, y)`.
    Cell { x: u32, y: u32 },
}

/// What the logic keeps of a rendered tile: its packed coordinates, where
/// it is headed, and the scale it is headed to, in percent.
#[derive(Clone, Copy, PartialEq, Eq, Structural, Debug)]
pub struct TileState {
    pub xy: u32,
    pub target: Target,
    pub target_scale_pct: u8,
}

/// Scale, in percent, of a freshly cut tile.
pub const CUT_SCALE_PCT: u8 = 70;

/// Scale, in percent, of a tile placed in a strip or in its own cell.
pub const PLACED_SCALE_PCT: u8 = 90;

/// The packed key of tile coordinates: row in the high half, column in the low half.
pub open spec fn spec_pack_xy(x: u16, y: u16) -> u32 {
    (y * 0x10000 + x) as u32
}

/// Packs tile coordinates into one key, `(y << 16) | x`, so that keys order
/// tiles row by row and, within a row, by column.
pub fn pack_xy(x: u16, y: u16) -> (xy: u32)
    ensures
        xy == spec_pack_xy(x, y),
        xy == y * 0x10000 + x,
{
    let r: u32 = ((y as u32) << 16u32) | (x as u32);
    assert(((y as u32) << 16u32) | (x as u32) == y * 0x10000 + x) by (bit_vector);
    r
}

/// The tile coordinates `(x, y)` that a packed key stands for.
pub open spec fn spec_unpack_xy(xy: u32) -> (u32, u32) {
    (xy % 0x10000, xy / 0x10000)
}

/// Splits a packed key into its column, `xy & 0xffff`, and its row, `xy >> 16`.
pub fn unpack_xy(xy: u32) -> (r: (u32, u32))
    ensures
        r == spec_unpack_xy(xy),
{
    let x: u32 = xy & 0xffffu32;
    let y: u32 = xy >> 16u32;
    assert(xy & 0xffffu32 == xy % 0x10000) by (bit_vector);
    assert(xy >> 16u32 == xy / 0x10000) by (bit_vector);
    (x, y)
}

/// Packing and then unpacking gives back the tile coordinates.
pub proof fn lemma_unpack_pack(x: u16, y: u16)
    ensures
        spec_unpack_xy(spec_pack_xy(x, y)) == (x as u32, y as u32),
{
}

/// Keys of two tiles compare as their rows do, and on equal rows as their
/// columns do.
pub proof fn lemma_pack_order(x1: u16, y1: u16, x2: u16, y2: u16)
    ensures
        spec_pack_xy(x1, y1) < spec_pack_xy(x2, y2) <==> (y1 < y2 || (y1 == y2 && x1 < x2)),
        spec_pack_xy(x1, y1) == spec_pack_xy(x2, y2) <==> (x1 == x2 && y1 == y2),
{
}

/// The cell of the right-hand grid that the `ix`-th tile occupies.
pub open spec fn spec_grid_cell(ix: int) -> Target {
    Target::Grid { col: (ix % GRID_WIDE as int) as usize, row: (ix / GRID_WIDE as int) as usize }
}

/// Column `ix % 8` and row `ix / 8` of the right-hand grid for the `ix`-th tile.
pub fn grid_cell(ix: usize) -> (t: Target)
    ensures
        t == spec_grid_cell(ix as int),
{
    Target::Grid { col: ix % GRID_WIDE, row: ix / GRID_WIDE }
}

/// Distinct places give distinct cells, and every cell's column is in the
/// grid, with `ix == row * 8 + col`.
pub proof fn lemma_grid_cell(ix: usize, jx: usize)
    requires
        ix != jx,
    ensures
        spec_grid_cell(ix as int) != spec_grid_cell(jx as int),
        spec_grid_cell(ix as int)->Grid_col < GRID_WIDE,
        ix == spec_grid_cell(ix as int)->Grid_row * GRID_WIDE + spec_grid_cell(ix as int)->Grid_col,
{
    assert(ix == (ix / 8) * 8 + ix % 8);
    assert(jx == (jx / 8) * 8 + jx % 8);
}

/// The segment walked at step `seg`: the first 23 steps visit segments
/// 5, 6, ..., 22, 0, 1, ..., 4; later steps visit segment `seg` itself.
pub open spec fn spec_segment_index(seg: int) -> int {
    if seg < ROTATED_SEGMENTS as int {
        (seg + ROTATION as int) % ROTATED_SEGMENTS as int
    } else {
        seg
    }
}

/// Chooses which segment of the flattened outline is highlighted at walk
/// step `seg`.
pub fn segment_index(seg: usize) -> (ix: usize)
    ensures
        ix == spec_segment_index(seg as int),
        seg < 18 ==> ix == seg + 5,
        18 <= seg < 23 ==> ix == seg - 18,
{
    if seg < ROTATED_SEGMENTS {
        (seg + ROTATION) % ROTATED_SEGMENTS
    } else {
        seg
    }
}

/// The walk visits every segment exactly once: distinct steps highlight
/// distinct segments, the first 23 steps cover segments 0 to 22, and later
/// steps are left in place.
pub proof fn lemma_segment_walk_bijective(a: int, b: int)
    requires
        0 <= a,
        0 <= b,
    ensures
        a != b ==> spec_segment_index(a) != spec_segment_index(b),
        a < ROTATED_SEGMENTS ==> 0 <= spec_segment_index(a) < ROTATED_SEGMENTS,
        a < ROTATED_SEGMENTS ==> spec_segment_index(
            if a < ROTATION { a + 18 } else { a - ROTATION as int },
        ) == a,
        a >= ROTATED_SEGMENTS ==> spec_segment_index(a) == a,
{
}

/// The smallest and the largest column among the tiles of a segment.
pub fn x_range(xs: &Vec<u16>) -> (r: (u16, u16))
    requires
        xs.len() > 0,
    ensures
        xs@.contains(r.0),
        xs@.contains(r.1),
        forall|k: int| 0 <= k < xs.len() ==> r.0 <= #[trigger] xs@[k] <= r.1,
{
    let mut lo: u16 = xs[0];
    let mut hi: u16 = lo;
    let mut k: usize = 1;
    while k < xs.len()
        invariant
            1 <= k <= xs.len(),
            xs@.contains(lo),
            xs@.contains(hi),
            forall|j: int| 0 <= j < k ==> lo <= #[trigger] xs@[j] <= hi,
        decreases xs.len() - k,
    {
        let v = xs[k];
        if v < lo {
            lo = v;
        }
        if v > hi {
            hi = v;
        }
        k += 1;
    }
    (lo, hi)
}

} // verus!
