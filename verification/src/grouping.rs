use vstd::prelude::*;
use crate::layout::{
    grid_cell, spec_grid_cell, spec_unpack_xy, unpack_xy, Target, TileState, PLACED_SCALE_PCT,
};
use crate::order::{is_permutation, is_stable_order, lemma_stable_order_sorted, lists};

verus! {

/// The packed keys of the tiles, read in the order `perm`.
pub open spec fn keys_in_order(tiles: Seq<TileState>, perm: Seq<usize>) -> Seq<u32> {
    Seq::new(perm.len(), |k: int| tiles[perm[k] as int].xy)
}

/// The packed keys of the tiles, in tile order.
pub open spec fn keys_of(tiles: Seq<TileState>) -> Seq<u32> {
    Seq::new(tiles.len(), |k: int| tiles[k].xy)
}

/// `t` with its target replaced.
pub open spec fn retarget(t: TileState, target: Target) -> TileState {
    TileState { xy: t.xy, target: target, target_scale_pct: t.target_scale_pct }
}

/// `t` placed at `target` with the scale of a placed tile.
pub open spec fn place(t: TileState, target: Target) -> TileState {
    TileState { xy: t.xy, target: target, target_scale_pct: PLACED_SCALE_PCT }
}

/// Sends the tile at position `k` of `perm` to cell `k` of the right-hand grid.
pub fn assign_grid_in_order(tiles: &mut Vec<TileState>, perm: &Vec<usize>)
    requires
        is_permutation(perm@, old(tiles).len() as int),
    ensures
        final(tiles).len() == old(tiles).len(),
        keys_of(final(tiles)@) == keys_of(old(tiles)@),
        forall|k: int|
            0 <= k < perm.len() ==> final(tiles)@[#[trigger] perm@[k] as int] == retarget(
                old(tiles)@[perm@[k] as int],
                spec_grid_cell(k),
            ),
{
    let n = perm.len();
    let ghost before = tiles@;
    let mut i: usize = 0;
    while i < n
        invariant
            i <= n,
            n == perm.len(),
            tiles.len() == before.len(),
            before.len() == n,
            is_permutation(perm@, n as int),
            forall|t: int| 0 <= t < before.len() ==> (#[trigger] tiles@[t]).xy == before[t].xy,
            forall|k: int|
                0 <= k < i ==> tiles@[#[trigger] perm@[k] as int] == retarget(
                    before[perm@[k] as int],
                    spec_grid_cell(k),
                ),
            forall|k: int| i <= k < n ==> tiles@[#[trigger] perm@[k] as int] == before[perm@[k] as int],
        decreases n - i,
    {
        let ix = perm[i];
        let t = tiles[ix];
        let cell = grid_cell(i);
        let ghost prev = tiles@;
        tiles.set(ix, TileState { xy: t.xy, target: cell, target_scale_pct: t.target_scale_pct });
        proof {
            assert forall|k: int| 0 <= k < n && k != i implies tiles@[#[trigger] perm@[k] as int]
                == prev[perm@[k] as int] by {
                assert(perm@[k] != perm@[i as int]);
            }
        }
        i += 1;
    }
    proof {
        assert(keys_of(tiles@) =~= keys_of(before));
    }
}

/// Start of the run of equal values of `s` that holds position `k`.
pub open spec fn run_start(s: Seq<u32>, k: int) -> int
    decreases k,
{
    if k <= 0 {
        0
    } else if s[k - 1] != s[k] {
        k
    } else {
        run_start(s, k - 1)
    }
}

/// A run starts at or before `k`, at a value equal to `s[k]`, and the start
/// of a run is its own start.
pub proof fn lemma_run_start(s: Seq<u32>, k: int)
    requires
        0 <= k < s.len(),
    ensures
        0 <= run_start(s, k) <= k,
        s[run_start(s, k)] == s[k],
        run_start(s, run_start(s, k)) == run_start(s, k),
    decreases k,
{
    if k > 0 && s[k - 1] == s[k] {
        lemma_run_start(s, k - 1);
    }
}

/// In a non-decreasing sequence, equal values share the start of their run.
pub proof fn lemma_run_start_sorted(s: Seq<u32>, a: int, b: int)
    requires
        0 <= a <= b < s.len(),
        s[a] == s[b],
        forall|p: int, q: int| 0 <= p <= q < s.len() ==> s[p] <= s[q],
    ensures
        run_start(s, a) == run_start(s, b),
    decreases b - a,
{
    if a < b {
        assert(s[a] <= s[b - 1] <= s[b]);
        lemma_run_start_sorted(s, a, b - 1);
    }
}

/// The tile at position `k` of `perm` after grouping: it takes the target
/// of the first tile of its run of equal keys.
pub open spec fn grouped_tile(tiles: Seq<TileState>, perm: Seq<usize>, k: int) -> TileState {
    retarget(
        tiles[perm[k] as int],
        tiles[perm[run_start(keys_in_order(tiles, perm), k)] as int].target,
    )
}

/// Walking the tiles in the order `perm`, sends every tile to the target of
/// the first tile of its run of equal keys, so that tiles that share a cell
/// of the outline fly to one place.
pub fn group_by_xy(tiles: &mut Vec<TileState>, perm: &Vec<usize>)
    requires
        is_permutation(perm@, old(tiles).len() as int),
        perm.len() > 0,
    ensures
        final(tiles).len() == old(tiles).len(),
        keys_of(final(tiles)@) == keys_of(old(tiles)@),
        forall|k: int|
            0 <= k < perm.len() ==> final(tiles)@[#[trigger] perm@[k] as int] == grouped_tile(
                old(tiles)@,
                perm@,
                k,
            ),
{
    let n = perm.len();
    let ghost before = tiles@;
    let ghost s = keys_in_order(before, perm@);
    let mut last: usize = perm[0];
    let ghost mut lpos: int = 0;
    let mut i: usize = 1;
    while i < n
        invariant
            1 <= i <= n,
            n == perm.len(),
            tiles.len() == before.len(),
            before.len() == n,
            is_permutation(perm@, n as int),
            s == keys_in_order(before, perm@),
            0 <= lpos < i,
            last == perm@[lpos],
            lpos == run_start(s, i - 1),
            forall|t: int| 0 <= t < before.len() ==> (#[trigger] tiles@[t]).xy == before[t].xy,
            forall|k: int| 0 <= k < i ==> tiles@[#[trigger] perm@[k] as int] == grouped_tile(before, perm@, k),
            forall|k: int| i <= k < n ==> tiles@[#[trigger] perm@[k] as int] == before[perm@[k] as int],
        decreases n - i,
    {
        proof {
            lemma_run_start(s, i - 1);
            lemma_run_start(s, lpos);
            assert(tiles@[perm@[lpos] as int] == grouped_tile(before, perm@, lpos));
        }
        let this = perm[i];
        let lt = tiles[last];
        let tt = tiles[this];
        if lt.xy == tt.xy {
            let ghost prev = tiles@;
            tiles.set(this, TileState { xy: tt.xy, target: lt.target, target_scale_pct: tt.target_scale_pct });
            proof {
                assert(s[i as int] == s[i - 1]);
                assert(run_start(s, i as int) == lpos);
                assert forall|k: int| 0 <= k < n && k != i implies tiles@[#[trigger] perm@[k] as int]
                    == prev[perm@[k] as int] by {
                    assert(perm@[k] != perm@[i as int]);
                }
            }
        } else {
            last = this;
            proof {
                assert(s[i as int] != s[i - 1]);
                lpos = i as int;
            }
        }
        i += 1;
    }
    proof {
        assert(keys_of(tiles@) =~= keys_of(before));
    }
}

/// After grouping along a stable order, tiles with the same key share a
/// target.
pub proof fn lemma_grouped_share_target(
    before: Seq<TileState>,
    perm: Seq<usize>,
    after: Seq<TileState>,
    a: int,
    b: int,
)
    requires
        is_stable_order(keys_of(before), perm),
        after.len() == before.len(),
        forall|k: int| 0 <= k < perm.len() ==> after[#[trigger] perm[k] as int] == grouped_tile(before, perm, k),
        0 <= a < before.len(),
        0 <= b < before.len(),
        before[a].xy == before[b].xy,
    ensures
        after[a].target == after[b].target,
        after[a].xy == before[a].xy,
{
    let s = keys_in_order(before, perm);
    assert(lists(perm, a));
    assert(lists(perm, b));
    let pa = choose|p: int| 0 <= p < perm.len() && #[trigger] perm[p] == a;
    let pb = choose|p: int| 0 <= p < perm.len() && #[trigger] perm[p] == b;
    assert forall|p: int, q: int| 0 <= p <= q < s.len() implies s[p] <= s[q] by {
        lemma_stable_order_sorted(keys_of(before), perm, p, q);
    }
    assert(s[pa] == s[pb]);
    if pa <= pb {
        lemma_run_start_sorted(s, pa, pb);
    } else {
        lemma_run_start_sorted(s, pb, pa);
    }
    assert(after[perm[pa] as int] == grouped_tile(before, perm, pa));
    assert(after[perm[pb] as int] == grouped_tile(before, perm, pb));
}

/// The tile's own cell of the outline grid, read back from its key.
pub open spec fn cell_target(xy: u32) -> Target {
    Target::Cell { x: spec_unpack_xy(xy).0, y: spec_unpack_xy(xy).1 }
}

/// Sends every tile back to its own cell of the outline, at the placed scale.
pub fn place_in_cells(tiles: &mut Vec<TileState>)
    ensures
        final(tiles).len() == old(tiles).len(),
        forall|k: int|
            0 <= k < old(tiles).len() ==> final(tiles)@[k] == place(
                old(tiles)@[k],
                cell_target(old(tiles)@[k].xy),
            ),
{
    let n = tiles.len();
    let ghost before = tiles@;
    let mut i: usize = 0;
    while i < n
        invariant
            i <= n,
            n == before.len(),
            tiles.len() == n,
            forall|k: int| 0 <= k < i ==> tiles@[k] == place(before[k], cell_target(before[k].xy)),
            forall|k: int| i <= k < n ==> tiles@[k] == before[k],
        decreases n - i,
    {
        let t = tiles[i];
        let (x, y) = unpack_xy(t.xy);
        tiles.set(i, TileState { xy: t.xy, target: Target::Cell { x, y }, target_scale_pct: PLACED_SCALE_PCT });
        i += 1;
    }
}

/// Width, in slots, of a row of the strip layout.
pub const STRIP_ROW_SLOTS: usize = 16;

/// Largest number of tiles for which the strip layout's counters are known
/// to fit in a machine word.
pub const MAX_STRIP_TILES: usize = 0x3fff_ffff;

/// End (exclusive) of the strip that starts at position `i` of the sorted
/// keys `s`: the strip runs on while each key is at most one more than the
/// key before it.
pub open spec fn strip_end(s: Seq<u32>, i: int) -> int
    decreases s.len() - i,
{
    if i + 1 >= s.len() || s[i + 1] - s[i] > 1 {
        i + 1
    } else {
        strip_end(s, i + 1)
    }
}

/// Number of positions `m` in `(i, k]` whose key differs from the key before.
pub open spec fn steps(s: Seq<u32>, i: int, k: int) -> int
    decreases k - i,
{
    if k <= i {
        0
    } else {
        steps(s, i, k - 1) + if s[k] != s[k - 1] {
            1int
        } else {
            0int
        }
    }
}

/// A strip is not empty and ends within the keys.
pub proof fn lemma_strip_end(s: Seq<u32>, i: int)
    requires
        0 <= i < s.len(),
    ensures
        i < strip_end(s, i) <= s.len(),
    decreases s.len() - i,
{
    if !(i + 1 >= s.len() || s[i + 1] - s[i] > 1) {
        lemma_strip_end(s, i + 1);
    }
}

/// Counting changes of key never gives more than the positions counted.
pub proof fn lemma_steps_bound(s: Seq<u32>, i: int, k: int)
    ensures
        0 <= steps(s, i, k),
        k >= i ==> steps(s, i, k) <= k - i,
    decreases k - i,
{
    if k > i {
        lemma_steps_bound(s, i, k - 1);
    }
}

/// The slots `(column, row)` of the tiles from position `i` of the sorted
/// keys `s` on, when the layout has reached column `x` of row `y`.
///
/// Each strip is laid out left to right, one column per distinct key; a
/// strip that would run past the row's 16 slots (counting one slot of gap)
/// starts a new row unless the row is still empty; after a strip the layout
/// leaves one empty column.
pub open spec fn strip_layout(s: Seq<u32>, i: int, x: int, y: int) -> Seq<(int, int)>
    decreases s.len() - i,
{
    if i < 0 || i >= s.len() {
        Seq::empty()
    } else {
        let e = strip_end(s, i);
        let w = steps(s, i, e - 1) + 1;
        let wrap = x > 0 && x + 1 + w > STRIP_ROW_SLOTS as int;
        let x1 = if wrap { 0 } else { x };
        let y1 = if wrap { y + 1 } else { y };
        proof {
            lemma_strip_end(s, i);
        }
        Seq::new((e - i) as nat, |k: int| (x1 + steps(s, i, i + k), y1)) + strip_layout(
            s,
            e,
            x1 + steps(s, i, e - 1) + 2,
            y1,
        )
    }
}

/// The layout gives one slot to each remaining tile.
pub proof fn lemma_strip_layout_len(s: Seq<u32>, i: int, x: int, y: int)
    requires
        0 <= i <= s.len(),
    ensures
        strip_layout(s, i, x, y).len() == s.len() - i,
    decreases s.len() - i,
{
    if i < s.len() {
        lemma_strip_end(s, i);
        let e = strip_end(s, i);
        let w = steps(s, i, e - 1) + 1;
        let wrap = x > 0 && x + 1 + w > STRIP_ROW_SLOTS as int;
        let x1 = if wrap { 0 } else { x };
        let y1 = if wrap { y + 1 } else { y };
        lemma_strip_layout_len(s, e, x1 + steps(s, i, e - 1) + 2, y1);
    }
}

/// The target of a slot of the strip layout.
pub open spec fn strip_target(slot: (int, int)) -> Target {
    Target::Strip { col: slot.0 as usize, row: slot.1 as usize }
}

/// The keys, read along `perm`, never decrease.
pub open spec fn non_decreasing(s: Seq<u32>) -> bool {
    forall|p: int, q: int| 0 <= p <= q < s.len() ==> s[p] <= s[q]
}

/// Lays the tiles out in strips: walking them in the stable order by key,
/// runs of keys that step by at most one form a strip, each distinct key of
/// a strip takes the next column, and strips fill rows of 16 slots. Every
/// tile is headed to its slot at the placed scale.
#[verifier::rlimit(50)]
pub fn group_by_strip(tiles: &mut Vec<TileState>, perm: &Vec<usize>)
    requires
        is_stable_order(keys_of(old(tiles)@), perm@),
        old(tiles).len() <= MAX_STRIP_TILES,
    ensures
        final(tiles).len() == old(tiles).len(),
        laid_in_strips(old(tiles)@, perm@, final(tiles)@),
        keys_of(final(tiles)@) == keys_of(old(tiles)@),
        forall|k: int|
            0 <= k < perm.len() ==> final(tiles)@[#[trigger] perm@[k] as int] == place(
                old(tiles)@[perm@[k] as int],
                strip_target(strip_layout(keys_in_order(old(tiles)@, perm@), 0, 0, 0)[k]),
            ),
{
    let n = perm.len();
    let ghost before = tiles@;
    let ghost s = keys_in_order(before, perm@);
    let ghost full = strip_layout(s, 0, 0, 0);
    proof {
        lemma_strip_layout_len(s, 0, 0, 0);
        assert forall|p: int, q: int| 0 <= p <= q < s.len() implies s[p] <= s[q] by {
            lemma_stable_order_sorted(keys_of(before), perm@, p, q);
        }
        assert(full.subrange(0, n as int) =~= full);
    }
    let mut i: usize = 0;
    let mut x: usize = 0;
    let mut y: usize = 0;
    while i < n
        invariant
            i <= n,
            n == perm.len(),
            n == before.len(),
            n <= MAX_STRIP_TILES,
            tiles.len() == n,
            is_permutation(perm@, n as int),
            s == keys_in_order(before, perm@),
            non_decreasing(s),
            full == strip_layout(s, 0, 0, 0),
            full.len() == n,
            full.subrange(i as int, n as int) == strip_layout(s, i as int, x as int, y as int),
            x <= 2 * i,
            y <= i,
            forall|t: int| 0 <= t < n ==> (#[trigger] tiles@[t]).xy == before[t].xy,
            forall|k: int|
                0 <= k < i ==> tiles@[#[trigger] perm@[k] as int] == place(
                    before[perm@[k] as int],
                    strip_target(full[k]),
                ),
            forall|k: int| i <= k < n ==> tiles@[#[trigger] perm@[k] as int] == before[perm@[k] as int],
        decreases n - i,
    {
        proof {
            lemma_strip_end(s, i as int);
        }
        let mut xy: u32 = tiles[perm[i]].xy;
        let mut end: usize = i + 1;
        let mut strip_width: usize = 1;
        while end < n && tiles[perm[end]].xy - xy <= 1
            invariant
                i < end <= n,
                n == perm.len(),
                n == before.len(),
                tiles.len() == n,
                is_permutation(perm@, n as int),
                s == keys_in_order(before, perm@),
                non_decreasing(s),
                forall|t: int| 0 <= t < n ==> (#[trigger] tiles@[t]).xy == before[t].xy,
                xy == s[end - 1],
                strip_width == steps(s, i as int, end - 1) + 1,
                strip_width <= end - i,
                strip_end(s, i as int) == strip_end(s, end - 1),
            decreases n - end,
        {
            let v = tiles[perm[end]].xy;
            proof {
                assert(s[end as int] == v);
                assert(strip_end(s, end - 1) == strip_end(s, end as int));
            }
            if v - xy == 1 {
                strip_width += 1;
                xy = v;
            }
            end += 1;
        }
        proof {
            if end < n {
                assert(s[end as int] == tiles@[perm@[end as int] as int].xy);
            }
            assert(strip_end(s, end - 1) == end);
        }
        let ghost e = end as int;
        let ghost w = steps(s, i as int, e - 1) + 1;
        let ghost x0 = x as int;
        let ghost y0 = y as int;
        if x > 0 && x + 1 + strip_width > STRIP_ROW_SLOTS {
            x = 0;
            y += 1;
        }
        let ghost x1 = x as int;
        let ghost y1 = y as int;
        let ghost chunk = Seq::new((e - i) as nat, |k: int| (x1 + steps(s, i as int, i + k), y1));
        let ghost rest = strip_layout(s, e, x1 + steps(s, i as int, e - 1) + 2, y1);
        proof {
            assert(strip_layout(s, i as int, x0, y0) == chunk + rest);
            assert forall|k: int| i <= k < e implies full[k] == (x1 + steps(s, i as int, k), y1) by {
                assert(full.subrange(i as int, n as int)[k - i] == full[k]);
                assert((chunk + rest)[k - i] == chunk[k - i]);
            }
            lemma_steps_bound(s, i as int, e - 1);
        }
        let mut xy2: u32 = tiles[perm[i]].xy;
        let mut j: usize = i;
        while j < end
            invariant
                i <= j <= end,
                end as int == e,
                e <= n,
                i < e,
                n == perm.len(),
                n == before.len(),
                n <= MAX_STRIP_TILES,
                tiles.len() == n,
                is_permutation(perm@, n as int),
                s == keys_in_order(before, perm@),
                full.len() == n,
                x1 <= 2 * i,
                y as int == y1,
                forall|t: int| 0 <= t < n ==> (#[trigger] tiles@[t]).xy == before[t].xy,
                x as int == x1 + steps(s, i as int, j - 1),
                xy2 == s[if j == i { i as int } else { j - 1 }],
                forall|k: int| i <= k < e ==> full[k] == (x1 + steps(s, i as int, k), y1),
                forall|k: int|
                    0 <= k < j ==> tiles@[#[trigger] perm@[k] as int] == place(
                        before[perm@[k] as int],
                        strip_target(full[k]),
                    ),
                forall|k: int| j <= k < n ==> tiles@[#[trigger] perm@[k] as int] == before[perm@[k] as int],
            decreases end - j,
        {
            proof {
                lemma_steps_bound(s, i as int, j as int);
            }
            let t = tiles[perm[j]];
            if t.xy != xy2 {
                x += 1;
                xy2 = t.xy;
            }
            proof {
                assert(x as int == x1 + steps(s, i as int, j as int));
            }
            let ghost prev = tiles@;
            tiles.set(perm[j], TileState { xy: t.xy, target: Target::Strip { col: x, row: y }, target_scale_pct: PLACED_SCALE_PCT });
            proof {
                assert forall|k: int| 0 <= k < n && k != j implies tiles@[#[trigger] perm@[k] as int]
                    == prev[perm@[k] as int] by {
                    assert(perm@[k] != perm@[j as int]);
                }
            }
            j += 1;
        }
        x += 2;
        let ghost i0 = i as int;
        i = end;
        proof {
            lemma_strip_layout_len(s, e, x1 + steps(s, i0, e - 1) + 2, y1);
            assert(full.subrange(e, n as int) =~= (chunk + rest).subrange(e - i0, n - i0));
            assert((chunk + rest).subrange(e - i0, n - i0) =~= rest);
        }
    }
    proof {
        assert(keys_of(tiles@) =~= keys_of(before));
    }
}

/// Every position of a strip has the strip's end as its own strip end.
pub proof fn lemma_strip_end_within(s: Seq<u32>, i: int, a: int)
    requires
        0 <= i <= a < strip_end(s, i),
        a < s.len(),
    ensures
        strip_end(s, a) == strip_end(s, i),
    decreases a - i,
{
    if a > i {
        lemma_strip_end_within(s, i, a - 1);
        lemma_strip_end(s, a);
    }
}

/// Equal keys after a position of a strip lie in the same strip.
pub proof fn lemma_equal_keys_same_strip(s: Seq<u32>, i: int, a: int, b: int)
    requires
        non_decreasing(s),
        0 <= i <= a < strip_end(s, i),
        a <= b < s.len(),
        s[a] == s[b],
    ensures
        b < strip_end(s, i),
    decreases b - a,
{
    if a < b {
        assert(s[a] <= s[a + 1] <= s[b]);
        lemma_strip_end_within(s, i, a);
        lemma_strip_end(s, a + 1);
        assert(a + 1 < strip_end(s, i));
        lemma_equal_keys_same_strip(s, i, a + 1, b);
    }
}

/// Counting key changes: it never decreases, stays put across equal keys,
/// and grows across different ones.
pub proof fn lemma_steps_compare(s: Seq<u32>, i: int, a: int, b: int)
    requires
        non_decreasing(s),
        0 <= i <= a <= b < s.len(),
    ensures
        steps(s, i, a) <= steps(s, i, b),
        s[a] == s[b] ==> steps(s, i, a) == steps(s, i, b),
        s[a] != s[b] ==> steps(s, i, a) < steps(s, i, b),
    decreases b - a,
{
    if a < b {
        lemma_steps_compare(s, i, a, b - 1);
        assert(s[a] <= s[b - 1] <= s[b]);
    }
}

/// Slot `p` comes strictly before slot `q`: an earlier row, or the same row
/// and an earlier column.
pub open spec fn slot_before(p: (int, int), q: (int, int)) -> bool {
    p.1 < q.1 || (p.1 == q.1 && p.0 < q.0)
}

/// No slot of the layout from `(x, y)` on comes before `(x, y)`.
pub proof fn lemma_layout_from(s: Seq<u32>, i: int, x: int, y: int, k: int)
    requires
        non_decreasing(s),
        0 <= i,
        0 <= k < s.len() - i,
        0 <= x,
        0 <= y,
    ensures
        !slot_before(strip_layout(s, i, x, y)[k], (x, y)),
        strip_layout(s, i, x, y)[k].0 >= 0,
        strip_layout(s, i, x, y)[k].1 >= 0,
    decreases s.len() - i,
{
    lemma_strip_end(s, i);
    let e = strip_end(s, i);
    let w = steps(s, i, e - 1) + 1;
    let wrap = x > 0 && x + 1 + w > STRIP_ROW_SLOTS as int;
    let x1 = if wrap { 0 } else { x };
    let y1 = if wrap { y + 1 } else { y };
    let chunk = Seq::new((e - i) as nat, |j: int| (x1 + steps(s, i, i + j), y1));
    let x2 = x1 + steps(s, i, e - 1) + 2;
    let rest = strip_layout(s, e, x2, y1);
    assert(strip_layout(s, i, x, y) == chunk + rest);
    lemma_steps_bound(s, i, e - 1);
    if k < e - i {
        lemma_steps_bound(s, i, i + k);
        assert((chunk + rest)[k] == chunk[k]);
    } else {
        lemma_strip_layout_len(s, e, x2, y1);
        assert((chunk + rest)[k] == rest[k - (e - i)]);
        lemma_layout_from(s, e, x2, y1, k - (e - i));
    }
}

/// In the strip layout, tiles with equal keys share a slot, and a tile with
/// a larger key gets a later slot: no slot ever holds two different cells,
/// and slots follow the order of the keys.
pub proof fn lemma_layout_slots(s: Seq<u32>, i: int, x: int, y: int, a: int, b: int)
    requires
        non_decreasing(s),
        0 <= i <= a < b < s.len(),
        0 <= x,
        0 <= y,
    ensures
        s[a] == s[b] ==> strip_layout(s, i, x, y)[a - i] == strip_layout(s, i, x, y)[b - i],
        s[a] != s[b] ==> slot_before(strip_layout(s, i, x, y)[a - i], strip_layout(s, i, x, y)[b - i]),
    decreases s.len() - i,
{
    lemma_strip_end(s, i);
    let e = strip_end(s, i);
    let w = steps(s, i, e - 1) + 1;
    let wrap = x > 0 && x + 1 + w > STRIP_ROW_SLOTS as int;
    let x1 = if wrap { 0 } else { x };
    let y1 = if wrap { y + 1 } else { y };
    let chunk = Seq::new((e - i) as nat, |j: int| (x1 + steps(s, i, i + j), y1));
    let x2 = x1 + steps(s, i, e - 1) + 2;
    let rest = strip_layout(s, e, x2, y1);
    assert(strip_layout(s, i, x, y) == chunk + rest);
    lemma_strip_layout_len(s, e, x2, y1);
    lemma_steps_bound(s, i, e - 1);
    if a < e {
        if s[a] == s[b] {
            lemma_equal_keys_same_strip(s, i, a, b);
        }
        assert((chunk + rest)[a - i] == chunk[a - i]);
        if b < e {
            assert((chunk + rest)[b - i] == chunk[b - i]);
            lemma_steps_compare(s, i, a, b);
        } else {
            assert((chunk + rest)[b - i] == rest[b - e]);
            lemma_steps_compare(s, i, a, e - 1);
            lemma_layout_from(s, e, x2, y1, b - e);
        }
    } else {
        assert((chunk + rest)[a - i] == rest[a - e]);
        assert((chunk + rest)[b - i] == rest[b - e]);
        lemma_steps_bound(s, i, e - 1);
        lemma_layout_slots(s, e, x2, y1, a, b);
    }
}

/// Inside a strip no key is more than one above the key before it.
pub proof fn lemma_no_gap_in_strip(s: Seq<u32>, i: int, j: int)
    requires
        0 <= i < j < strip_end(s, i),
        j < s.len(),
    ensures
        s[j] - s[j - 1] <= 1,
{
    lemma_strip_end_within(s, i, j - 1);
}

/// A key more than one above the key before it ends the strip there.
pub proof fn lemma_gap_ends_strip(s: Seq<u32>, i: int, k: int)
    requires
        0 <= i <= k,
        k + 1 < s.len(),
        k < strip_end(s, i),
        s[k + 1] - s[k] > 1,
    ensures
        strip_end(s, i) == k + 1,
{
    lemma_strip_end_within(s, i, k);
}

/// A run of keys that step by at most one, ended by a gap or by the end of
/// the keys, is exactly the strip that starts at its first position.
pub proof fn lemma_strip_by_keys(s: Seq<u32>, k: int, m: int)
    requires
        0 <= k <= m < s.len(),
        forall|j: int| k < j <= m ==> #[trigger] s[j] - s[j - 1] <= 1,
        m + 1 == s.len() || s[m + 1] - s[m] > 1,
    ensures
        strip_end(s, k) == m + 1,
    decreases m - k,
{
    if k < m {
        lemma_strip_by_keys(s, k + 1, m);
    }
}

/// The slot of each position in the strip layout from `(x, y)` is one column
/// after the slot before it when its key is one above, the same slot when
/// the keys are equal, and after a larger gap either two columns on (one
/// column left empty) in the same row, or the first column of the next row.
pub proof fn lemma_layout_neighbours(s: Seq<u32>, i: int, x: int, y: int, k: int)
    requires
        non_decreasing(s),
        0 <= i <= k,
        k + 1 < s.len(),
    ensures
        ({
            let l = strip_layout(s, i, x, y);
            &&& s[k + 1] == s[k] ==> l[k + 1 - i] == l[k - i]
            &&& s[k + 1] == s[k] + 1 ==> l[k + 1 - i] == (l[k - i].0 + 1, l[k - i].1)
            &&& s[k + 1] > s[k] + 1 ==> (l[k + 1 - i] == (l[k - i].0 + 2, l[k - i].1) || l[k + 1 - i] == (
                0int,
                l[k - i].1 + 1,
            ))
        }),
    decreases s.len() - i,
{
    lemma_strip_end(s, i);
    let e = strip_end(s, i);
    let w = steps(s, i, e - 1) + 1;
    let wrap = x > 0 && x + 1 + w > STRIP_ROW_SLOTS as int;
    let x1 = if wrap { 0 } else { x };
    let y1 = if wrap { y + 1 } else { y };
    let chunk = Seq::new((e - i) as nat, |j: int| (x1 + steps(s, i, i + j), y1));
    let x2 = x1 + steps(s, i, e - 1) + 2;
    let rest = strip_layout(s, e, x2, y1);
    assert(strip_layout(s, i, x, y) == chunk + rest);
    lemma_strip_layout_len(s, e, x2, y1);
    assert(s[k] <= s[k + 1]);
    if k + 1 < e {
        lemma_no_gap_in_strip(s, i, k + 1);
        assert((chunk + rest)[k - i] == chunk[k - i]);
        assert((chunk + rest)[k + 1 - i] == chunk[k + 1 - i]);
    } else if k + 1 == e {
        lemma_strip_end_within(s, i, k);
        lemma_strip_end(s, k + 1);
        assert(s[k + 1] - s[k] > 1);
        assert((chunk + rest)[k - i] == chunk[k - i]);
        assert((chunk + rest)[k + 1 - i] == rest[0]);
        lemma_strip_end(s, e);
        let e2 = strip_end(s, e);
        let w2 = steps(s, e, e2 - 1) + 1;
        let wrap2 = x2 > 0 && x2 + 1 + w2 > STRIP_ROW_SLOTS as int;
        let x3 = if wrap2 { 0 } else { x2 };
        let y3 = if wrap2 { y1 + 1 } else { y1 };
        let chunk2 = Seq::new((e2 - e) as nat, |j: int| (x3 + steps(s, e, e + j), y3));
        let rest2 = strip_layout(s, e2, x3 + steps(s, e, e2 - 1) + 2, y3);
        assert(rest == chunk2 + rest2);
        assert((chunk2 + rest2)[0] == chunk2[0]);
    } else {
        assert((chunk + rest)[k - i] == rest[k - e]);
        assert((chunk + rest)[k + 1 - i] == rest[k + 1 - e]);
        lemma_layout_neighbours(s, e, x2, y1, k);
    }
}

/// The first strip of a layout from `(x, y)`, with last position `m`,
/// starts at `(x, y)` unless the row holds something and the strip, after
/// one empty column, would overflow the row; then it starts the next row.
proof fn lemma_layout_wrap_first(s: Seq<u32>, i: int, x: int, y: int, m: int)
    requires
        non_decreasing(s),
        0 <= i <= m < s.len(),
        forall|j: int| i < j <= m ==> #[trigger] s[j] - s[j - 1] <= 1,
        m + 1 == s.len() || s[m + 1] - s[m] > 1,
    ensures
        ({
            let l = strip_layout(s, i, x, y);
            let width = l[m - i].0 - l[0].0 + 1;
            &&& l[m - i].1 == l[0].1
            &&& l[0] == if x > 0 && x + 1 + width > STRIP_ROW_SLOTS as int {
                (0int, y + 1)
            } else {
                (x, y)
            }
        }),
{
    lemma_strip_end(s, i);
    lemma_strip_by_keys(s, i, m);
    let e = strip_end(s, i);
    let w = steps(s, i, e - 1) + 1;
    let wrap = x > 0 && x + 1 + w > STRIP_ROW_SLOTS as int;
    let x1 = if wrap { 0 } else { x };
    let y1 = if wrap { y + 1 } else { y };
    let chunk = Seq::new((e - i) as nat, |j: int| (x1 + steps(s, i, i + j), y1));
    let x2 = x1 + steps(s, i, e - 1) + 2;
    let rest = strip_layout(s, e, x2, y1);
    assert(strip_layout(s, i, x, y) == chunk + rest);
    assert((chunk + rest)[0] == chunk[0]);
    assert((chunk + rest)[m - i] == chunk[m - i]);
}

/// A strip starts on a new row exactly when the row already holds something
/// and the strip, after one empty column, would not fit in the row's 16
/// slots; its width is the number of columns it spans, one per distinct key.
/// Here `k` is where the strip starts (the layout's start, or a key more
/// than one above the key before), `m` is its last position (the run of
/// keys stepping by at most one ends there), and `(px, py)` is where the
/// layout stands before it: `(x, y)` at the start, otherwise two columns
/// after the previous tile's slot, on its row.
pub proof fn lemma_layout_wrap(s: Seq<u32>, i: int, x: int, y: int, k: int, m: int)
    requires
        non_decreasing(s),
        0 <= i <= k <= m < s.len(),
        k == i || s[k] - s[k - 1] > 1,
        forall|j: int| k < j <= m ==> #[trigger] s[j] - s[j - 1] <= 1,
        m + 1 == s.len() || s[m + 1] - s[m] > 1,
    ensures
        ({
            let l = strip_layout(s, i, x, y);
            let px = if k == i { x } else { l[k - 1 - i].0 + 2 };
            let py = if k == i { y } else { l[k - 1 - i].1 };
            let width = l[m - i].0 - l[k - i].0 + 1;
            &&& l[m - i].1 == l[k - i].1
            &&& l[k - i] == if px > 0 && px + 1 + width > STRIP_ROW_SLOTS as int {
                (0int, py + 1)
            } else {
                (px, py)
            }
        }),
    decreases s.len() - i,
{
    if k == i {
        lemma_layout_wrap_first(s, i, x, y, m);
    } else {
        lemma_strip_end(s, i);
        let e = strip_end(s, i);
        let w = steps(s, i, e - 1) + 1;
        let wrap = x > 0 && x + 1 + w > STRIP_ROW_SLOTS as int;
        let x1 = if wrap { 0 } else { x };
        let y1 = if wrap { y + 1 } else { y };
        let chunk = Seq::new((e - i) as nat, |j: int| (x1 + steps(s, i, i + j), y1));
        let x2 = x1 + steps(s, i, e - 1) + 2;
        let rest = strip_layout(s, e, x2, y1);
        assert(strip_layout(s, i, x, y) == chunk + rest);
        lemma_strip_layout_len(s, e, x2, y1);
        if k < e {
            lemma_no_gap_in_strip(s, i, k);
        }
        assert(k >= e);
        assert((chunk + rest)[k - i] == rest[k - e]);
        assert((chunk + rest)[m - i] == rest[m - e]);
        if k == e {
            assert((chunk + rest)[k - 1 - i] == chunk[k - 1 - i]);
            lemma_layout_wrap_first(s, e, x2, y1, m);
        } else {
            assert((chunk + rest)[k - 1 - i] == rest[k - 1 - e]);
            lemma_layout_wrap(s, e, x2, y1, k, m);
        }
    }
}
/// Slots of the layout from `(x, y)` stay within `2 * (remaining tiles)`
/// columns of `x` and `remaining tiles` rows of `y`.
pub proof fn lemma_layout_bounds(s: Seq<u32>, i: int, x: int, y: int, k: int)
    requires
        0 <= i,
        0 <= k < s.len() - i,
        0 <= x,
        0 <= y,
    ensures
        0 <= strip_layout(s, i, x, y)[k].0 <= x + 2 * (s.len() - i),
        0 <= strip_layout(s, i, x, y)[k].1 <= y + (s.len() - i),
    decreases s.len() - i,
{
    lemma_strip_end(s, i);
    let e = strip_end(s, i);
    let w = steps(s, i, e - 1) + 1;
    let wrap = x > 0 && x + 1 + w > STRIP_ROW_SLOTS as int;
    let x1 = if wrap { 0 } else { x };
    let y1 = if wrap { y + 1 } else { y };
    let chunk = Seq::new((e - i) as nat, |j: int| (x1 + steps(s, i, i + j), y1));
    let x2 = x1 + steps(s, i, e - 1) + 2;
    let rest = strip_layout(s, e, x2, y1);
    assert(strip_layout(s, i, x, y) == chunk + rest);
    lemma_steps_bound(s, i, e - 1);
    if k < e - i {
        lemma_steps_bound(s, i, i + k);
        assert((chunk + rest)[k] == chunk[k]);
    } else {
        lemma_strip_layout_len(s, e, x2, y1);
        assert((chunk + rest)[k] == rest[k - (e - i)]);
        lemma_layout_bounds(s, e, x2, y1, k - (e - i));
    }
}

/// The tiles after `group_by_strip`: each tile of `before`, taken in the
/// order `perm`, sits in its slot of the strip layout at the placed scale.
pub open spec fn laid_in_strips(before: Seq<TileState>, perm: Seq<usize>, after: Seq<TileState>) -> bool {
    &&& after.len() == before.len()
    &&& forall|k: int|
        0 <= k < perm.len() ==> after[#[trigger] perm[k] as int] == place(
            before[perm[k] as int],
            strip_target(strip_layout(keys_in_order(before, perm), 0, 0, 0)[k]),
        )
}

/// The slot of the `k`-th tile along `perm`, as an integer pair.
proof fn lemma_strip_slot(before: Seq<TileState>, perm: Seq<usize>, after: Seq<TileState>, k: int)
    requires
        is_stable_order(keys_of(before), perm),
        before.len() <= MAX_STRIP_TILES,
        laid_in_strips(before, perm, after),
        0 <= k < perm.len(),
    ensures
        after[perm[k] as int].target is Strip,
        after[perm[k] as int].target->Strip_col as int == strip_layout(keys_in_order(before, perm), 0, 0, 0)[k].0,
        after[perm[k] as int].target->Strip_row as int == strip_layout(keys_in_order(before, perm), 0, 0, 0)[k].1,
        after[perm[k] as int].xy == before[perm[k] as int].xy,
{
    let s = keys_in_order(before, perm);
    lemma_strip_layout_len(s, 0, 0, 0);
    lemma_layout_bounds(s, 0, 0, 0, k);
    assert(after[perm[k] as int] == place(before[perm[k] as int], strip_target(strip_layout(s, 0, 0, 0)[k])));
}

/// The keys along a stable order never decrease.
proof fn lemma_keys_in_order_sorted(before: Seq<TileState>, perm: Seq<usize>)
    requires
        is_stable_order(keys_of(before), perm),
    ensures
        non_decreasing(keys_in_order(before, perm)),
        keys_in_order(before, perm).len() == before.len(),
{
    let s = keys_in_order(before, perm);
    assert forall|p: int, q: int| 0 <= p <= q < s.len() implies s[p] <= s[q] by {
        lemma_stable_order_sorted(keys_of(before), perm, p, q);
    }
}

/// Neighbours along the stable order after `group_by_strip`: a tile whose
/// cell is the next one to the right of the previous tile's cell takes the
/// next column of the same row; a tile of the same cell takes the same slot;
/// and after a key gap of more than one the next strip starts either two
/// columns on, leaving one empty column, or at the first column of the next
/// row; it is never drawn in the column right after.
pub proof fn lemma_strip_neighbours(before: Seq<TileState>, perm: Seq<usize>, after: Seq<TileState>, k: int)
    requires
        is_stable_order(keys_of(before), perm),
        before.len() <= MAX_STRIP_TILES,
        laid_in_strips(before, perm, after),
        0 <= k,
        k + 1 < perm.len(),
    ensures
        ({
            let a = before[perm[k] as int].xy;
            let b = before[perm[k + 1] as int].xy;
            let t = after[perm[k] as int].target;
            let u = after[perm[k + 1] as int].target;
            &&& t is Strip && u is Strip
            &&& b == a ==> u == t
            &&& b == a + 1 ==> u->Strip_col == t->Strip_col + 1 && u->Strip_row == t->Strip_row
            &&& b > a + 1 ==> ((u->Strip_col == t->Strip_col + 2 && u->Strip_row == t->Strip_row) || (
            u->Strip_col == 0 && u->Strip_row == t->Strip_row + 1))
            &&& b > a + 1 ==> !(u->Strip_col == t->Strip_col + 1 && u->Strip_row == t->Strip_row)
        }),
{
    let s = keys_in_order(before, perm);
    lemma_keys_in_order_sorted(before, perm);
    lemma_strip_slot(before, perm, after, k);
    lemma_strip_slot(before, perm, after, k + 1);
    lemma_layout_neighbours(s, 0, 0, 0, k);
    assert(s[k] == before[perm[k] as int].xy);
    assert(s[k + 1] == before[perm[k + 1] as int].xy);
}

/// Where a strip starts after `group_by_strip`. Let the strip run along the
/// stable order from position `k` (the first tile, or a tile whose key is
/// more than one above the key before) to position `m` (its keys step by at
/// most one, and the next key, if any, is more than one above). The strip
/// lies on one row and spans one column per distinct cell. It starts where
/// the layout stands, `(0, 0)` for the first tile and otherwise two columns
/// after the previous tile's slot on its row, unless that row already holds
/// something and the strip, after one empty column, would overflow its 16
/// slots; then it starts at the first column of the next row.
pub proof fn lemma_strip_wrap(
    before: Seq<TileState>,
    perm: Seq<usize>,
    after: Seq<TileState>,
    k: int,
    m: int,
)
    requires
        is_stable_order(keys_of(before), perm),
        before.len() <= MAX_STRIP_TILES,
        laid_in_strips(before, perm, after),
        0 <= k <= m < perm.len(),
        k == 0 || before[perm[k] as int].xy - before[perm[k - 1] as int].xy > 1,
        forall|j: int|
            k < j <= m ==> before[#[trigger] perm[j] as int].xy - before[perm[j - 1] as int].xy <= 1,
        m + 1 == perm.len() || before[perm[m + 1] as int].xy - before[perm[m] as int].xy > 1,
    ensures
        ({
            let tk = after[perm[k] as int].target;
            let tm = after[perm[m] as int].target;
            let px: int = if k == 0 { 0 } else { after[perm[k - 1] as int].target->Strip_col + 2 };
            let py: int = if k == 0 { 0 } else { after[perm[k - 1] as int].target->Strip_row as int };
            let width = tm->Strip_col - tk->Strip_col + 1;
            let wrap = px > 0 && px + 1 + width > STRIP_ROW_SLOTS as int;
            &&& tk is Strip && tm is Strip
            &&& tm->Strip_row == tk->Strip_row
            &&& wrap ==> tk->Strip_col == 0 && tk->Strip_row == py + 1
            &&& !wrap ==> tk->Strip_col == px && tk->Strip_row == py
        }),
{
    let s = keys_in_order(before, perm);
    lemma_keys_in_order_sorted(before, perm);
    lemma_strip_slot(before, perm, after, k);
    lemma_strip_slot(before, perm, after, m);
    if k > 0 {
        lemma_strip_slot(before, perm, after, k - 1);
        assert(s[k] - s[k - 1] > 1);
    }
    assert forall|j: int| k < j <= m implies #[trigger] s[j] - s[j - 1] <= 1 by {
        assert(before[perm[j] as int].xy - before[perm[j - 1] as int].xy <= 1);
    }
    if m + 1 < perm.len() {
        assert(s[m + 1] - s[m] > 1);
    }
    lemma_layout_wrap(s, 0, 0, 0, k, m);
}

} // verus!
