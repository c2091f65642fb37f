# rustweek_anims

The sparse-strip animation deck from a talk on 2D vector rendering: an
outline is flattened, walked segment by segment and cut into 4x4 tiles,
and the tiles are then sorted, grouped by cell, shown with their coverage
alphas, laid out in strips and finally sent home to their cells.

- `src/` is the verified library (Verus): the slide and phase state
  machine (`stage`, `anims`), tile keys and grid cells (`layout`), the
  stable order of tiles and its inverse (`order`), grouping by cell and
  the strip layout (`grouping`), and coverage alphas (`coverage`).
- `app/` is the drawing side, on vello and parley: outlines, text, tile
  clipping and sampling, animation easing, and painting each frame from
  the plan that the library returns. The tile rasterizer and the text
  renderer are supplied by the caller through its `StripKit` trait.
- `tests/` exercises the library on concrete decks.
