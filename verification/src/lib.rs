//! Verified state and layout logic for the sparse-strip animation deck:
//! the slide/phase state machine, the packing of tile coordinates, the
//! stable ordering of tiles, their grouping into cells and strips, and the
//! per-frame plan of which tiles are drawn how.

pub mod stage;
pub mod layout;
pub mod order;
pub mod grouping;
pub mod anims;
pub mod coverage;
