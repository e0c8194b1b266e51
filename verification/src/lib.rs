//! A sliding-tile board game engine: a square grid of labeled tiles with a
//! one-cell border of empty buffer tiles, where whole rows and columns slide
//! by one cell at a time. The engine resolves continuous pointer drags into
//! direction-constrained shifts with smooth partial offsets, commits them as
//! discrete grid steps, and plays back a queued shuffle sequence with
//! time-based interpolation.

pub mod board;
pub mod game;
pub mod geometry;
pub mod shuffle;
