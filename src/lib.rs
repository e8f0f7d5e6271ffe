//! Packs short symbol sequences onto a toroidal square grid.
//!
//! A sequence is laid along a row or a column, wrapping at the edge, and may
//! reuse cells that already hold the symbols it needs. The placement engine
//! greedily picks the cheapest slot for each sequence; the search driver
//! repeats that under random scan orders and keeps the best grid.

pub mod engine;
pub mod grid;
pub mod line;
pub mod render;
pub mod score;
pub mod search;

pub use engine::{place_all, place_one, place_sequences};
pub use grid::{blank_grid, count_unset, read_column, write_sequence, Grid};
pub use line::{empty_count, write_into, N};
pub use render::{render, render_row, FILLER};
pub use score::{grid_score, score, SCALE};
pub use search::{match_dna, Search};
