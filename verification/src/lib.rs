// Encoding and decoding of grid puzzles: grids with views into them, a
// base-27 packing of base-3 digits, and the text of Yin-Yang puzzles.

pub mod common;
pub mod grid;
pub mod yinyang;
