# puzzles

Grids for puzzle boards and the text form of Yin-Yang puzzles, verified with Verus.

- `src/grid.rs`: `Shape`, `Stride`, the `Gridlike` / `GridlikeMut` traits,
  `Grid` (cells stored row by row), read-only and writable parts of a grid
  (`GridView`, `GridViewMut`) and the `Cells` iterator. Contracts speak of a
  grid through its shape, stride and buffer; laws cover index conversion,
  parts of grids, and writes read back.
- `src/common/lut.rs`: `AsciiLut`, tables between the characters of an ASCII
  alphabet and their positions, optionally case-insensitive.
- `src/common/base27.rs`: packing base-3 digits three to a character and back,
  with both round trips proved.
- `src/common/text.rs`: decimal text of integers, written and read back,
  and small character helpers.
- `src/yinyang.rs`: the `yinyang/<cols>/<rows>/<cells>` text of a board,
  written and read, with decoding of an encoded board proved to give it back.

The tests under `tests/` run the library on concrete boards and texts.
