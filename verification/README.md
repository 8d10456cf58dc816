# moc

Multi-Order Coverage maps (MOCs) of the HEALPix sky tessellation, stored as sorted,
non-overlapping ranges of cell indices at depth 29, written in Verus.

- `src/` is the verified library: the range lists and their boolean operations
  (`ranges.rs`, `moc_ranges.rs`), building from cells of a fixed depth (`cells.rs`, `builder.rs`),
  the MOC type and its iterators (`range_moc.rs`), splitting into cells, expansion and borders
  (`hpx.rs`), MOCs made of whole cells of their depth (`resolution.rs`), conversion to smaller index types (`convert.rs`), MOCs from ranges of cells of a depth such as
  those of a BMOC (`bmoc.rs`) and
  the properties of the operations taken together (`laws.rs`). The calls into the standard
  library's sort and into `cdshealpix` are in `trusted.rs`.
- `app/` builds MOCs from sky coordinates and regions given as floating-point values, turning
  the BMOCs of `cdshealpix` into plain ranges for the library.
- `tests/` exercises the library.
