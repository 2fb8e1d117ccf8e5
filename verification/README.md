# zdu

Zenithsiz's Disk Usage: scans a directory tree into a compact archive, then
analyzes it (a tree of sizes, sorted and grouped), compares two archives, or
finds duplicated files. The library is written in Verus: each function's
contract says what it computes, and Verus proves it.

## Layout

- `src/archive.rs`, `src/archive/`: the archive format. `export` writes it,
  `import` reads it back, and `roundtrip` proves that what one writes the other
  reads.
- `src/scan.rs`: what a scan does with each entry of the filesystem, and the
  scanner that writes the archive as the filesystem walk reports entries.
- `src/analyze.rs`, `src/analyze/`: the lines of the analysis of an archive.
- `src/compare.rs`: the lines of the comparison of two archives.
- `src/find_duplicates.rs`: the walk that lists the files of an archive, the
  bookkeeping of their digests, and the groups of duplicates.
- `src/tree_display.rs`, `src/stats.rs`, `src/util/`: the tree's prefixes,
  statistics, variable-length integers, stable sorting and byte strings.
- `app/`: the command line program around the library: arguments, the
  filesystem walk, reading and writing files, hashing files and printing.
- `tests/`: tests of the library on concrete archives and values.
