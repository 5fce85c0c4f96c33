# amiga_rdb

Amiga Rigid Disk Block (RDB) partition tables, verified with Verus: `RDSK`,
`PART`, `FSHD`, `LSEG` and `BADB` blocks, their checksums, and the `DosEnvec`
geometry that says where each partition lives and how to mount it.

- `Rdb::parse` reads a table from anything that can read fixed-size blocks
  (`BlockSource`); `Rdb::validate` and `Rdb::validate_seg_lists` report blocks
  with two owners.
- `RdbBuilder` creates a table: the whole layout is computed and checked before
  the first block is written (`BlockSink`), and the `RDSK` block goes out last.
- `RdbEditor` edits a table in place. It keeps every byte it has no name for,
  writes only inside the RDB area, and orders its writes so that an interrupted
  commit leaves the old table or the new one.
- `PartitionSource` and `PartitionSink` show one partition as a device.

## Layout

- `src/` is the library. The contracts speak of a device as a `Medium`, of a
  builder as a `Request`, and of an editor as a `Table`. `build_laws.rs`,
  `commit_laws.rs`, `crash_laws.rs`, `edit_laws.rs`, `in_place_laws.rs` and
  `open_laws.rs` hold what follows from the contracts: that a built or committed
  table reads back, what an interruption leaves, what an accepted edit promises.
- `tests/` runs it.
- `app/` is ordinary Rust around it: byte streams as devices, `std` errors, and a
  listing of an image file.
