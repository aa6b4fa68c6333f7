# jadedb

The verified core of an LSM-tree storage engine, and the `jade` command around it.

The core (`src/`) holds the state of an open database and never touches a file. An operation that
needs the disk is a run of steps: a step says what is to be read or written, and the next one is
taken once that has happened. `app/` carries out the steps on real files, under one lock, with flush
and compaction in the background.

| Module | What it holds |
|---|---|
| `key`, `codec`, `frame`, `text`, `checksum` | internal keys and their order, byte layouts, framed records |
| `wal`, `manifest` | the write-ahead log and the log of table files |
| `memtable`, `sstable` | records in memory and on disk: blocks, index, filter, table files, lookups |
| `iter`, `version`, `compact` | merging, levels, leveled compaction |
| `db` | the database: write, read, scan, flush, compaction, snapshots, recovery |
| `model`, `tree` | what a run of records, and the levels of the tree, mean to a reader |
| `laws` | what holds of the database as a whole |

Among the laws: what was put is read back and what was deleted is not; a snapshot is not disturbed
by later writes; freezing and flushing change no read; compacting changes none of a reader at an open
snapshot or without one; below level 0 tables never overlap; a scan gives exactly what single reads
give; and a database that is opened again after a crash, be it in the middle of a flush, of a
compaction or of a write, is sound and reads as before.

Durability: table, fsync, manifest, and only then may the log go. Each step of a flush, of a
compaction and of a write hands out a value that only the step before it can have made, and that says
whether an fsync is still owed; the next step takes it and asks that none is. So a memtable goes only
for the table that was made from it, and the log only once nothing in memory needs it.
