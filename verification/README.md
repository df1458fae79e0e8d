# vectordb

A durable LSM-tree storage engine and a workload generator to drive it, written in
Verus: the executable code carries contracts, and Verus proves them.

## Layout

- `src/` is the library. It does no I/O. The tree takes the contents of its files as
  bytes and hands out, as a list of disk actions, what has to be done on disk.
- `app/` puts those actions on a file system, and holds the few places that need
  floating point.
- `tests/` runs the library on concrete values.

| Module | What it is |
|---|---|
| `storage/memtable` | the ordered write buffer, with tombstones and a running account of its size |
| `storage/wal` | the write-ahead log: checksummed records, replay, recovery of a torn tail |
| `storage/block`, `sstable`, `reader` | tables: the format, writing, lookups and scans |
| `storage/bloom`, `crc32`, `codec`, `text`, `order` | filters, checksums, integers, numbers in text, key order |
| `storage/merge` | the merge of sources, the newest entry of a key first |
| `storage/manifest` | which runs are live, as checksummed text |
| `storage/run`, `coalesce`, `execute` | runs of tables, and what a compaction does to levels of them |
| `storage/shape` | the tree as growth schemes and merge policies see it |
| `storage/growth/` | when to compact: vertical, horizontal, vertiorizon, EcoTune |
| `storage/compaction/` | how to compact: leveling, tiering, fluid policies, and the models that choose between them |
| `storage/config`, `lsm`, `recovery` | the tree itself, and taking it up again from disk |
| `storage/vlog` | values apart from keys |
| `storage/tree`, `steps`, `disk` | what a tree is, what each operation makes of it, and what it asks of the disk |
| `storage/levels`, `leveled`, `ordering`, `weight`, `soundness`, `durability`, `history`, `limits`, `names`, `naming` | what holds of trees as a whole |
| `workload` | reproducible streams of operations |

## What is proved

Every executable function meets its contract, without overflow or panic. Laws that span
functions are public proof functions whose names begin with `law_`. Among them:

- a lookup gives back the last write of a key, and scans agree with lookups;
- flushing and compacting change no answer, and succeed on every tree that was made by
  the library's own operations, where all that it could write as a table fits the format:
  with any sizes of files and blocks while the tree holds less than 4 GiB
  (`law_small_trees_fit`), and however much it holds with files of up to 128 MiB
  (`law_small_files_fit`), or of up to 3 GiB with blocks that are neither tiny nor huge
  (`law_large_files_fit`);
- whatever action a crash comes after, the disk can be opened again and answers as the
  tree did: no acknowledged write is lost, and no deleted key comes back;
- logs, tables, filters, footers and manifests read back as they were written, and one
  changed byte is detected;
- a torn log loses only its torn tail;
- after any puts, deletes, flushes and compactions a tree opens again as it was closed;
- leveling keeps one run per level below level 0;
- the counters of the horizontal growth schemes tell how many flushes there were, or
  how many there are to come;
- no plan of merges scores higher than the schedule that EcoTune chooses;
- streams of operations with the same mix and seed are the same.
