# ncdu_core

The core of a disk usage analyzer, verified with Verus, and the program around it.

- `src/` is the library. Contracts speak of a tree as a value (`shape`: the
  entries of an arena and how they hang together), of a scan as what was found
  (`scan_parallel::Find`), of a dump as a JSON text (`json::Doc`) and of the
  browser as a state (`browser::BrowserState`).
- `app/` is the program: arguments, reading directories, `fnmatch`, `statfs`,
  running `xfs_quota`, deleting on disk, and the terminal. It hands the library
  plain values and does what the library decides.
- `tests/` run the library.

| Module | What it holds |
| --- | --- |
| `model` | arena tree, device table, paths |
| `shape`, `arena` | what an arena stands for, and when its links form a tree |
| `rings` | the circular list of the Links of an inode |
| `sink` | building a tree entry by entry, with totals |
| `scan`, `scan_parallel` | what a scan records of what it finds |
| `exclude` | exclude patterns, level by level |
| `json`, `json_export` | writing a dump in ncdu v2 format |
| `json_value`, `json_import` | reading one |
| `prune`, `delete` | the tree without an entry |
| `order`, `display`, `browser` | what is shown, and what a key does |
| `xfs_quota` | the project-quota fast-path |
| `round_trip`, `rescan`, `any_order`, `totals`, `exclude_laws` | laws that relate several of these |

What is believed without proof: what `serde_json` reads from a text and how it
writes a string, the clock, and `String::push`.
