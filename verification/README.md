# cp2

A file synchroniser in the manner of rsync, with its rules proved in Verus.

`src/` is the library: everything that a synchronisation decides or computes,
as functions from plain values to plain values, each with a contract.

| Module | What it holds |
|--------|---------------|
| `text`, `path`, `host`, `order`, `spans` | strings, paths and how each operating system writes them, sorting, cutting ranges |
| `filter` | include and exclude patterns |
| `linkpolicy` | permission bits, link classes, rewriting of link targets |
| `scanner`, `scan` | what each object found on a walk contributes, and the manifest of a tree |
| `wire`, `protocol`, `handshake` | file lists and frames |
| `planner` | which files are created, updated, deleted or skipped |
| `strategy`, `basis` | how a file's content travels, and which sibling it resembles |
| `sender`, `transfer`, `session`, `verify` | the sending side: routes, schedule, phases, removal of sources |
| `receiver`, `inflight`, `sparse`, `sigcache` | the receiving side: placing, applying, what is in flight, holes, cached signatures |
| `executor`, `serve`, `watcher` | options, requests of clients, waiting for changes |
| `address` | local and remote locations |
| `digest`, `stats`, `test_fuzz` | digests, reports, a deterministic generator for tests |

What holds for all inputs and relates several functions is stated as a proof
function named `law_...` beside them.

`app/` is the file system, the clock and the tasks around the library. A session
runs over a `Transport` for frames, an `Engine` for deltas and a `Platform` for
what differs between operating systems.
