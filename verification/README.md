# sukari

Storage for the persistent state of Raft nodes: records of one or more nodes in shared append
segments, with recovery, replay, snapshot checkpoints, a node registry and whole-segment
garbage collection. What the storage does is stated in contracts and proved with Verus.

- `src/` is the library. It does no I/O: it decides which steps an operation takes on the
  files, and reads the contents of the files that it is handed.
- `app/` carries the steps out on a directory of a local file system.
- `tests/` runs the library over directories in memory.

What holds of the storage as a whole is stated by the public proof functions:

| Module | What it states |
| --- | --- |
| `round_trip` | a record body that can be written reads back, and no two records share one; counts read back |
| `frames` | frames read back; a frame that was not written to its end is cut off |
| `history` | a load gives what the records make up from the last checkpoint on |
| `recovery` | where a load starts does not matter, and loads of many nodes agree with loads of one, also over a torn segment |
| `durability` | what loads give after each operation; deleted segments are never needed |
| `operations` | creation, checkpoint and removal with all their consequences; loads after any sequence of operations and a reopening |
| `crash` | an interrupted operation leaves each node in its old or its new state |
| `reopen` | opening gives back what was stored, also after a torn write |
| `policy` | synchronization, rotation, reserved node IDs, gauges |
| `state` | payloads match the command entries of the log |

Trusted are the contracts of the calls into `noraft` (`src/raft.rs`), `nojson`
(`src/json.rs`) and two conversions of std (`src/bytes.rs`).
