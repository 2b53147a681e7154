# s3gateway

The storage engine of an S3-style object gateway. The library in `src/` is verified with Verus; it
decides everything and touches no disk. `app/` performs what it decides with system calls.

A request is a *plan*: a list of calls, each with a rule that says what its failure means, what is
undone when the request fails, and where nothing may be undone any more. A plan may end with a
question about the disk, and the answer leads to the next plan. `cas::task::Task` and
`filesystem::task::PlainTask` hand out one call or question at a time.

## The library

| Module | What it holds |
| --- | --- |
| `plan` | calls, questions and answers; where they point to on the disk; the runner of a plan |
| `cas` | the content-addressed store: objects, uploads in parts, listings, recovery, sweeps |
| `cas::model`, `cas::upload_model` | what a crash leaves behind, and what recovery makes of it |
| `cas::execution` | what a runner makes of a plan: a run of its steps, and what is undone on failure |
| `cas::flows`, `cas::upload_flows`, `cas::sweep`, `cas::restart` | what several requests, one after another, amount to |
| `cas::order` | the order in which locks are taken |
| `filesystem` | the store in the plain layout, its model, and requests one after another |
| `manifest`, `metadata`, `types` | the records, keys and names |
| `blob`, `aligned`, `directio`, `reader` | bodies: written in blocks, read back whole or in part |
| `listing`, `walk`, `sorting` | pages of keys, walks through trees, ordered lists |
| `path`, `text`, `numbers` | paths, text and decimal numbers |
| `outside` | the functions of other crates that are believed: MD5, hexadecimal, UUIDs |

Public proof functions state what holds of several operations together, for instance
`cas::model::commit_is_atomic`, `cas::model::recovery_keeps_live_objects`,
`cas::flows::put_object_is_read_back`, `cas::upload_flows::completed_object_is_read_back` and
`cas::browse::all_pages_make_one_listing`.

## Tests

`tests/` drives both stores against a disk in memory, with faults at chosen calls and with several
requests under way at once. `tests/units.rs` holds what needs no disk.
