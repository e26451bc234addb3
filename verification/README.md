# slimsync

An edge synchronisation client: it watches directories, slices changed files into chunks, encrypts
them and puts them on a bus. What the client decides is a library whose functions carry contracts
that Verus proves; the program around it does the reading, sending and waiting.

## The library, `src/`

| Module | What it decides |
|--------|-----------------|
| `slicer` | how a file is cut: `slicer::ast` at paragraphs, `slicer::cdc` by content |
| `crypto` | how a chunk is sealed and opened |
| `bus` | which chunks go out together, seal signals, answers to gap queries |
| `segment` | which files are log segments, and what a restart sends of them |
| `file_events` | how a change of a file is marked, sent and recorded |
| `segment_events` | how a change of a segment completes and seals the earlier ones |
| `cold_start` | what a restart takes up, and in which order |
| `tracker` | which events count, and where a changed file is continued |
| `ledger`, `table` | what was sent, what is dirty, what is watched |
| `scanner`, `platform` | what a scan reports and what a system event means |
| `config`, `ipc` | the configuration and the control socket |
| `text`, `paths`, `numbers` | strings, paths and integers |

Work that needs the outside world is asked for step by step: `bus::FileJob`,
`file_events::FileRun`, `segment_events::SegmentRun`, `cold_start::ColdRun` and `ipc::Connection`
say what they need next and take the answer.
The ledger keeps its rows in memory and hands out its changes, which the program stores.

Laws that relate several functions are public proof functions named `law_...`, next to the
functions they speak of.

## The program, `app/`

The command line, the daemon, SQLite, zenoh, the file system and the control socket. Frames and
topics come from the shared `slim_common` crate of the services.
