# MemMapFS

A database-less, local-first memory and state store for AI agents, verified
with Verus.

The store keeps memories, streams, sessions and key/value pairs. Everything it
accepts is recorded in a binary append-only write-ahead log, and the bytes of
memories and streams go to append-only chunk files. A full-text index finds
memories by what they say, and the agent's state is published on a watch
channel.

```
.memmap_fs_root/
├── state.wal          # write-ahead log: u64 length, bincode payload
├── index/             # Tantivy full-text index
└── blocks/            # chunk files of up to 64 MiB
    ├── chunk_0000.bin
    └── chunk_0001.bin
```

## Layout

`src/` is the library. It decides everything and touches no file. Every function
is verified against its contract, but for the small trusted ones that are named
at the end.

| Module | Responsibility |
|---|---|
| `fs` | `MemMapFS`: requests on their way to the files, queries, recovery |
| `engine` | `MemMapEngine`: the in-memory index, rebuilt by replaying the log |
| `storage` | `LogManager`: the framing and replay of the log |
| `codec` | the payload of each log command, through bincode |
| `blocks`, `chunk_name` | `BlockStorage`: where blocks go, how they are read back |
| `stream` | `StreamReader`: reading streams block by block |
| `search` | what is indexed, and what is made of the index's answers |
| `session` | sessions and the order in which they are listed |
| `watch` | the channel on which the agent's state is published |
| `bytes`, `text`, `error` | little-endian integers, strings, errors |

`app/` is the program around it: files, memory mappings, the Tantivy index, and
the asynchronous interface.

## What is proved

Beside the contract of each function, public proof functions state what the
store promises as a whole. Among them:

- replaying the log gives back every recorded command in order, and ignores an
  entry that was cut short at the end (`replay_recovers_recorded_commands`);
- however often the machine stops while an entry is being written, no recorded
  command is lost (`crashes_lose_no_command`);
- a complete entry that holds no command is reported with its offset
  (`replay_reports_corruption`);
- a restart keeps memories, values, streams and sessions
  (`restart_keeps_contents`), and never assigns the id of a recovered memory
  (`recovered_next_id_is_fresh`);
- a memory comes back as it was given (`appended_memory_is_returned`);
- a query returns at most twenty texts, and exactly twenty where it finds more
  (`query_returns_twenty_at_most`);
- no document that a search finds is dropped, and its limit is the only cut
  (`every_document_gives_a_hit`, `limit_is_the_only_cut`); the ids of a search
  are the keys of the hits that are memories (`ids_are_keys_of_memory_hits`);
- reads give a stream back whole and in order (`reads_give_stream_back`);
- sessions are listed newest first, each exactly once (`newest_first_sorts`).

Trusted are the calls into bincode, Tokio's watch channel and
`String::from_utf8_lossy`; each stands behind a small function that says what is
claimed of it.
