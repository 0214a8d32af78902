# ceredb

A key-value store built as a log-structured merge tree: a memtable and a write-ahead log
in front, sorted tables in levels behind, a manifest that lists the tables, and optional
replication by Raft.

`src/` is the library: formats, memtables, tables, lookups, scans, flushes, compactions,
recovery, the manifest, the command language and the settings. The functions there have
contracts that Verus proves, but for the calls into other crates and std, which stand
behind small functions marked `external_body`, each with what is claimed of the call.
Files, sockets and tasks are not part of it. Where an operation needs them, the library
says what to do next (read this table, write these bytes, remove that file) and is told
what came of it.

`app/` is the program around the library: it opens files, runs the tasks, speaks HTTP to
the other nodes and reads the command line.

| Module | What it has |
| --- | --- |
| `bytes`, `cursor`, `order`, `text` | numbers, keys and text as bytes |
| `command`, `repl`, `api`, `config`, `error` | the command language and the settings |
| `storage::record`, `block`, `index`, `footer`, `bloom`, `checksum` | the parts of a table |
| `storage::memtable`, `keymap`, `keyed` | sorted records in memory |
| `storage::writemanager` | numbering, packing into blocks, flushes |
| `storage::readmanager` | lookups and scans |
| `storage::compactionmanager` | choosing and merging tables |
| `storage::recovermanager`, `log_format`, `wal` | the write-ahead log and its directory |
| `storage::manifest_codec`, `manifest_state` | the manifest |
| `storage::kv`, `kv2` | the plain and the versioned store |
| `storage::raft` | the replicated log and the state machine |
| `storage::history` | what holds of a store as a whole |
| `storage::durable` | what holds of a store and its files |

`storage::history` is the place to start: `law_store_is_a_map` says that a store, whatever
was written, flushed and merged, has the last value of each key; `law_lookup_gives_value`
and `law_scan_gives_contents` say that lookups and scans give just that. In
`storage::durable`, `law_log_has_changes_since_flush` and `law_restart_restores_store` say
that a store can be opened again as it was.
