# xuts_file_backup

A one-way mirror backup tool (source tree A mirrored into target tree B, with a
file index, full-text search and hierarchical tags). The crate is split in two:

- `src/` — the verified library (Verus). It holds the mirror diff and its laws,
  scan filtering, the tag forest and its laws, the construction of the search
  statements, the sync bookkeeping, the watcher debounce state machine, cron
  validation and the migration plan.
  - `sync/path_map.rs` insertion-ordered path maps; `sync/filter.rs` a task's
    filter rules (`exclude_globs`, `max_size_mb`) read from their JSON text;
    `sync/scanner.rs` glob exclusion patterns (`*`, `?`, `**`), the size limit,
    the scan index and the directories to mirror; `sync/diff.rs` the diff (`compute_diff`) with the
    mirror laws; `sync/executor.rs` content hashes and run counters;
    `sync/engine.rs` stale directories, run report, log text.
  - `tags.rs` tag listing, the tag forest and the tag names (with ancestors)
    of a file's full-text entry; `search.rs` full-text terms and
    search statements; `task_manager.rs` task listing and lookups;
    `watcher.rs` background plans and debounce; `scheduler.rs` cron checks and
    delays; `db/migrations.rs` pending migrations; `tray.rs` tray menu entries;
    `order.rs` text order and stable sorts; `text.rs` character helpers;
    `error.rs` the library error.
- `app/` — the Tauri desktop program: SQLite access, file-system work, the
  notify watcher loop, the tokio scheduler loop and the commands.
- `tests/` — tests of the library on concrete values.
