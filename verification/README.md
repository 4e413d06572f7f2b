# rehash

A build cache. The key of a build is the BLAKE3 hash of its input files,
its command line, the search path and the toolchain; when the key is cached
the build's outputs are restored from a zstd-compressed archive instead of
running the build again. A daemon watches source files and drops the cached
builds that a changed file makes stale.

## Layout

- `src/` — the library, verified with Verus:
  - `key` — cache keys and their hex form;
  - `hasher`, `compress` — BLAKE3 hashing and zstd compression;
  - `entry`, `store` — cache entries and the metadata index, bounded in
    count, oldest entries dropped first;
  - `engine` — the cache engine: lookup, storing, size-bounded eviction and
    invalidation;
  - `stale` — which cached builds depend on a source file;
  - `cli`, `watch` — the decisions of the command-line tool and the daemon
    (build inputs, the key, the build lifecycle, request dispatch);
  - `error`, `text`, `names`, `heart` — supporting pieces.
- `app/` — the programs: argument handling, the file system, the index as
  JSON, tar archives, the IPC socket and the file watcher. Run as
  `rehash-daemon` it is the daemon, otherwise the `rehash` tool.
- `tests/` — tests of the library.
