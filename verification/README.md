# search_index

A trigram index over the files of a project, with grep, glob and lexical ranking on top of it.

- `src/` is the library. Everything in it is checked by Verus: the index and its changes
  (`index`, `ingest`, `ledger`, `refresh`), queries and searches (`query`, `snapshot`, `search`,
  `grep`, `lexical`, `ranking`), the cache file (`records`, `merge`, `segment_window`,
  `stream_merge`, `format`, `cache_stream`, `cache_read`, `cache_load`, `compact`, `builder`), paths
  (`path`, `path_text`, `path_table`), project keys (`artifact`), and waiting for a lock (`waiting`).
  The modules whose names end in `_laws`, and `completeness`, `round_trip` and `upkeep`, state what
  holds of several functions together. `outside` holds every call into another crate, with the
  contract that is relied on.
- `app/` walks directories, reads and writes files, runs git, and hands what it finds to the library.
- `tests/` runs the library on projects that are held in memory.
