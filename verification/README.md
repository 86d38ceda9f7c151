# channarr

A server for IPTV channel playlists, with a verified M3U playlist parser at its core.

- `src/` is the library, verified with Verus:
  - `m3u.rs`: the playlist types, `parse`, the per-line reading of a playlist (`step`,
    `run_lines`, `parsed`) that `parse`'s contract states its result by, the entry accessors
    and the error messages;
  - `grammar.rs`: how the input splits into lines and what each line holds, as spec functions
    with one executable function per grammar rule;
  - `attributes.rs`: attribute values and the table of attributes, modelled as a map;
  - `text.rs`: whitespace, trimming, decimal numbers and other character-level helpers;
  - `laws.rs`: properties proved of every playlist that `parse` accepts.
- `tests/` runs the parser on concrete playlists.
- `app/` is the server binary: command line, SQLite database and HTTP router.

An `#EXTINF` duration is kept as its decimal text (`Entry::duration`); callers that want seconds
convert it with `str::parse::<f64>`, which accepts every such text.
