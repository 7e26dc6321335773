# dff — duplicate file finder, verified core

`dff` scans a directory, finds files with identical content (same size, same
quick fingerprint of their first and last 4 KB, same SHA-256 digest) and lets
the user mark and delete copies in a terminal interface.

## Layout

- `src/` — the library, verified with Verus:
  - `scanner`, `scan_steps`, `grouping`, `hashing`, `sorting`, `keys`, `paths`:
    from scanned files to duplicate groups (the phases of a scan and when it
    ends, the bytes of the quick fingerprint, candidates by size and by quick
    hash, groups by digest, files ordered by path components, groups by
    wasted bytes).
  - `app`, `deletion`, `input`, `session`: the interactive session — the flat
    index over all groups, navigation, marking, deletion and its pruning of
    the groups, keys and mouse events, status messages, progress and time.
  - `view`, `shorten`, `text`: what the screen shows, as plain values: rows,
    header, status line, gauge, confirmation; path shortening; byte counts.
  - `size_arg`, `binary64`: the `--min-size` argument, read exactly as binary64
    arithmetic reads it, with that arithmetic modelled in integers.
  - `laws`: properties that span several operations.
- `app/` — the program: command line, terminal, directory walk, file reads,
  deletion on disk, opening files, drawing with ratatui.
- `tests/` — tests of the library.
