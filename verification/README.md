# rpick

A video file manager and organizer: it scans a folder tree for videos,
caches their metadata, finds duplicates by content hash, and renames files
(cleaning special characters, adding or fixing `[MM:SS]` duration prefixes).

- `src/` is the verified library (Verus): text handling, path pieces, the
  deleted-hashes store and its file format, the renaming and duplicate
  rules, and the decisions the commands take. Calls into `hex`, `blake3`
  and std's Unicode tables go through a few trusted wrappers, each with the
  contract its source shows.
- `app/` is the command-line program: argument parsing, file and process
  I/O, progress bars, the JSON cache (its records hold floats), and OCR.
- `tests/` runs the library on concrete values.
