# tinypng_cli

A batch image compressor built on the TinyPNG service, whose decisions are
written in Verus and proved against their contracts.

- `src/` is the verified library: the size syntax of `--min-size` (read as
  a double is read, then scaled and rounded exactly as the floating-point
  path does), the resolution of run settings from flags, file and
  defaults, the loading, merging and hashing of API keys, the key pool and
  its rotation, the classification of scanned files, what each reply of
  the service means, the per-file retry decisions, output paths, run
  summaries and exit codes, the `keys` and `config` subcommands' edits,
  and how byte counts are shown.
- `app/` is the program around it: command-line parsing, the TOML file,
  walking directories, HTTP, concurrency, the progress display and NDJSON
  output.
- `tests/` exercise the library, including differential checks of the
  size parser and the byte formatting against `f64`.

The outside calls the library makes (SHA-256, hex encoding, UUIDs, the
home directory, `str::to_lowercase` and the `std::path` operations) stand
behind small trusted wrappers whose contracts name what those calls
return.
