# synology-filestation-mount

What a mount of a Synology file station says about itself while it runs, and which
way it reaches the server, written in Rust and proved with Verus.

- `src/` is the library. It decides: where a log file may be, when it rotates and in
  which order, which records are forced down to the disk, what a log level means,
  where each record goes, and which leg a mount moves to. Every function has its
  contract, and `src/disk.rs` proves what holds of the files on the disk after any
  records.
- `app/` does what the library decides: it opens files, installs the `tracing`
  subscriber, calls back, and runs the watch for a better leg.
- `tests/` run the library on concrete values.
