# Folder watch

A watcher that scans a folder, emits a message about each file that was created,
modified or deleted since its last scan, and keeps what it needs between two scans
in a store.

- `src/` is the watcher's logic, verified with Verus. It does no input or output:
  a scan, an emission and a list of writes each say what has to be done next and
  are told how it went.
  - `filter`, `path`: which files are watched, and how their paths are read.
  - `scan`: the walk through the folder. `scan_laws` proves that it finds exactly
    the watched files, and comes to an end; `link_laws` that symbolic links make no
    difference to it; `depth_laws` what it finds below the folder.
  - `changes`: what changed between two scans. `change_laws` proves that nothing is
    reported twice, left out or reported without a change.
  - `json`, `emit`: the messages and their order.
  - `state`, `contract`, `report`: what is stored, and what callers are answered.
  - `cycle`: a scan from its start to its report. `cycle_laws` proves that nothing
    is stored before every change is sent.
  - `sink`: a sink that counts changes and drops them.
- `tests/` runs the library.
- `app/` connects it to the file system and to its host. A build for WebAssembly
  exports the watcher, or with `--cfg null_sink` the sink.
