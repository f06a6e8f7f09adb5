# lele_download

The core of a multi-threaded download manager (a Tauri desktop app with a local
HTTP bridge for browser extensions), written in Verus.

- `src/` — the verified library:
  - `chunks` — splitting a file into byte ranges, resume decisions, `Range`
    headers and the other per-download decisions;
  - `filename` — percent-decoding, `content-disposition` parsing, file-name
    sanitising and choosing, chunk-file recognition;
  - `sizes` — human-readable byte counts and the free-space check (the `f64`
    arithmetic they rely on is computed exactly with integers);
  - `task` — task status, settings, configuration limits, and the task table
    with its read-after-write laws;
  - `bridge` — request parsing, authorisation, routing, replies and URL checks
    of the local HTTP bridge;
  - `folders` — folder-picker output and the folder to open;
  - `text`, `urls` — character-level helpers and the few calls into `std` and
    the `url` crate whose results the contracts name.
- `tests/` — tests on concrete values, including comparisons of the integer
  renderings with `f64` formatting and of the text helpers with `std`.
- `app/` — the desktop program around the library: Tauri commands, the
  network and disk work of downloads, the SQLite store and the bridge's sockets.
