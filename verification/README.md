# jackynet

A lightweight network monitor for Linux: which processes use the
connection right now (from `nethogs`), how much each interface moved per
day and month (from `vnstat`), per-interface session totals read from the
kernel's counters, user-defined alerts, aliases and a small overlay window.

The decisions of the monitor are a library verified with Verus; the
desktop shell around it is ordinary Rust.

## Layout

- `src/` — the verified library.
  - `text.rs` — trimming, splitting, number parsing and formatting on characters.
  - `keyed.rs` — a vector of entries keyed by distinct strings, viewed as a map.
  - `clock.rs` — instants and the calls into `chrono` (clock, date parsing).
  - `config.rs` — the settings, their changes (aliases, alerts, pause state) and where they live.
  - `iface_stats.rs` — interface snapshots and the per-interface session totals.
  - `alerts.rs` — alert conditions, durations and what is remembered between evaluations.
  - `nethogs.rs` — the trace lines of `nethogs`, process identities, refresh frames and session totals.
  - `vnstat.rs` — the `vnstat --json` document read into per-interface usage, newest first.
  - `shortcut.rs` — hotkey texts and tray menu items.
  - `commands.rs` — ending a process step by step, and which windows to show or hide.
- `tests/` — tests of the library on concrete values.
- `app/` — the Tauri application: windows, tray, hotkey, the sampler loop,
  file and process I/O, and the JSON forms of the library's types.
