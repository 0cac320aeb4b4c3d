# apiary

The logic of a few small Linux desktop tools, written in Verus and proved
against its specifications, with a thin unverified program around it.

- `src/` — the verified library:
  - `text` — character-level string helpers (trimming, splitting, joining,
    decimal rendering) with their models.
  - `lcs` — longest-common-subsequence length and its tables.
  - `dictate` — the typing reconciler (multi-region character diff turned
    into cursor operations), transcript word diffs, PCM framing, and the
    decisions of the typist, the decoder and replay.
  - `sandbox`, `bwrap`, `invocation` — sandbox flags, the `bwrap`,
    `xdg-dbus-proxy` and `pasta` argument vectors, and the full sandbox
    invocation built from flags and a description of the host.
  - `generator` — wrapper scripts and `.desktop` patching.
  - `scoper` — slice and scope names for `systemd-run`.
  - `home` — which user units to stop and start between generations.
  - `keymap` — the virtual keyboard's XKB keymap.
  - `monitors` — monitor identity, connector names and the append-only
    monitor record.
- `app/` — the programs: argument parsing, processes, pipes, signals,
  Wayland, audio capture, speech recognition and the file system. The
  executable runs as the tool named by its file name or its first argument.
- `tests/` — tests of the library on concrete values.
