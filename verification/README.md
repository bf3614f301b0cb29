# propagation

An audio patch bay: capture devices are routed to playback devices through a
matrix of links that can be muted, devices can be given aliases, running
processes can be offered as inputs, and the whole set-up is saved to and
restored from a JSON file.

## Layout

- `src/` — the verified library (Verus).
  - `routing.rs` — the routing state (`Router`): active capture and playback
    streams and the links between them, kept mirrored on both sides, with the
    laws of connecting, disconnecting, muting and restoring a saved matrix.
  - `aliases.rs` — device aliases and the rename rule of the matrix.
  - `hosts.rs` — choosing the audio host at start-up and finding the saved one.
  - `devices.rs` — device listings and the input rows of the matrix.
  - `processes.rs` — the process list, sorted by name without regard to case.
  - `text.rs` — text helpers: substring search, order, decimal numerals.
  - `persistence.rs` — the saved records and the virtual-endpoint list.
- `app/` — the program around it: cpal streams and ring buffers, the audio
  callbacks, the egui window, and reading and writing the configuration file.
- `tests/` — tests of the library.
