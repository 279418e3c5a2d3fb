# shadowcatch

Capture settings and pipeline logic for a viewer of the ShadowCast 3 Pro
capture device (GTK 4, GStreamer, V4L2, PipeWire/PulseAudio), written in
Verus.

- `src/` is the verified library:
  - `text` — characters, whitespace, trimming, lines, searching, decimal numbers;
  - `order` — sorted key sets (no duplicates) and stable sorting, with their laws;
  - `sets` — sorted readings of `BTreeSet`s of numbers and pairs;
  - `formats` — reading `v4l2-ctl --list-formats-ext`, the capture-mode choices;
  - `devices` — video nodes, PipeWire/Pulse sources and ALSA cards, their order;
  - `capture` — the GStreamer pipeline description, warm-up decisions and the
    events of a warm-up run, events, the once-a-second statistics;
  - `ui` — what the settings panel offers and selects, what is remembered, label texts.
- `app/` is the program around it: running `v4l2-ctl`, `pactl` and `arecord`,
  reading `/sys`, GStreamer and GTK, the settings file, and the parts that
  need floating point (frame rates such as `59.940`, bit rates, byte sizes).
- `tests/` runs the library on concrete values.
