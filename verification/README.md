# captui

A terminal UI to record the screen, a region, or just the sound on a wlroots
Wayland session. The logic is a library proved with Verus; the terminal,
process, Wayland and file handling sit around it.

## Layout

- `src/` — the verified library, with every public function's behaviour
  stated in its `requires` / `ensures` and proved:
  - `text.rs` — a character model of the `str` operations the parsers use
    (trim, split, lines, integer parsing, replacement, padding, ordering).
  - `sorting.rs` — a stable in-place sort by a total preorder, and why its
    result is unique.
  - `calendar.rs` — the proleptic Gregorian calendar, and the era arithmetic
    of the days-from-civil algorithm.
  - `json.rs` — JSON documents as plain values, read by serde_json.
  - `audio.rs` — audio sources from `pw-dump`, the recording target, pactl
    sink inputs.
  - `sources.rs` — capture sources, slurp geometry, `wlr-randr` parsing,
    reading order and layout hints.
  - `recorder.rs` — wf-recorder / wl-screenrec command lines, the
    transcription command, capture file names.
  - `picker.rs` — what each key does on each screen, list movement, the rows
    the picker shows, identify numbers.
  - `font.rs` — the digit font and painting a number into an ARGB canvas.
  - `meter.rs`, `config.rs` — the level bar and the settings.
- `app/` — the program: terminal drawing, running `wlr-randr`, `pw-dump`,
  `slurp` and the recorder, the Wayland identify overlay, reading the config
  file, and the floating-point steps (sample peaks, refresh rates).
- `tests/` — tests of the library on concrete values.
