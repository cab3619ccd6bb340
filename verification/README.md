# gif_tool

The core of the GIF Replacer desktop tool, verified with Verus. The tool drops an
LVGL-converted `.c` image into an emotion slot of the active EmotionDisplay
profile, then builds and flashes the ESP32 board with ESP-IDF.

## Layout

- `src/` — the verified library.
  - `text.rs`: character classes (`\s`, `\w`), scanning, bounded-word replacement,
    replacement templates (expanded by `regex-automata`), decimal notation.
  - `parser.rs`: LVGL image sources — the single image descriptor, its pixel
    array, and renaming both; the law that a renamed image validates under its
    new name.
  - `header.rs`: `gif_profile.h` — emotion keys, image symbols and
    `GIF_PROFILE_DEFAULT`.
  - `sdkconfig.rs`: `sdkconfig.defaults` (which profile is active, activating
    one) and the generated `sdkconfig`.
  - `profile.rs`: profile names and clones, and the decisions of the profile
    operations taken on what was read from disk.
  - `builder.rs`, `gifconv.rs`: build/flash commands and results, GIF header
    checks, `gif2c.py` outcomes.
  - `flow.rs`: the sync → build → flash sequence as a state machine.
  - `config.rs`, `serial.rs`: settings loading, and the serial ports offered.
- `tests/` — tests of the library.
- `app/` — the Tauri application: file and process I/O, serde, the serial port
  listing, and the async build-and-flash runner.
