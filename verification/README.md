# undefined_player

The verified core of a small Wayland video player: everything the player
decides, computes or draws that does not need the native libraries, written in
Verus with contracts proved over mathematical models.

## Layout

- `src/` — the verified library.
  - `overlay.rs`: the pixel-font overlay atlas, fitting shaped text masks, and
    the cached title, text and metadata images.
  - `pixel_font.rs`: the 5×7 glyph table.
  - `subtitles.rs`: dialogue text cleaning and bitmap subtitle composition.
  - `metadata.rs`, `presentation.rs`, `chapters.rs`: the texts shown on screen.
  - `autocrop.rs`, `deinterlace.rs`, `zoom.rs`: picture analysis and modes.
  - `read_ahead.rs`: the buffered window of the file reader.
  - `mpris.rs`: media-player remote control state.
  - `cli.rs`, `window.rs`: arguments and key bindings.
  - `text.rs`: strings and the few trusted calls into std and
    `unicode-normalization`.
- `tests/` — tests of the library.
- `app/` — the program around it: SDL, FFmpeg, Vulkan and D-Bus through the
  native adapter, threads, and floating-point layout and timing.

## Outside crate

Overlay text is brought to canonical composition (NFC) before drawing, and
accented characters are decomposed (NFD) to find their pixel glyph. The
library cannot call native code, so it uses `unicode-normalization` for both;
its Unicode tables may differ in detail from those of the system library the
native adapter links.
