# core_wasm

Lossless codecs that pack 16-bit stereo PCM audio into RGBA images, and the
integer transforms behind them, with their behaviour stated as Verus
contracts and proved.

## Layout

- `src/` — the verified library.
  - `stereo` — mid/side coding of a stereo pair and its inverse.
  - `bijection` — zigzag and Gray codes.
  - `lifting` — integer lifting steps, the packet and dyadic wavelet
    transforms, the 5/3 lifting transform, and their inverses.
  - `lifting_i64`, `mband` — 64-bit lifting, the four-band packet split and
    the fixed-point four-band filter bank.
  - `serpentine` — the serpentine walk of the colour cube `[0, m]^3`:
    position of a point, point at a position, and the counting behind them,
    for cubes up to side 1398100.
  - `snake` — the 65536-colour palette (silence, code 0, is black) and its
    reverse lookup.
  - `packing`, `codec` — big-endian framing and the naive pixel codec.
  - `grid_codec` — the coefficient-grid codecs (versions 1, 3, 4, 5, 6).
  - `bitplane`, `polyphase`, `payload` — versions 2, 8, 7 and 9, and the
    framing of the four-band constant-Q layout.
  - `dispatch` — decoding an image by its version byte.
- `tests/` — tests on concrete values.
- `app/` — what stays outside the proofs: the WebAssembly bindings, the
  floating-point spectrogram and tracking code, the vector audio geometry
  analysis and synthesis, and the two experiment programs.

Each codec states exactly which inputs it accepts and what it returns, and
each decoder is proved to give back what its encoder was given.
