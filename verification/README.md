# wa_encoder

Encoding and decoding of WeakAura import strings (`!WA:2!...`), verified with
Verus.

An import string is `!WA:2!` followed by the printable encoding (LibDeflate's
`EncodeForPrint`, a little-endian base64 variant) of a raw DEFLATE stream,
which holds a LibSerialize image of a Lua value.

- `src/` is the verified library: the printable encoding (`encodeforprint`),
  the LibSerialize format (`libserialize`, with the round-trip law in
  `roundtrip` and the independence of float values in `floatvalues`), Lua and
  JSON values (`types`, `number`, `floattext`), the encoder and the decoder,
  the tool-server requests, and the trusted wrappers around `flate2` and a few
  `std` functions (`compress`, `text`).
- `app/` is the command-line program and the tool server over stdio: it reads
  and prints, parses and prints JSON text with `serde_json`, and parses floats
  with `f64`'s parser.
- `tests/` runs the library.
