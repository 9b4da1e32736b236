# lerc

A decoder for LERC2 raster tiles (TIFF compression tag 34887), with its behaviour
stated in contracts and proved with Verus.

A tile is a LERC2 stream, versions 1 to 6, that may be wrapped with zstd or zlib. LERC1
streams and Huffman-coded rasters are refused. The decoded bytes are in the byte order
of the machine.

- `src/` is the library. `blob` goes from a blob to its raster; `wrapper`, `header`,
  `decoder`, `fill`, `tile` and `tiles` are its steps, `reader`, `bit_stuffer`, `mask`,
  `sample`, `data_type`, `bytes` and `raster` their parts. `binary64` and `rounding`
  compute with IEEE 754 numbers on integers, so the whole decoder is proved. `laws`,
  `mirror`, `checksum` and `trailing` hold what is true of all rasters.
- `app/` serves decoded tiles through `std::io::Read`.
- `tests/` runs the library on concrete streams.
