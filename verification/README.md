# rle_compress

Run-length encoding of files, at the level of whole bytes or of single bits,
with machine-checked contracts.

- `src/model.rs` — the mathematical model of both encodings and the lemmas
  about it.
- `src/memcompress.rs`, `src/rlecompress.rs` — compression and decompression of
  in-memory buffers.
- `src/file/` — compression levels, the header byte of a compressed file, the
  settings of the chunked compressor, and the run counts of the analyzer that
  picks a level.
- `src/laws.rs` — properties of the library as a whole: decompression gives
  back what compression was given, compressed forms are canonical, chunks
  combine, header bytes identify levels.
- `src/cli.rs` — defaults of the command-line program.
- `app/` — the command-line program and the file, thread and float handling
  around the library.

Usage: `analyze <input>`, `compress <input> <output.rle>`,
`decompress <input.rle> <output>`.
