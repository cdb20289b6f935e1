# oxideav-iff

IFF containers in Rust, verified with Verus: the chunk grammar of IFF files, ILBM
pictures, ANIM cel animations and AIFF / AIFF-C audio.

Every function of `src/` carries a contract that says what it returns for every input,
over mathematical models of the formats: byte sequences, planes of bits, groups of
chunks. What holds between functions (what is written is what is read back, which chunks
may stand where, what a delta leaves alone) is stated in the proof functions whose names
begin with `law_`.

## Layout

- `src/chunk.rs`: chunk headers, groups, the grammar of `FORM`, `LIST`, `PROP` and `CAT `
- `src/ilbm/`: ByteRun1 compression, bit planes, colours, planar pictures
- `src/anim/`: animation headers, the delta operations 0, 1, 2, 3, 4, 5 and 7, whole files
- `src/aiff/`: one module per chunk, 80-bit extended numbers, PCM samples, the `FORM` itself
  and packets for players
- `src/bytes.rs`, `src/bitmap.rs`, `src/text.rs`, `src/error.rs`: what these share
- `app/`: container registration, streams and floating-point values around the library
- `tests/`: the library run on concrete files

## What is trusted

Three calls into the standard library are not proved, and stand in `src/text.rs`: reading
bytes as UTF-8 text, reading them with replacement characters, and quoting a text for a
message.
