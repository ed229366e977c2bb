# alass_stream

Streaming subtitle alignment, verified with Verus.

A subtitle file is loaded once; audio comes in piece by piece, in any order and
with gaps; and the times of the lines are corrected to fit what is heard.

- `src/` is the library. Every function in it has a contract, which Verus proves
  but for the wrappers named below.
  `src/stream.rs` keeps all speech heard so far and aligns the whole subtitle to
  it; `src/engine.rs` and the modules around it align chunk by chunk and
  interpolate between anchors. `src/stream_laws.rs`, `src/engine_laws.rs` and
  `src/ownership_laws.rs` state what holds over several calls.
- `app/` is a gRPC service around the engine.
- `tests/` are ordinary Rust tests of the library.

What the library takes on trust is what it has from other crates: the alignment
itself (`alass-core`, in `src/alignment.rs`), the voice detector (`webrtc-vad`,
in `src/vad.rs`), reading and writing subtitle files (`subparse`, in
`src/subtitle_file.rs`), random identifiers (`uuid`, in `src/ids.rs`), and two
conversions of bytes to text from the standard library (in `src/text.rs`). Each
such function stands behind a small wrapper whose doc comment says what is
claimed of it.

Times are in milliseconds throughout. Double-precision numbers are held by their
bit patterns (`src/binary64.rs`), and arithmetic on them is exact to the bit
(`src/rounding.rs`), as is their conversion to single precision
(`src/single.rs`).

The parser of `subparse` stops the program on some bytes. `src/readable.rs` says
on which, and the functions that load a subtitle ask for others;
`readable::is_readable` and `session::can_load` tell beforehand.
