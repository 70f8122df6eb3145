# audio-file

Reading and writing audio files, with the format logic proved in Verus.

`src/` is the library. Its functions are verified against their contracts, but for the
few that only hand a call on to another crate or to the standard library: the wrappers
marked `external_body` in `block.rs` and `reader/`, and the two `assume_specification`
items in `reader/position.rs`. What those promise is believed, not proved, and the
comment above each of them says what that is.

- `wav/encode.rs` lays out and writes wav files, `wav/decode.rs` parses and reads them,
  and `wav/laws.rs` proves what holds between the two: whatever is written is read back.
  `wav/chunks.rs` proves that unknown chunks change nothing.
- `reader/` resolves what to read. `mod.rs` has the configuration and the wav fast path,
  `general.rs` the session that cuts packets of any other format down to the requested
  frames and channels, `position.rs` the frame a time names, `timing.rs` timestamps and
  seeking, and `track.rs` track selection. `delivery.rs` and `events.rs` prove that a read
  delivers exactly the requested part of the stream.
- `writer.rs` validates and writes samples; `block.rs` does both with audio blocks.
- `double.rs` rounds to double precision with integer arithmetic, and `sample.rs` scales
  samples with it, on the bit patterns of doubles.
- `resample.rs` is what surrounds the resampler.

`app/` is ordinary Rust around it: files, the demuxer and the decoder, the resampler, and
the floating point types that callers use. `tests/` runs the library on concrete values.

A file is either read in full or not at all: a packet the decoder rejects, or frames that
are missing, fail the whole read. `Damage::Conceal` is the exception a caller can ask a
session for.
