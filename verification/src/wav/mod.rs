//! Everything specific to the wav (RIFF) format: the encoder and the decoder.
//!
//! Both sides need the same handful of format tags and subformat GUIDs, so they
//! live here rather than in either submodule.

use vstd::prelude::*;

pub mod chunks;
pub mod decode;
pub mod encode;
pub mod format;
pub mod laws;
pub mod written;

verus! {

/// Integer PCM samples.
pub const WAVE_FORMAT_PCM: u16 = 0x0001;

/// IEEE float samples.
pub const WAVE_FORMAT_IEEE_FLOAT: u16 = 0x0003;

/// The `fmt ` chunk holds a `WAVEFORMATEXTENSIBLE`, and the real format is
/// named by its `SubFormat` GUID instead.
pub const WAVE_FORMAT_EXTENSIBLE: u16 = 0xfffe;

/// `KSDATAFORMAT_SUBTYPE_PCM`, the `SubFormat` GUID for integer PCM.
pub const SUBFORMAT_PCM: [u8; 16] = [
    0x01, 0x00, 0x00, 0x00, 0x00, 0x00, 0x10, 0x00, 0x80, 0x00, 0x00, 0xaa, 0x00, 0x38, 0x9b, 0x71,
];

/// `KSDATAFORMAT_SUBTYPE_IEEE_FLOAT`, the `SubFormat` GUID for float samples.
pub const SUBFORMAT_IEEE_FLOAT: [u8; 16] = [
    0x03, 0x00, 0x00, 0x00, 0x00, 0x00, 0x10, 0x00, 0x80, 0x00, 0x00, 0xaa, 0x00, 0x38, 0x9b, 0x71,
];

/// `RIFF`, the first four bytes of a wav file.
pub const TAG_RIFF: [u8; 4] = [0x52, 0x49, 0x46, 0x46];

/// `WAVE`, the kind of RIFF file a wav file is.
pub const TAG_WAVE: [u8; 4] = [0x57, 0x41, 0x56, 0x45];

/// `fmt `, the chunk that describes the samples.
pub const TAG_FMT: [u8; 4] = [0x66, 0x6d, 0x74, 0x20];

/// `fact`, the chunk that counts the frames.
pub const TAG_FACT: [u8; 4] = [0x66, 0x61, 0x63, 0x74];

/// `data`, the chunk that holds the samples.
pub const TAG_DATA: [u8; 4] = [0x64, 0x61, 0x74, 0x61];

} // verus!
