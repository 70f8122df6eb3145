//! Reading and writing audio files, with the format logic proved.
//!
//! The library decides everything that can be decided from plain values: how a
//! wav file is laid out byte by byte, how a header is parsed, which bytes hold
//! the frames and channels that were asked for, and how the packets of a
//! compressed stream are cut down to the requested range. Opening files,
//! driving a demuxer and floating point arithmetic belong to the application
//! around it.
//!
//! - [`wav`] is the wav format in both directions, and what holds between them.
//! - [`reader`] selects frames and channels, out of wav files directly and out of
//!   packets through a session.
//! - [`writer`] validates what is to be written.
//! - [`double`] is rounding in double precision, on whole numbers.
//! - [`messages`] is what errors say.
//! - [`sample`] scales samples, as bit patterns of doubles, to integers and back.

pub mod block;
pub mod bytes;
pub mod double;
pub mod messages;
pub mod reader;
pub mod resample;
pub mod sample;
pub mod select;
pub mod text;
pub mod wav;
pub mod writer;

pub use block::{read_block, write_block, write_sequential_block};
pub use reader::{read, Audio, Position, ReadConfig, ReadError};
pub use resample::ResampleError;
pub use writer::{SampleFormat, WriteConfig, WriteError};
