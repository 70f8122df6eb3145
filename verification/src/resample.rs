//! Around the resampler: what goes into it and what is kept of its output.

use rubato::{ResampleError as ProcessFailure, ResamplerConstructionError as ConstructionFailure};
use vstd::prelude::*;

verus! {

/// Why a resampler could not be built.
#[verifier::external_type_specification]
#[verifier::external_body]
pub struct ExConstructionFailure(ConstructionFailure);

/// Why a resampler could not process its input.
#[verifier::external_type_specification]
#[verifier::external_body]
pub struct ExProcessFailure(ProcessFailure);

/// Why audio could not be resampled.
#[derive(Debug)]
pub enum ResampleError {
    /// The resampler could not be created.
    ResamplerConstructionError(ConstructionFailure),
    /// The resampler could not process the audio.
    ResampleError(ProcessFailure),
}

impl ResampleError {
    /// What [`ResampleError::message`] says.
    pub open spec fn text(self) -> Seq<char> {
        match self {
            ResampleError::ResamplerConstructionError(_) => "could not create resampler"@,
            ResampleError::ResampleError(_) => "could not resample audio"@,
        }
    }

    /// The error in words.
    pub fn message(&self) -> (message: String)
        ensures
            message@ == self.text(),
    {
        match self {
            ResampleError::ResamplerConstructionError(_) => "could not create resampler".to_owned(),
            ResampleError::ResampleError(_) => "could not resample audio".to_owned(),
        }
    }
}

/// How many whole frames `samples` interleaved samples make up.
pub fn frame_count(samples: usize, num_channels: usize) -> (frames: usize)
    requires
        num_channels > 0,
    ensures
        frames == samples as int / num_channels as int,
        frames * num_channels <= samples < frames * num_channels + num_channels,
{
    let frames: usize = samples / num_channels;
    proof {
        vstd::arithmetic::div_mod::lemma_fundamental_div_mod(samples as int, num_channels as int);
        assert(num_channels * frames == frames * num_channels) by (nonlinear_arith);
    }
    frames
}

/// Cuts the output of the resampler down to the frames it wrote. The buffer was
/// sized for the most it could write.
pub fn keep_frames<T>(out: &mut Vec<T>, frames: usize, num_channels: usize)
    ensures
        final(out)@ == (if frames * num_channels < old(out)@.len() {
            old(out)@.take(frames * num_channels)
        } else {
            old(out)@
        }),
{
    let held: usize = out.len();
    match frames.checked_mul(num_channels) {
        Some(len) => {
            if len < held {
                out.truncate(len);
                assert(out@ =~= old(out)@.take(len as int));
            }
        },
        // More samples than a vector can hold, so there is nothing to cut off.
        None => {},
    }
}

} // verus!
