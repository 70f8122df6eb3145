//! What errors say.

use vstd::prelude::*;

use crate::reader::ReadError;
use crate::resample::ResampleError;
use crate::text::decimal;
use crate::writer::WriteError;

verus! {

/// What is read out of decimal digits.
pub open spec fn number(digits: Seq<char>) -> int
    decreases digits.len(),
{
    if digits.len() == 0 {
        0
    } else {
        10 * number(digits.drop_last()) + (digits.last() as int - '0' as int)
    }
}

/// A number in decimal is made of digits, reads back as the number, and has no zero in
/// front of it unless it is zero itself.
pub proof fn lemma_decimals_read_back(n: nat)
    ensures
        number(decimal(n)) == n,
        0 < decimal(n).len(),
        forall|i: int| 0 <= i < decimal(n).len() ==> '0' <= #[trigger] decimal(n)[i] <= '9',
        n > 0 ==> decimal(n)[0] != '0',
        n == 0 ==> decimal(n).len() == 1,
    decreases n,
{
    let digits = decimal(n);
    if n >= 10 {
        lemma_decimals_read_back(n / 10);
        assert(digits.drop_last() =~= decimal(n / 10));
        assert(digits[0] == decimal(n / 10)[0]);
        assert forall|i: int| 0 <= i < digits.len() implies '0' <= #[trigger] digits[i] <= '9' by {
            if i < digits.len() - 1 {
                assert(digits[i] == decimal(n / 10)[i]);
            }
        }
    } else {
        assert(digits.drop_last() =~= Seq::<char>::empty());
        assert(number(digits.drop_last()) == 0);
    }
}

/// What a failed read says, with the figures that it is about where it names any.
pub proof fn lemma_what_read_errors_say(error: ReadError, cause: Seq<char>)
    ensures
        match error {
            ReadError::Io(_) => error.text(cause) == "could not read file: "@ + cause,
            ReadError::Decode(_) => error.text(cause) == "could not decode audio: "@ + cause,
            ReadError::UnsupportedFormat => error.text(cause)
                == "no decoder in this build can read this file"@,
            ReadError::NoTrack => error.text(cause) == "no track found"@,
            ReadError::NoSampleRate => error.text(cause) == "no sample rate found"@,
            ReadError::NoChannels => error.text(cause)
                == "could not determine the number of channels"@,
            ReadError::ZeroChannels => error.text(cause) == "channel count must not be zero"@,
            ReadError::Resample(_) => error.text(cause) == "resample failed"@,
            ReadError::TooManyChannels(n) => error.text(cause) == "channel count ("@ + decimal(
                n as nat,
            ) + ") exceeds the supported maximum of 65535"@,
            ReadError::InvalidFrameRange { start, end } => error.text(cause) == "start frame ("@
                + decimal(start as nat) + ") must not exceed end frame ("@ + decimal(end as nat)
                + ")"@,
            ReadError::InvalidStartChannel { start, total } => error.text(cause)
                == "start channel "@ + decimal(start as nat) + " out of bounds (file has "@
                + decimal(total as nat) + " channels)"@,
            ReadError::InvalidChannelRange { start, count, total } => error.text(cause)
                == "channel range out of bounds: "@ + decimal(count as nat)
                + " channels starting at channel "@ + decimal(start as nat) + " (file has "@
                + decimal(total as nat) + " channels)"@,
            ReadError::ChannelCountChanged { expected, found } => error.text(cause)
                == "channel count changed mid-stream (was "@ + decimal(expected as nat) + ", now "@
                + decimal(found as nat) + ")"@,
            ReadError::SampleRateChanged { expected, found } => error.text(cause)
                == "sample rate changed mid-stream (was "@ + decimal(expected as nat) + ", now "@
                + decimal(found as nat) + ")"@,
            ReadError::MissingFrames { start, end } => error.text(cause) == "frames "@ + decimal(
                start as nat,
            ) + ".."@ + decimal(end as nat)
                + " are missing, the file is damaged or incomplete"@,
        },
{
}

/// What a failed write says, with the figures that it is about where it names any.
pub proof fn lemma_what_write_errors_say(error: WriteError)
    ensures
        match error {
            WriteError::Io(_) => error.text() == "could not write file"@,
            WriteError::ZeroChannels => error.text() == "channel count must not be zero"@,
            WriteError::ZeroSampleRate => error.text() == "sample rate must not be zero"@,
            WriteError::UnalignedSamples { samples, channels } => error.text() == "sample count ("@
                + decimal(samples as nat) + ") is not a multiple of the channel count ("@ + decimal(
                channels as nat,
            ) + ")"@,
            WriteError::FileTooLarge { bytes } => error.text() == "file size ("@ + decimal(
                bytes as nat,
            ) + " bytes) exceeds the 4 GiB limit of the wav format"@,
            WriteError::FrameTooLarge { bytes } => error.text() == "frame size ("@ + decimal(
                bytes as nat,
            ) + " bytes) exceeds the 65535 byte limit of the wav format"@,
            WriteError::ByteRateTooHigh { bytes_per_second } => error.text() == "byte rate ("@
                + decimal(bytes_per_second as nat)
                + " bytes/s) exceeds the limit of the wav format"@,
        },
{
}

/// What a failed resampler says.
pub proof fn lemma_what_resampling_errors_say(error: ResampleError)
    ensures
        error is ResamplerConstructionError ==> error.text() == "could not create resampler"@,
        error is ResampleError ==> error.text() == "could not resample audio"@,
{
}

} // verus!
