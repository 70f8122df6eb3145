//! Picking the audio track to read.

use vstd::prelude::*;

use super::timing::TimeBase;
use super::{plan_of, Plan, ReadConfig, ReadError};

verus! {

/// The audio track that is being read.
#[derive(Debug, Clone, Copy, PartialEq, Eq, Structural)]
pub struct TrackInfo {
    pub id: u32,
    pub sample_rate: u32,
    pub channels: Option<usize>,
    pub time_base: Option<TimeBase>,
    pub num_frames: Option<u64>,
}

impl TrackInfo {
    /// Whether the time base, if there is one, is a positive number.
    pub open spec fn wf(self) -> bool {
        self.time_base matches Some(tb) ==> tb.wf()
    }
}

/// What a container says about the audio of a track.
#[derive(Debug, Clone, Copy, PartialEq, Eq, Structural)]
pub struct AudioParams {
    /// Whether the codec is the placeholder for no codec at all.
    pub null_codec: bool,
    pub sample_rate: Option<u32>,
    pub channels: Option<usize>,
}

/// What a container says about a track.
#[derive(Debug, Clone, Copy, PartialEq, Eq, Structural)]
pub struct TrackParams {
    pub id: u32,
    /// The audio parameters, if this is an audio track that declares them.
    pub audio: Option<AudioParams>,
    pub time_base: Option<TimeBase>,
    pub num_frames: Option<u64>,
}

/// Whether a track is an audio track with a codec, so that a decoder is worth
/// trying.
pub open spec fn has_codec(track: TrackParams) -> bool {
    track.audio matches Some(audio) && !audio.null_codec
}

/// Whether a decoder has to be constructed to find out if the track is usable.
pub fn needs_decoder(track: &TrackParams) -> (needed: bool)
    ensures
        needed == has_codec(*track),
{
    match track.audio {
        Some(audio) => !audio.null_codec,
        None => false,
    }
}

/// The metadata of a track, if it is a usable audio track.
pub open spec fn prepared<D>(
    track: TrackParams,
    decoder: Option<Result<D, symphonia::core::errors::Error>>,
) -> Result<Option<(TrackInfo, D)>, ReadError> {
    match (track.audio, decoder) {
        (Some(audio), Some(made)) => if audio.null_codec {
            Ok(None)
        } else {
            match (made, audio.sample_rate) {
                (Err(error), _) => Err(ReadError::Decode(error)),
                (Ok(_), None) => Err(ReadError::NoSampleRate),
                (Ok(decoder), Some(sample_rate)) => Ok(
                    Some(
                        (
                            TrackInfo {
                                id: track.id,
                                sample_rate,
                                channels: audio.channels,
                                time_base: track.time_base,
                                num_frames: track.num_frames,
                            },
                            decoder,
                        ),
                    ),
                ),
            }
        },
        _ => Ok(None),
    }
}

/// Extract the metadata needed by the reader, given what came of constructing a
/// decoder for the track. `None` means this is not a usable audio track.
///
/// `decoder` is there exactly where [`needs_decoder`] asks for it.
pub fn prepare_track<D>(
    track: &TrackParams,
    decoder: Option<Result<D, symphonia::core::errors::Error>>,
) -> (result: Result<Option<(TrackInfo, D)>, ReadError>)
    requires
        decoder is Some <==> has_codec(*track),
    ensures
        result == prepared(*track, decoder),
{
    match track.audio {
        None => Ok(None),
        Some(audio) => match decoder {
            None => Ok(None),
            Some(Err(error)) => Err(ReadError::Decode(error)),
            Some(Ok(decoder)) => match audio.sample_rate {
                None => Err(ReadError::NoSampleRate),
                Some(sample_rate) => Ok(
                    Some(
                        (
                            TrackInfo {
                                id: track.id,
                                sample_rate,
                                channels: audio.channels,
                                time_base: track.time_base,
                                num_frames: track.num_frames,
                            },
                            decoder,
                        ),
                    ),
                ),
            },
        },
    }
}

/// The tracks to try after the default one: all others, in order, by their place
/// in the list.
pub open spec fn fallbacks(default_id: Option<u32>, ids: Seq<u32>) -> Seq<usize>
    decreases ids.len(),
{
    if ids.len() == 0 {
        Seq::empty()
    } else {
        let earlier = fallbacks(default_id, ids.drop_last());
        if default_id == Some(ids.last()) {
            earlier
        } else {
            earlier.push((ids.len() - 1) as usize)
        }
    }
}

/// The tracks to try after the default one, by their place in the list of ids.
pub fn fallback_tracks(default_id: Option<u32>, ids: &[u32]) -> (order: Vec<usize>)
    ensures
        order@ == fallbacks(default_id, ids@),
{
    let mut order: Vec<usize> = Vec::new();
    let len: usize = ids.len();
    let mut i: usize = 0;
    assert(ids@.take(0) =~= Seq::<u32>::empty());
    while i < len
        invariant
            i <= len,
            len == ids@.len(),
            order@ == fallbacks(default_id, ids@.take(i as int)),
        decreases len - i,
    {
        proof {
            let longer = ids@.take(i + 1);
            assert(longer.drop_last() =~= ids@.take(i as int));
            assert(longer.last() == ids@[i as int]);
        }
        let id: u32 = ids[i];
        let is_default = match default_id {
            Some(default) => default == id,
            None => false,
        };
        if !is_default {
            order.push(i);
        }
        i += 1;
    }
    assert(ids@.take(len as int) =~= ids@);
    order
}

/// Every track but the default one is tried after it, each once and in order.
pub proof fn lemma_fallbacks_are_all_other_tracks(default_id: Option<u32>, ids: Seq<u32>)
    requires
        ids.len() <= usize::MAX,
    ensures
        forall|i: int|
            0 <= i < ids.len() ==> (#[trigger] fallbacks(default_id, ids).contains(i as usize)
                <==> default_id != Some(ids[i])),
        forall|a: int, b: int|
            0 <= a < b < fallbacks(default_id, ids).len() ==> fallbacks(default_id, ids)[a]
                < fallbacks(default_id, ids)[b] && fallbacks(default_id, ids)[b] < ids.len(),
        forall|a: int|
            0 <= a < fallbacks(default_id, ids).len() ==> #[trigger] fallbacks(default_id, ids)[a]
                < ids.len(),
    decreases ids.len(),
{
    if ids.len() > 0 {
        let shorter = ids.drop_last();
        let earlier = fallbacks(default_id, shorter);
        let order = fallbacks(default_id, ids);
        lemma_fallbacks_are_all_other_tracks(default_id, shorter);
        assert forall|i: int| 0 <= i < ids.len() implies (#[trigger] order.contains(i as usize)
            <==> default_id != Some(ids[i])) by {
            let last = ids.len() - 1;
            if i == last {
                if default_id != Some(ids[i]) {
                    assert(order[order.len() - 1] == i as usize);
                } else {
                    assert(!earlier.contains(i as usize));
                }
            } else {
                assert(earlier.contains(i as usize) <==> default_id != Some(shorter[i]));
                if earlier.contains(i as usize) {
                    let at = choose|at: int|
                        0 <= at < earlier.len() && earlier[at] == i as usize;
                    assert(order[at] == i as usize);
                }
                if order.contains(i as usize) {
                    let at = choose|at: int| 0 <= at < order.len() && order[at] == i as usize;
                    assert(at < earlier.len());
                    assert(earlier[at] == i as usize);
                }
            }
        }
    }
}

/// Goes through the candidate tracks until one is usable, and keeps the first
/// error in case none is.
#[derive(Debug)]
pub struct TrackSelection {
    pub first_error: Option<ReadError>,
}

/// The error to report after another candidate turned out as `outcome`.
pub open spec fn error_after<S>(
    first_error: Option<ReadError>,
    outcome: Result<Option<S>, ReadError>,
) -> Option<ReadError> {
    match (first_error, outcome) {
        (None, Err(error)) => Some(error),
        _ => first_error,
    }
}

/// What comes of a sequence of candidates: the first usable one, or else the first
/// error, or else that there is no track.
pub open spec fn selected<S>(outcomes: Seq<Result<Option<S>, ReadError>>) -> Result<S, ReadError> {
    selected_after(None, outcomes)
}

/// As [`selected`], after candidates that left `first_error`.
pub open spec fn selected_after<S>(
    first_error: Option<ReadError>,
    outcomes: Seq<Result<Option<S>, ReadError>>,
) -> Result<S, ReadError>
    decreases outcomes.len(),
{
    if outcomes.len() == 0 {
        match first_error {
            Some(error) => Err(error),
            None => Err(ReadError::NoTrack),
        }
    } else {
        match outcomes[0] {
            Ok(Some(track)) => Ok(track),
            _ => selected_after(error_after(first_error, outcomes[0]), outcomes.skip(1)),
        }
    }
}

impl TrackSelection {
    /// A selection that has not seen any candidate.
    pub fn new() -> (selection: Self)
        ensures
            selection.first_error is None,
    {
        TrackSelection { first_error: None }
    }

    /// Considers the next candidate. Returns it if it is usable, which ends the
    /// selection.
    pub fn offer<S>(&mut self, outcome: Result<Option<S>, ReadError>) -> (track: Option<S>)
        ensures
            track == (match outcome {
                Ok(found) => found,
                Err(_) => None,
            }),
            final(self).first_error == error_after(old(self).first_error, outcome),
            forall|rest: Seq<Result<Option<S>, ReadError>>|
                #![trigger selected_after(old(self).first_error, seq![outcome] + rest)]
                selected_after(old(self).first_error, seq![outcome] + rest) == (match track {
                    Some(found) => Ok::<S, ReadError>(found),
                    None => selected_after(final(self).first_error, rest),
                }),
    {
        let ghost before = self.first_error;
        proof {
            assert forall|rest: Seq<Result<Option<S>, ReadError>>|
                #![trigger selected_after(before, seq![outcome] + rest)]
                selected_after(before, seq![outcome] + rest) == (match outcome {
                    Ok(Some(found)) => Ok::<S, ReadError>(found),
                    _ => selected_after(error_after(before, outcome), rest),
                }) by {
                assert((seq![outcome] + rest)[0] == outcome);
                assert((seq![outcome] + rest).skip(1) =~= rest);
            }
        }
        match outcome {
            Ok(found) => found,
            Err(error) => {
                if self.first_error.is_none() {
                    self.first_error = Some(error);
                }
                None
            },
        }
    }

    /// The error to report when no candidate was usable.
    pub fn finish(self) -> (error: ReadError)
        ensures
            error == (match self.first_error {
                Some(error) => error,
                None => ReadError::NoTrack,
            }),
    {
        match self.first_error {
            Some(error) => error,
            None => ReadError::NoTrack,
        }
    }
}

/// A usable track is selected if there is any, whatever became of the candidates
/// before it, and it is the first usable one.
pub proof fn lemma_first_usable_track_is_selected<S>(
    outcomes: Seq<Result<Option<S>, ReadError>>,
    first_error: Option<ReadError>,
    index: int,
)
    requires
        0 <= index < outcomes.len(),
        outcomes[index] matches Ok(Some(_)),
        forall|i: int| 0 <= i < index ==> !(#[trigger] outcomes[i] matches Ok(Some(_))),
    ensures
        selected_after(first_error, outcomes) == Ok::<S, ReadError>(outcomes[index]->Ok_0->0),
    decreases outcomes.len(),
{
    if index > 0 {
        let rest = outcomes.skip(1);
        assert(forall|i: int| 0 <= i < rest.len() ==> rest[i] == outcomes[i + 1]);
        assert(!(outcomes[0] matches Ok(Some(_))));
        lemma_first_usable_track_is_selected(
            rest,
            error_after(first_error, outcomes[0]),
            index - 1,
        );
    }
}

/// Without a usable track the first error is reported, and only a file without any
/// error has no track.
pub proof fn lemma_first_error_is_reported<S>(
    outcomes: Seq<Result<Option<S>, ReadError>>,
    index: int,
)
    requires
        0 <= index <= outcomes.len(),
        forall|i: int| 0 <= i < index ==> #[trigger] outcomes[i] == Ok::<Option<S>, ReadError>(None),
        index < outcomes.len() ==> outcomes[index] is Err,
        forall|i: int| 0 <= i < outcomes.len() ==> !(#[trigger] outcomes[i] matches Ok(Some(_))),
    ensures
        selected(outcomes) == (if index < outcomes.len() {
            Err::<S, ReadError>(outcomes[index]->Err_0)
        } else {
            Err(ReadError::NoTrack)
        }),
    decreases outcomes.len(),
{
    if outcomes.len() > 0 {
        let rest = outcomes.skip(1);
        assert(forall|i: int| 0 <= i < rest.len() ==> rest[i] == outcomes[i + 1]);
        if index == 0 {
            lemma_kept_error_is_reported(outcomes[0]->Err_0, rest);
        } else {
            assert(outcomes[0] == Ok::<Option<S>, ReadError>(None));
            lemma_first_error_is_reported(rest, index - 1);
        }
    }
}

proof fn lemma_kept_error_is_reported<S>(
    error: ReadError,
    outcomes: Seq<Result<Option<S>, ReadError>>,
)
    requires
        forall|i: int| 0 <= i < outcomes.len() ==> !(#[trigger] outcomes[i] matches Ok(Some(_))),
    ensures
        selected_after(Some(error), outcomes) == Err::<S, ReadError>(error),
    decreases outcomes.len(),
{
    if outcomes.len() > 0 {
        let rest = outcomes.skip(1);
        assert(forall|i: int| 0 <= i < rest.len() ==> rest[i] == outcomes[i + 1]);
        lemma_kept_error_is_reported(error, rest);
    }
}

/// What the container declares, for a file without a single decodable packet.
pub open spec fn declared(track: TrackInfo, config: ReadConfig) -> Result<Plan, ReadError> {
    match track.channels {
        None => Err(ReadError::NoChannels),
        Some(channels) => plan_of(track.sample_rate, channels, config),
    }
}

/// Plan for a file without a single decodable packet, for example one without any
/// audio. The container declaration is all there is, and the config is still
/// validated against it so that an invalid selection is rejected.
pub fn declared_plan(track: &TrackInfo, config: &ReadConfig) -> (result: Result<Plan, ReadError>)
    ensures
        result == declared(*track, *config),
        result matches Ok(plan) ==> plan.wf(),
{
    match track.channels {
        None => Err(ReadError::NoChannels),
        Some(channels) => Plan::resolve(track.sample_rate, channels, config),
    }
}

/// A track is usable exactly where it is an audio track with a codec that a decoder could be
/// made for and with a sample rate. It is described by what the container says about it,
/// and comes with its decoder. A track without audio or codec is passed over, one without
/// a decoder or a rate is an error.
pub proof fn lemma_usable_tracks<D>(
    track: TrackParams,
    decoder: Option<Result<D, symphonia::core::errors::Error>>,
)
    ensures
        has_codec(track) <==> track.audio is Some && !track.audio->0.null_codec,
        track.audio is None || track.audio->0.null_codec ==> prepared(track, decoder) == Ok::<
            Option<(TrackInfo, D)>,
            ReadError,
        >(None),
        track.audio matches Some(audio) ==> (!audio.null_codec ==> match decoder {
            Some(Err(error)) => prepared(track, decoder) == Err::<
                Option<(TrackInfo, D)>,
                ReadError,
            >(ReadError::Decode(error)),
            Some(Ok(made)) => match audio.sample_rate {
                None => prepared(track, decoder) == Err::<Option<(TrackInfo, D)>, ReadError>(
                    ReadError::NoSampleRate,
                ),
                Some(rate) => prepared(track, decoder) matches Ok(Some((info, with))) && {
                    &&& with == made
                    &&& info.id == track.id
                    &&& info.sample_rate == rate
                    &&& info.channels == audio.channels
                    &&& info.time_base == track.time_base
                    &&& info.num_frames == track.num_frames
                },
            },
            None => true,
        }),
{
}

} // verus!
