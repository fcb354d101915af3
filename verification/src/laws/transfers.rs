//! Laws of writing to streams and reading from them.
use vstd::prelude::*;
use vstd::arithmetic::div_mod::*;
use vstd::arithmetic::mul::*;
use vstd::arithmetic::power2::*;
use crate::float::{Float32, FloatMath};
use crate::laws::streams;
use crate::pcm;
use crate::pcm::{
    create_ring, validate_config, CaptureCallbackState, PcmCaptureStream, PcmPlaybackStream, PcmReader,
    PcmStreamConfig, PcmStreamError, PcmStreamMetrics, PcmStreamState, PcmWriter,
    PlaybackCallbackState, ValidatedConfig,
};
use crate::resampler;
use crate::resampler::Resampling;
use crate::ring::{Consumer, Producer, RingBuffer};

verus! {

/// Whole frames within what still fits are as many samples as still fit.
proof fn lemma_fits(samples: int, free: int, channels: int)
    requires
        channels > 0,
        free >= 0,
        samples >= 0,
    ensures
        free / channels >= 0,
        free / channels * channels <= free < free / channels * channels + channels,
        samples % channels == 0 ==> (samples / channels <= free / channels <==> samples <= free),
        samples % channels == 0 ==> samples / channels * channels == samples,
{
    lemma_fundamental_div_mod(free, channels);
    lemma_mod_bound(free, channels);
    lemma_mul_is_commutative(channels, free / channels);
    lemma_fundamental_div_mod(samples, channels);
    lemma_mul_is_commutative(channels, samples / channels);
    lemma_div_pos_is_pos(free, channels);
    if samples <= free {
        lemma_div_is_ordered(samples, free, channels);
    }
    if samples % channels == 0 && samples / channels <= free / channels {
        lemma_mul_inequality(samples / channels, free / channels, channels);
    }
}

/// Writing is all or nothing: where the stream is open, the samples make whole frames and all of
/// them fit, they are queued behind what is queued. Otherwise nothing changes, and the error tells
/// how many frames were asked for and how many would fit.
pub proof fn writing_is_all_or_nothing(
    writer: &mut PcmWriter,
    state: &mut PcmStreamState,
    pcm: &[Float32],
    result: Result<(), PcmStreamError>,
)
    requires
        old(writer).serves(*old(state)),
        pcm@.len() <= usize::MAX,
        old(state).ring.capacity() <= usize::MAX,
        call_ensures(PcmWriter::try_write_interleaved, (writer, state, pcm), result),
    ensures
        ({
            let channels = old(writer).channels() as int;
            let queued = old(state).ring@;
            let limit = old(writer).limit();
            &&& result is Ok <==> !old(state).closed && pcm@.len() as int % channels == 0
                && queued.len() + pcm@.len() <= limit
            &&& result is Ok ==> {
                &&& final(state).ring@ == queued + pcm@
                &&& final(state).metrics == (PcmStreamMetrics {
                    ring_fill_frames: final(state).metrics.ring_fill_frames,
                    ..old(state).metrics
                })
                &&& queued.len() == old(state).metrics.ring_fill_frames * channels ==>
                    final(state).ring@.len() == final(state).metrics.ring_fill_frames * channels
            }
            &&& result is Err ==> *final(state) == *old(state)
            &&& old(state).closed ==> result == Err::<(), PcmStreamError>(
                PcmStreamError::StreamClosed,
            )
            &&& !old(state).closed && pcm@.len() as int % channels != 0 ==> result == Err::<
                (),
                PcmStreamError,
            >(PcmStreamError::InvalidBufferLength)
            &&& !old(state).closed && pcm@.len() as int % channels == 0 && result is Err ==> {
                result matches Err(
                    PcmStreamError::BufferFull { requested_frames, available_frames },
                ) && {
                    &&& requested_frames * channels == pcm@.len()
                    &&& available_frames * channels <= limit - queued.len()
                    &&& limit - queued.len() < available_frames * channels + channels
                }
            }
        }),
{
    let channels = old(writer).channels() as int;
    let free = old(writer).limit() - old(state).ring@.len();
    lemma_fits(pcm@.len() as int, free, channels);
    lemma_div_is_ordered_by_denominator(pcm@.len() as int, 1, channels);
    lemma_div_is_ordered_by_denominator(free, 1, channels);
    lemma_div_basics(pcm@.len() as int);
    lemma_div_basics(free);
}

/// Frames are captured as long as whole ones fit, in their order. The others are counted as
/// overruns.
pub proof fn capturing_takes_what_fits(
    callback: &mut CaptureCallbackState,
    state: &mut PcmStreamState,
    input: &[Float32],
)
    requires
        old(callback).serves(*old(state)),
        call_ensures(CaptureCallbackState::capture_interleaved, (callback, state, input), ()),
    ensures
        ({
            let channels = old(callback).frame_size() as int;
            let queued = old(state).ring@;
            let limit = old(callback).limit() as int;
            let frames = input@.len() as int / channels;
            exists|taken: int|
                {
                    &&& 0 <= taken <= frames
                    &&& queued.len() + taken * channels <= limit
                    &&& taken < frames ==> limit < queued.len() + taken * channels + channels
                    &&& final(state).ring@ == queued + #[trigger] input@.take(taken * channels)
                    &&& final(state).metrics == (PcmStreamMetrics {
                        ring_fill_frames: old(state).metrics.ring_fill_frames.wrapping_add(
                            taken as usize,
                        ),
                        transferred_frames: old(state).metrics.transferred_frames.wrapping_add(
                            taken as u64,
                        ),
                        overrun_frames: old(state).metrics.overrun_frames.wrapping_add(
                            (frames - taken) as u64,
                        ),
                        ..old(state).metrics
                    })
                }
        }),
        final(state).closed == old(state).closed,
{
    let channels = old(callback).frame_size() as int;
    let queued = old(state).ring@;
    let limit = old(callback).limit() as int;
    let frames = input@.len() as int / channels;
    let free = limit - queued.len();
    lemma_fits(0, free, channels);
    lemma_div_pos_is_pos(input@.len() as int, channels);
    let taken = if frames <= free / channels {
        frames
    } else {
        free / channels
    };
    lemma_mul_inequality(taken, free / channels, channels);
    assert(final(state).ring@ == queued + input@.take(taken * channels));
}

/// A frame fits where its samples fit.
pub proof fn frames_fit_where_their_samples_do(
    callback: CaptureCallbackState,
    state: PcmStreamState,
    fits: bool,
)
    requires
        callback.serves(state),
        call_ensures(CaptureCallbackState::has_capacity_for_frame, (&callback, &state), fits),
    ensures
        fits <==> state.ring@.len() + callback.frame_size() <= callback.limit(),
{
}

/// The frame that was put together is queued behind the others, and counted.
pub proof fn committed_frames_are_queued(
    callback: &mut CaptureCallbackState,
    state: &mut PcmStreamState,
)
    requires
        old(callback).serves(*old(state)),
        old(state).ring@.len() + old(callback).frame_size() <= old(callback).limit(),
        call_ensures(CaptureCallbackState::commit_scratch_frame, (callback, state), ()),
    ensures
        final(state).ring@ == old(state).ring@ + old(callback).frame(),
        final(state).metrics == (PcmStreamMetrics {
            ring_fill_frames: old(state).metrics.ring_fill_frames.wrapping_add(1),
            transferred_frames: old(state).metrics.transferred_frames.wrapping_add(1),
            ..old(state).metrics
        }),
{
}

/// A played frame is counted as transferred. One that is missing is counted as an underrun, but not
/// before the first frame was played.
pub proof fn playing_counts_frames_and_underruns<M: FloatMath>(
    callback: &mut PlaybackCallbackState,
    state: &mut PcmStreamState,
    frame: Option<&[Float32]>,
)
    requires
        old(callback)@.wf(),
        call_ensures(PlaybackCallbackState::next_frame::<M>, (callback, state), frame),
    ensures
        streams::serves_frame::<M>(
            old(callback)@,
            old(state).ring@,
            final(callback)@,
            final(state).ring@,
            frame is Some,
        ),
        frame matches Some(frame) ==> frame@ == final(callback)@.interpolated,
        final(state).metrics.transferred_frames == if frame is Some {
            old(state).metrics.transferred_frames.wrapping_add(1)
        } else {
            old(state).metrics.transferred_frames
        },
        final(state).metrics.underrun_frames == if frame is None && old(callback)@.has_primed {
            old(state).metrics.underrun_frames.wrapping_add(1)
        } else {
            old(state).metrics.underrun_frames
        },
        final(state).metrics.overrun_frames == old(state).metrics.overrun_frames,
        final(state).metrics.callbacks == old(state).metrics.callbacks,
        final(state).metrics.format_errors == old(state).metrics.format_errors,
        final(state).closed == old(state).closed,
{
    streams::lemma_steps::<M>(
        old(callback).with(*old(state)),
        final(callback).with(*final(state)),
        frame is Some,
    );
}

/// Each of the states of a run leads to the next by one frame.
pub open spec fn are_states<M: FloatMath>(states: Seq<Resampling>) -> bool {
    &&& states.len() > 0
    &&& forall|i: int|
        0 <= i < states.len() - 1 ==> streams::serves_frame::<M>(
            (#[trigger] states[i]).resampler,
            states[i].feed.queued,
            states[i + 1].resampler,
            states[i + 1].feed.queued,
            true,
        )
}

/// Reading puts out frames one after the other, as many as were asked for unless fewer come. They
/// stand at the front of the output in their order, and what is behind them stays. A reader that
/// runs out has to wait for the desired number of frames again.
pub proof fn reading_puts_out_frames_in_order<M: FloatMath>(
    reader: &mut PcmReader,
    state: &mut PcmStreamState,
    pcm: &mut [Float32],
    result: Result<usize, PcmStreamError>,
)
    requires
        old(reader)@.wf(),
        call_ensures(PcmReader::try_read_interleaved::<M>, (reader, state, pcm), result),
    ensures
        ({
            let channels = old(reader)@.channels as int;
            let requested = old(pcm)@.len() as int / channels;
            &&& result is Ok <==> !old(state).closed && old(pcm)@.len() as int % channels == 0
            &&& result is Err ==> *final(state) == *old(state) && *final(reader) == *old(reader)
                && final(pcm)@ == old(pcm)@
            &&& old(state).closed ==> result == Err::<usize, PcmStreamError>(
                PcmStreamError::StreamClosed,
            )
            &&& !old(state).closed && result is Err ==> result == Err::<usize, PcmStreamError>(
                PcmStreamError::InvalidBufferLength,
            )
            &&& result matches Ok(count) ==> {
                &&& count <= requested
                &&& final(pcm)@.len() == old(pcm)@.len()
                &&& exists|states: Seq<Resampling>|
                    {
                        &&& #[trigger] are_states::<M>(states)
                        &&& states.len() == count + 1
                        &&& states[0].resampler == old(reader)@
                        &&& states[0].feed.queued == old(state).ring@
                        &&& forall|k: int|
                            0 <= k < final(pcm)@.len() ==> #[trigger] final(pcm)@[k] == if k < count
                                * channels {
                                states[k / channels + 1].resampler.interpolated[k % channels]
                            } else {
                                old(pcm)@[k]
                            }
                        &&& count == requested ==> states.last().resampler == final(reader)@
                            && states.last().feed.queued == final(state).ring@
                        &&& count < requested ==> streams::serves_frame::<M>(
                            states.last().resampler,
                            states.last().feed.queued,
                            final(reader)@,
                            final(state).ring@,
                            false,
                        )
                    }
            }
        }),
{
    let before = old(reader).with(*old(state));
    let after = final(reader).with(*final(state));
    let channels = old(reader)@.channels as int;
    let requested = old(pcm)@.len() as int / channels;
    if let Ok(count) = result {
        let run = choose|run: Seq<Resampling>|
            {
                &&& #[trigger] pcm::is_run::<M>(run)
                &&& run.first() == before
                &&& run.len() == count + 1
                &&& count <= requested
                &&& pcm::holds_run(run, channels, old(pcm)@, final(pcm)@)
                &&& if count == requested {
                    after == run.last()
                } else {
                    resampler::steps::<M>(run.last(), after, false)
                }
            };
        assert forall|i: int| 0 <= i < run.len() implies (#[trigger] run[i]).resampler.wf() by {
            lemma_run_wf::<M>(run, i);
        }
        assert forall|i: int| 0 <= i < run.len() - 1 implies streams::serves_frame::<M>(
            (#[trigger] run[i]).resampler,
            run[i].feed.queued,
            run[i + 1].resampler,
            run[i + 1].feed.queued,
            true,
        ) by {
            assert(run[i].resampler.wf());
            streams::lemma_steps::<M>(run[i], run[i + 1], true);
        }
        assert(are_states::<M>(run));
        if count < requested {
            assert(run[run.len() - 1].resampler.wf());
            streams::lemma_steps::<M>(run.last(), after, false);
        }
    }
}

/// Every state of a run is whole.
proof fn lemma_run_wf<M: FloatMath>(run: Seq<Resampling>, i: int)
    requires
        pcm::is_run::<M>(run),
        run[0].resampler.wf(),
        0 <= i < run.len(),
    ensures
        run[i].resampler.wf(),
    decreases i,
{
    if i > 0 {
        lemma_run_wf::<M>(run, i - 1);
        assert(resampler::steps::<M>(run[i - 1], run[i - 1 + 1], true));
        streams::lemma_steps::<M>(run[i - 1], run[i], true);
    }
}

/// A configuration can be used where it has channels, a sample rate, a capacity of two frames or
/// more, a desired fill within it, a drift of less than one, and a ring of its size. The first thing
/// that is wrong is the error.
pub proof fn configurations_are_checked_in_order(
    config: PcmStreamConfig,
    result: Result<ValidatedConfig, PcmStreamError>,
)
    requires
        call_ensures(validate_config, (&config,), result),
    ensures
        ({
            let channels = config.client_format.channels;
            let samples = config.capacity_frames * channels;
            let fits = exists|power: int| #[trigger]
                is_pow2(power) && samples <= power <= usize::MAX;
            &&& result is Ok <==> {
                &&& channels > 0
                &&& config.client_format.sample_rate > 0
                &&& config.capacity_frames >= 2
                &&& 0 < config.target_fill_frames < config.capacity_frames
                &&& config.max_drift_ppm < 1_000_000
                &&& fits
            }
            &&& result matches Ok(validated) ==> {
                &&& validated.channels == channels
                &&& validated.logical_capacity_samples == samples
                &&& is_pow2(validated.internal_sample_capacity as int)
                &&& samples <= validated.internal_sample_capacity
                &&& forall|power: int| #[trigger]
                    is_pow2(power) && samples <= power ==> validated.internal_sample_capacity
                        <= power
            }
            &&& result matches Err(error) ==> if channels == 0 {
                error == PcmStreamError::InvalidChannelCount
            } else if config.client_format.sample_rate == 0 {
                error == PcmStreamError::InvalidSampleRate
            } else if config.capacity_frames < 2 {
                error == PcmStreamError::InvalidRingCapacity
            } else if config.target_fill_frames == 0 || config.target_fill_frames
                >= config.capacity_frames {
                error == PcmStreamError::InvalidTargetFill
            } else if config.max_drift_ppm >= 1_000_000 {
                error == PcmStreamError::InvalidDriftPpm
            } else {
                error == PcmStreamError::InvalidRingCapacity
            }
        }),
{
}

/// A new resampler waits for the desired number of frames, corrects drift over the smaller of that
/// number and the room above it, and stands at its start.
pub open spec fn is_set_up<M: FloatMath>(
    r: crate::resampler::ResamplerView,
    config: PcmStreamConfig,
) -> bool {
    let target = config.target_fill_frames;
    &&& r.wf()
    &&& r.channels == config.client_format.channels
    &&& r.target_fill_frames == target
    &&& r.control_span_frames <= target
    &&& r.control_span_frames + target <= config.capacity_frames
    &&& r.control_span_frames == target || r.control_span_frames + target == config.capacity_frames
    &&& call_ensures(M::parts_per_million, (config.max_drift_ppm,), r.max_drift_ratio)
    &&& r.phase.bits == 0
    &&& !r.have_current && !r.have_next && !r.primed && !r.has_primed
}

/// A stream that starts is open and empty, and has room for the configured number of frames.
pub open spec fn starts_empty(state: PcmStreamState, config: PcmStreamConfig) -> bool {
    &&& state.ring@.len() == 0
    &&& config.capacity_frames * config.client_format.channels <= state.ring.capacity()
    &&& !state.closed
    &&& state.metrics == (PcmStreamMetrics {
        callbacks: 0,
        transferred_frames: 0,
        underrun_frames: 0,
        overrun_frames: 0,
        format_errors: 0,
        ring_fill_frames: 0,
        ring_capacity_frames: config.capacity_frames,
    })
}

/// A playback stream takes as many of the client's frames for each of the device's as the client's
/// sample rate is of the device's.
pub proof fn playback_steps_by_client_frames<M: FloatMath>(
    config: PcmStreamConfig,
    rate: Result<u32, PcmStreamError>,
    stream: PcmPlaybackStream,
    writer: PcmWriter,
    callback: PlaybackCallbackState,
)
    requires
        call_ensures(
            PcmPlaybackStream::start::<M>,
            (config, rate),
            Ok::<_, PcmStreamError>((stream, writer, callback)),
        ),
    ensures
        rate matches Ok(rate) && call_ensures(
            M::rate_ratio,
            (config.client_format.sample_rate, rate),
            callback@.nominal_step,
        ),
        is_set_up::<M>(callback@, config),
        starts_empty(stream.state, config),
        writer.channels() == config.client_format.channels,
        writer.limit() == config.capacity_frames * config.client_format.channels,
{
}

/// A capture stream takes as many of the device's frames for each of the client's as the device's
/// sample rate is of the client's.
pub proof fn capture_steps_by_device_frames<M: FloatMath>(
    config: PcmStreamConfig,
    rate: Result<u32, PcmStreamError>,
    stream: PcmCaptureStream,
    reader: PcmReader,
    callback: CaptureCallbackState,
)
    requires
        call_ensures(
            PcmCaptureStream::start::<M>,
            (config, rate),
            Ok::<_, PcmStreamError>((stream, reader, callback)),
        ),
    ensures
        rate matches Ok(rate) && call_ensures(
            M::rate_ratio,
            (rate, config.client_format.sample_rate),
            reader@.nominal_step,
        ),
        is_set_up::<M>(reader@, config),
        starts_empty(stream.state, config),
        callback.frame_size() == config.client_format.channels,
        callback.limit() == config.capacity_frames * config.client_format.channels,
{
}

/// Streams start on a configuration that can be used and a device that was found. The configuration
/// is looked at first.
pub proof fn streams_start_where_they_can<M: FloatMath>(
    config: PcmStreamConfig,
    rate: Result<u32, PcmStreamError>,
    validated: Result<ValidatedConfig, PcmStreamError>,
    playback: Result<(PcmPlaybackStream, PcmWriter, PlaybackCallbackState), PcmStreamError>,
    capture: Result<(PcmCaptureStream, PcmReader, CaptureCallbackState), PcmStreamError>,
)
    requires
        call_ensures(validate_config, (&config,), validated),
        call_ensures(PcmPlaybackStream::start::<M>, (config, rate), playback),
        call_ensures(PcmCaptureStream::start::<M>, (config, rate), capture),
    ensures
        playback is Ok <==> validated is Ok && rate is Ok,
        capture is Ok <==> validated is Ok && rate is Ok,
        validated matches Err(error) ==> (playback matches Err(failure) && failure == error) && (
        capture matches Err(failure) && failure == error),
        validated is Ok ==> (rate matches Err(error) ==> (playback matches Err(failure) && failure
            == error) && (capture matches Err(failure) && failure == error)),
{
}

/// Each counter of a stream counts its own, and a closed stream stays as it was.
pub proof fn counters_count_their_own(
    first: &mut PcmStreamState,
    second: &mut PcmStreamState,
    third: &mut PcmStreamState,
    fourth: &mut PcmStreamState,
    fifth: &mut PcmStreamState,
    frames: usize,
)
    requires
        call_ensures(PcmStreamState::callback, (first,), ()),
        call_ensures(PcmStreamState::transferred, (second, frames), ()),
        call_ensures(PcmStreamState::underrun, (third, frames), ()),
        call_ensures(PcmStreamState::overrun, (fourth, frames), ()),
        call_ensures(PcmStreamState::format_error, (fifth,), ()),
    ensures
        final(first).metrics == (PcmStreamMetrics {
            callbacks: old(first).metrics.callbacks.wrapping_add(1),
            ..old(first).metrics
        }),
        final(second).metrics == (PcmStreamMetrics {
            transferred_frames: old(second).metrics.transferred_frames.wrapping_add(frames as u64),
            ..old(second).metrics
        }),
        final(third).metrics == (PcmStreamMetrics {
            underrun_frames: old(third).metrics.underrun_frames.wrapping_add(frames as u64),
            ..old(third).metrics
        }),
        final(fourth).metrics == (PcmStreamMetrics {
            overrun_frames: old(fourth).metrics.overrun_frames.wrapping_add(frames as u64),
            ..old(fourth).metrics
        }),
        final(fifth).metrics == (PcmStreamMetrics {
            format_errors: old(fifth).metrics.format_errors.wrapping_add(1),
            ..old(fifth).metrics
        }),
{
}

/// A stream that was closed keeps its samples and counters, and both of its ends find it closed.
pub proof fn closed_streams_refuse_both_ends(
    state: &mut PcmStreamState,
    playback: &mut PcmPlaybackStream,
    capture: &mut PcmCaptureStream,
    result: Result<(), PcmStreamError>,
)
    requires
        call_ensures(PcmStreamState::close, (state,), ()),
        call_ensures(PcmPlaybackStream::close, (playback,), ()),
        call_ensures(PcmCaptureStream::close, (capture,), ()),
        call_ensures(PcmStreamState::ensure_open, (&*final(state),), result),
    ensures
        final(state).closed && final(playback).state.closed && final(capture).state.closed,
        final(state).ring == old(state).ring && final(state).metrics == old(state).metrics,
        result == Err::<(), PcmStreamError>(PcmStreamError::StreamClosed),
{
}

/// Frames that enter a ring are counted, and those that leave it are counted off again.
pub proof fn fills_are_counted_on_and_off(
    state: &mut PcmStreamState,
    later: &mut PcmStreamState,
    frames: usize,
    seen: PcmStreamMetrics,
    fill: usize,
)
    requires
        call_ensures(PcmStreamState::add_fill, (state, frames), ()),
        *old(later) == *final(state),
        call_ensures(PcmStreamState::remove_fill, (later, frames), ()),
        call_ensures(PcmStreamState::snapshot, (&*final(state),), seen),
        call_ensures(PcmStreamState::fill, (&*final(state),), fill),
        old(state).metrics.ring_fill_frames + frames <= usize::MAX,
    ensures
        fill == old(state).metrics.ring_fill_frames + frames,
        seen == final(state).metrics,
        seen == (PcmStreamMetrics { ring_fill_frames: fill, ..old(state).metrics }),
        final(later).metrics == old(state).metrics,
        final(state).ring == old(state).ring,
        final(later).ring == old(state).ring,
{
}

/// A ring is made for a power of two of samples, and for two at least.
pub proof fn rings_are_made_for_powers_of_two(
    capacity: usize,
    result: Result<(Producer, Consumer, RingBuffer), PcmStreamError>,
)
    requires
        call_ensures(create_ring, (capacity,), result),
    ensures
        match result {
            Ok((producer, consumer, ring)) => {
                &&& 2 <= capacity && is_pow2(capacity as int)
                &&& ring.capacity() == capacity
                &&& ring@.len() == 0
                &&& producer.slots() == capacity
                &&& consumer.slots() == capacity
            },
            Err(error) => {
                &&& !(2 <= capacity && is_pow2(capacity as int))
                &&& error is InvalidRingCapacity
            },
        },
{
}

/// The count of frames is that of the samples in the ring.
pub open spec fn is_counted(state: PcmStreamState, channels: int) -> bool {
    state.ring@.len() == state.metrics.ring_fill_frames * channels
}

/// The count of frames follows the ring, whatever is written, read, played or captured.
pub proof fn counts_follow_the_ring<M: FloatMath>(
    writer: &mut PcmWriter,
    written: &mut PcmStreamState,
    pcm: &[Float32],
    write: Result<(), PcmStreamError>,
    reader: &mut PcmReader,
    read: &mut PcmStreamState,
    output: &mut [Float32],
    count: Result<usize, PcmStreamError>,
    player: &mut PlaybackCallbackState,
    played: &mut PcmStreamState,
    frame: Option<&[Float32]>,
    recorder: &mut CaptureCallbackState,
    captured: &mut PcmStreamState,
    input: &[Float32],
)
    requires
        call_ensures(PcmWriter::try_write_interleaved, (writer, written, pcm), write),
        call_ensures(PcmReader::try_read_interleaved::<M>, (reader, read, output), count),
        call_ensures(PlaybackCallbackState::next_frame::<M>, (player, played), frame),
        call_ensures(CaptureCallbackState::capture_interleaved, (recorder, captured, input), ()),
    ensures
        is_counted(*old(written), old(writer).channels() as int) ==> is_counted(
            *final(written),
            old(writer).channels() as int,
        ),
        is_counted(*old(read), old(reader)@.channels as int) ==> is_counted(
            *final(read),
            old(reader)@.channels as int,
        ),
        is_counted(*old(played), old(player)@.channels as int) ==> is_counted(
            *final(played),
            old(player)@.channels as int,
        ),
        is_counted(*old(captured), old(recorder).frame_size() as int) ==> is_counted(
            *final(captured),
            old(recorder).frame_size() as int,
        ),
{
}

} // verus!
