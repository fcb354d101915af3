//! Streams of interleaved PCM between the process and an audio device.
use vstd::prelude::*;
use vstd::arithmetic::div_mod::*;
use vstd::arithmetic::mul::*;
use vstd::arithmetic::power2::*;
use vstd::slice::slice_subrange;
use vstd::string::StringExecFns;
use crate::device;
use crate::device::{CoreAudioError, CoreAudioErrorView};
use crate::float::{Float32, Float64, FloatMath};
use crate::resampler;
use crate::resampler::{Feed, Resampling, ResamplerView, RingResampler};
use crate::ring;
use crate::ring::{next_power_of_two, spsc_ring_buffer, Consumer, Producer, RingBuffer};
use crate::text;
use crate::text::{digits_text, joined, signed_text};

verus! {

/// The process-facing nominal PCM format. Samples are always interleaved.
#[derive(Clone, Copy, Debug, Eq, PartialEq, Structural)]
pub struct PcmFormat {
    pub sample_rate: u32,
    pub channels: u32,
}

/// Configuration shared by playback and capture streams.
#[derive(Clone, Debug, Eq, PartialEq)]
pub struct PcmStreamConfig {
    pub device_uid: String,
    pub client_format: PcmFormat,
    pub capacity_frames: usize,
    /// Desired total buffered frames, including the resampler's current and next frames.
    ///
    /// Playback and capture wait for at least this many frames, and for no fewer than two, before
    /// initially transferring PCM and after recovering from an underrun.
    pub target_fill_frames: usize,
    pub max_drift_ppm: u32,
}

/// The Core Audio channel direction required from the selected device.
#[derive(Clone, Copy, Debug, Eq, PartialEq, Structural)]
pub enum PcmStreamDirection {
    Input,
    Output,
}

impl PcmStreamDirection {
    /// The word that a person reads.
    pub open spec fn word(self) -> Seq<char> {
        match self {
            PcmStreamDirection::Input => "input"@,
            PcmStreamDirection::Output => "output"@,
        }
    }

    /// The word that a person reads.
    pub fn text(&self) -> (word: String)
        ensures
            word@ == self.word(),
    {
        match self {
            PcmStreamDirection::Input => "input".to_owned(),
            PcmStreamDirection::Output => "output".to_owned(),
        }
    }
}

/// A point-in-time snapshot of a PCM stream.
///
/// `transferred_frames` counts non-silent playback frames delivered to Core Audio or capture
/// frames accepted from Core Audio. `ring_fill_frames` counts only frames still in the ring and
/// excludes the resampler's current and next frames.
#[derive(Clone, Copy, Debug, Default, Eq, PartialEq, Structural)]
pub struct PcmStreamMetrics {
    pub callbacks: u64,
    pub transferred_frames: u64,
    pub underrun_frames: u64,
    pub overrun_frames: u64,
    pub format_errors: u64,
    pub ring_fill_frames: usize,
    pub ring_capacity_frames: usize,
}

/// What the two ends of a stream share.
pub struct PcmStreamState {
    pub ring: RingBuffer,
    pub metrics: PcmStreamMetrics,
    pub closed: bool,
}

impl PcmStreamState {
    /// The samples and frames that wait in the ring.
    pub open spec fn feed(self) -> Feed {
        Feed { queued: self.ring@, fill: self.metrics.ring_fill_frames }
    }

    /// The states differ in nothing but the samples and frames that wait in the ring.
    pub open spec fn same_but_feed(self, other: PcmStreamState) -> bool {
        &&& self.ring.capacity() == other.ring.capacity()
        &&& self.closed == other.closed
        &&& self.metrics == PcmStreamMetrics {
            ring_fill_frames: self.metrics.ring_fill_frames,
            ..other.metrics
        }
    }

    /// An open stream over a ring, with nothing counted yet.
    pub fn new(ring: RingBuffer, ring_capacity_frames: usize) -> (state: Self)
        ensures
            state.ring == ring,
            !state.closed,
            state.metrics == (PcmStreamMetrics {
                callbacks: 0,
                transferred_frames: 0,
                underrun_frames: 0,
                overrun_frames: 0,
                format_errors: 0,
                ring_fill_frames: 0,
                ring_capacity_frames,
            }),
    {
        let metrics = PcmStreamMetrics {
            callbacks: 0,
            transferred_frames: 0,
            underrun_frames: 0,
            overrun_frames: 0,
            format_errors: 0,
            ring_fill_frames: 0,
            ring_capacity_frames,
        };
        PcmStreamState { ring, metrics, closed: false }
    }

    /// The counters at this point.
    pub fn snapshot(&self) -> (metrics: PcmStreamMetrics)
        ensures
            metrics == self.metrics,
    {
        self.metrics
    }

    /// Counts a callback.
    pub fn callback(&mut self)
        ensures
            final(self).ring == old(self).ring,
            final(self).closed == old(self).closed,
            final(self).metrics == (PcmStreamMetrics {
                callbacks: old(self).metrics.callbacks.wrapping_add(1),
                ..old(self).metrics
            }),
    {
        self.metrics.callbacks = self.metrics.callbacks.wrapping_add(1);
    }

    /// Counts transferred frames.
    pub fn transferred(&mut self, frames: usize)
        ensures
            final(self).ring == old(self).ring,
            final(self).closed == old(self).closed,
            final(self).metrics == (PcmStreamMetrics {
                transferred_frames: old(self).metrics.transferred_frames.wrapping_add(
                    frames as u64,
                ),
                ..old(self).metrics
            }),
    {
        self.metrics.transferred_frames = self.metrics.transferred_frames.wrapping_add(
            frames as u64,
        );
    }

    /// Counts frames that were asked for and not there.
    pub fn underrun(&mut self, frames: usize)
        ensures
            final(self).ring == old(self).ring,
            final(self).closed == old(self).closed,
            final(self).metrics == (PcmStreamMetrics {
                underrun_frames: old(self).metrics.underrun_frames.wrapping_add(frames as u64),
                ..old(self).metrics
            }),
    {
        self.metrics.underrun_frames = self.metrics.underrun_frames.wrapping_add(frames as u64);
    }

    /// Counts frames that found no room.
    pub fn overrun(&mut self, frames: usize)
        ensures
            final(self).ring == old(self).ring,
            final(self).closed == old(self).closed,
            final(self).metrics == (PcmStreamMetrics {
                overrun_frames: old(self).metrics.overrun_frames.wrapping_add(frames as u64),
                ..old(self).metrics
            }),
    {
        self.metrics.overrun_frames = self.metrics.overrun_frames.wrapping_add(frames as u64);
    }

    /// Counts a buffer whose layout could not be used.
    pub fn format_error(&mut self)
        ensures
            final(self).ring == old(self).ring,
            final(self).closed == old(self).closed,
            final(self).metrics == (PcmStreamMetrics {
                format_errors: old(self).metrics.format_errors.wrapping_add(1),
                ..old(self).metrics
            }),
    {
        self.metrics.format_errors = self.metrics.format_errors.wrapping_add(1);
    }

    /// Counts frames that enter the ring.
    pub fn add_fill(&mut self, frames: usize)
        ensures
            final(self).ring == old(self).ring,
            final(self).closed == old(self).closed,
            final(self).metrics == (PcmStreamMetrics {
                ring_fill_frames: old(self).metrics.ring_fill_frames.wrapping_add(frames),
                ..old(self).metrics
            }),
    {
        self.metrics.ring_fill_frames = self.metrics.ring_fill_frames.wrapping_add(frames);
    }

    /// Counts frames that leave the ring.
    pub fn remove_fill(&mut self, frames: usize)
        ensures
            final(self).ring == old(self).ring,
            final(self).closed == old(self).closed,
            final(self).metrics == (PcmStreamMetrics {
                ring_fill_frames: old(self).metrics.ring_fill_frames.wrapping_sub(frames),
                ..old(self).metrics
            }),
    {
        self.metrics.ring_fill_frames = self.metrics.ring_fill_frames.wrapping_sub(frames);
    }

    /// The number of frames in the ring.
    pub fn fill(&self) -> (frames: usize)
        ensures
            frames == self.metrics.ring_fill_frames,
    {
        self.metrics.ring_fill_frames
    }

    /// Ends the stream.
    pub fn close(&mut self)
        ensures
            final(self).ring == old(self).ring,
            final(self).metrics == old(self).metrics,
            final(self).closed,
    {
        self.closed = true;
    }

    /// Fails where the stream has ended.
    pub fn ensure_open(&self) -> (result: Result<(), PcmStreamError>)
        ensures
            match result {
                Ok(()) => !self.closed,
                Err(error) => self.closed && error == PcmStreamError::StreamClosed,
            },
    {
        if self.closed {
            Err(PcmStreamError::StreamClosed)
        } else {
            Ok(())
        }
    }
}

/// Errors produced by process PCM stream creation and non-blocking transfer.
#[derive(Clone, Debug, Eq, PartialEq)]
pub enum PcmStreamError {
    UnsupportedPlatform,
    DeviceNotFound { uid: String },
    AmbiguousDevice { uid: String, matches: usize },
    WrongDirection { uid: String, required: PcmStreamDirection },
    FormatMismatch { expected: PcmFormat, actual: PcmFormat },
    UnsupportedDevicePcmFormat { uid: String },
    InvalidChannelCount,
    InvalidSampleRate,
    InvalidBufferLength,
    InvalidRingCapacity,
    InvalidTargetFill,
    InvalidDriftPpm,
    BufferFull { requested_frames: usize, available_frames: usize },
    StreamClosed,
    CoreAudioOsStatus(i32),
    CoreAudioProperty(&'static str),
    CoreAudio(String),
}

/// A PCM stream error by its values.
pub enum PcmStreamErrorView {
    UnsupportedPlatform,
    DeviceNotFound { uid: Seq<char> },
    AmbiguousDevice { uid: Seq<char>, matches: usize },
    WrongDirection { uid: Seq<char>, required: PcmStreamDirection },
    FormatMismatch { expected: PcmFormat, actual: PcmFormat },
    UnsupportedDevicePcmFormat { uid: Seq<char> },
    InvalidChannelCount,
    InvalidSampleRate,
    InvalidBufferLength,
    InvalidRingCapacity,
    InvalidTargetFill,
    InvalidDriftPpm,
    BufferFull { requested_frames: usize, available_frames: usize },
    StreamClosed,
    CoreAudioOsStatus(i32),
    CoreAudioProperty(Seq<char>),
    CoreAudio(Seq<char>),
}

impl View for PcmStreamError {
    type V = PcmStreamErrorView;

    open spec fn view(&self) -> PcmStreamErrorView {
        match self {
            PcmStreamError::UnsupportedPlatform => PcmStreamErrorView::UnsupportedPlatform,
            PcmStreamError::DeviceNotFound { uid } => PcmStreamErrorView::DeviceNotFound {
                uid: uid@,
            },
            PcmStreamError::AmbiguousDevice { uid, matches } => {
                PcmStreamErrorView::AmbiguousDevice { uid: uid@, matches: *matches }
            },
            PcmStreamError::WrongDirection { uid, required } => {
                PcmStreamErrorView::WrongDirection { uid: uid@, required: *required }
            },
            PcmStreamError::FormatMismatch { expected, actual } => {
                PcmStreamErrorView::FormatMismatch { expected: *expected, actual: *actual }
            },
            PcmStreamError::UnsupportedDevicePcmFormat { uid } => {
                PcmStreamErrorView::UnsupportedDevicePcmFormat { uid: uid@ }
            },
            PcmStreamError::InvalidChannelCount => PcmStreamErrorView::InvalidChannelCount,
            PcmStreamError::InvalidSampleRate => PcmStreamErrorView::InvalidSampleRate,
            PcmStreamError::InvalidBufferLength => PcmStreamErrorView::InvalidBufferLength,
            PcmStreamError::InvalidRingCapacity => PcmStreamErrorView::InvalidRingCapacity,
            PcmStreamError::InvalidTargetFill => PcmStreamErrorView::InvalidTargetFill,
            PcmStreamError::InvalidDriftPpm => PcmStreamErrorView::InvalidDriftPpm,
            PcmStreamError::BufferFull { requested_frames, available_frames } => {
                PcmStreamErrorView::BufferFull {
                    requested_frames: *requested_frames,
                    available_frames: *available_frames,
                }
            },
            PcmStreamError::StreamClosed => PcmStreamErrorView::StreamClosed,
            PcmStreamError::CoreAudioOsStatus(status) => {
                PcmStreamErrorView::CoreAudioOsStatus(*status)
            },
            PcmStreamError::CoreAudioProperty(name) => {
                PcmStreamErrorView::CoreAudioProperty(name@)
            },
            PcmStreamError::CoreAudio(message) => PcmStreamErrorView::CoreAudio(message@),
        }
    }
}

impl PcmStreamErrorView {
    /// The message that a person reads.
    pub open spec fn text(self) -> Seq<char> {
        match self {
            PcmStreamErrorView::UnsupportedPlatform => "PCM Core Audio streams require macOS"@,
            PcmStreamErrorView::DeviceNotFound { uid } => "Core Audio device UID not found: "@
                + uid,
            PcmStreamErrorView::AmbiguousDevice { uid, matches } => "Core Audio device UID "@ + uid
                + " matched "@ + text::digits(matches as nat) + " devices"@,
            PcmStreamErrorView::WrongDirection { uid, required } => "Core Audio device "@ + uid
                + " has no "@ + required.word() + " channels"@,
            PcmStreamErrorView::FormatMismatch { expected, actual } => {
                "PCM format mismatch: expected "@ + text::digits(expected.sample_rate as nat)
                    + " Hz/"@ + text::digits(expected.channels as nat) + " channels, got "@
                    + text::digits(actual.sample_rate as nat) + " Hz/"@ + text::digits(
                    actual.channels as nat,
                ) + " channels"@
            },
            PcmStreamErrorView::UnsupportedDevicePcmFormat { uid } => "Core Audio device "@ + uid
                + " does not expose packed f32 PCM"@,
            PcmStreamErrorView::InvalidChannelCount => "channel count must be greater than zero"@,
            PcmStreamErrorView::InvalidSampleRate => "sample rate must be greater than zero"@,
            PcmStreamErrorView::InvalidBufferLength => {
                "interleaved buffer length is not a whole number of frames"@
            },
            PcmStreamErrorView::InvalidRingCapacity => "invalid PCM ring-buffer capacity"@,
            PcmStreamErrorView::InvalidTargetFill => {
                "target fill must be inside the PCM ring buffer"@
            },
            PcmStreamErrorView::InvalidDriftPpm => "max drift must be less than 1,000,000 ppm"@,
            PcmStreamErrorView::BufferFull { requested_frames, available_frames } => {
                "PCM ring buffer is full: requested "@ + text::digits(requested_frames as nat)
                    + " frames, "@ + text::digits(available_frames as nat) + " available"@
            },
            PcmStreamErrorView::StreamClosed => "PCM stream is closed"@,
            PcmStreamErrorView::CoreAudioOsStatus(status) => "Core Audio returned OSStatus "@
                + text::signed_digits(status as int),
            PcmStreamErrorView::CoreAudioProperty(name) => "invalid Core Audio property: "@ + name,
            PcmStreamErrorView::CoreAudio(message) => "Core Audio error: "@ + message,
        }
    }

    /// The error that a stream reports for a Core Audio error.
    pub open spec fn of_core_audio(error: CoreAudioErrorView) -> PcmStreamErrorView {
        match error {
            CoreAudioErrorView::UnsupportedPlatform => PcmStreamErrorView::UnsupportedPlatform,
            CoreAudioErrorView::OsStatus(status) => PcmStreamErrorView::CoreAudioOsStatus(status),
            CoreAudioErrorView::InvalidProperty(name) => {
                PcmStreamErrorView::CoreAudioProperty(name)
            },
            _ => PcmStreamErrorView::CoreAudio(error.text()),
        }
    }
}

impl PcmStreamError {
    /// The message that a person reads.
    pub fn text(&self) -> (message: String)
        ensures
            message@ == self@.text(),
    {
        match self {
            PcmStreamError::UnsupportedPlatform => {
                "PCM Core Audio streams require macOS".to_owned()
            },
            PcmStreamError::DeviceNotFound { uid } => {
                joined("Core Audio device UID not found: ", uid.as_str())
            },
            PcmStreamError::AmbiguousDevice { uid, matches } => {
                let mut message = joined("Core Audio device UID ", uid.as_str());
                message.append(" matched ");
                message.append(digits_text(*matches as u64).as_str());
                message.append(" devices");
                message
            },
            PcmStreamError::WrongDirection { uid, required } => {
                let mut message = joined("Core Audio device ", uid.as_str());
                message.append(" has no ");
                message.append(required.text().as_str());
                message.append(" channels");
                message
            },
            PcmStreamError::FormatMismatch { expected, actual } => {
                let mut message = joined(
                    "PCM format mismatch: expected ",
                    digits_text(expected.sample_rate as u64).as_str(),
                );
                message.append(" Hz/");
                message.append(digits_text(expected.channels as u64).as_str());
                message.append(" channels, got ");
                message.append(digits_text(actual.sample_rate as u64).as_str());
                message.append(" Hz/");
                message.append(digits_text(actual.channels as u64).as_str());
                message.append(" channels");
                message
            },
            PcmStreamError::UnsupportedDevicePcmFormat { uid } => {
                let mut message = joined("Core Audio device ", uid.as_str());
                message.append(" does not expose packed f32 PCM");
                message
            },
            PcmStreamError::InvalidChannelCount => {
                "channel count must be greater than zero".to_owned()
            },
            PcmStreamError::InvalidSampleRate => "sample rate must be greater than zero".to_owned(),
            PcmStreamError::InvalidBufferLength => {
                "interleaved buffer length is not a whole number of frames".to_owned()
            },
            PcmStreamError::InvalidRingCapacity => "invalid PCM ring-buffer capacity".to_owned(),
            PcmStreamError::InvalidTargetFill => {
                "target fill must be inside the PCM ring buffer".to_owned()
            },
            PcmStreamError::InvalidDriftPpm => {
                "max drift must be less than 1,000,000 ppm".to_owned()
            },
            PcmStreamError::BufferFull { requested_frames, available_frames } => {
                let mut message = joined(
                    "PCM ring buffer is full: requested ",
                    digits_text(*requested_frames as u64).as_str(),
                );
                message.append(" frames, ");
                message.append(digits_text(*available_frames as u64).as_str());
                message.append(" available");
                message
            },
            PcmStreamError::StreamClosed => "PCM stream is closed".to_owned(),
            PcmStreamError::CoreAudioOsStatus(status) => {
                joined("Core Audio returned OSStatus ", signed_text(*status).as_str())
            },
            PcmStreamError::CoreAudioProperty(name) => {
                joined("invalid Core Audio property: ", name)
            },
            PcmStreamError::CoreAudio(message) => joined("Core Audio error: ", message.as_str()),
        }
    }
}

impl vstd::std_specs::convert::FromSpecImpl<CoreAudioError> for PcmStreamError {
    open spec fn obeys_from_spec() -> bool {
        false
    }

    open spec fn from_spec(value: CoreAudioError) -> Self {
        arbitrary()
    }
}

impl From<CoreAudioError> for PcmStreamError {
    fn from(value: CoreAudioError) -> (error: Self)
        ensures
            error@ == PcmStreamErrorView::of_core_audio(value@),
    {
        match value {
            CoreAudioError::UnsupportedPlatform => PcmStreamError::UnsupportedPlatform,
            CoreAudioError::OsStatus(status) => PcmStreamError::CoreAudioOsStatus(status),
            CoreAudioError::InvalidProperty(property) => {
                PcmStreamError::CoreAudioProperty(property)
            },
            other => PcmStreamError::CoreAudio(other.text()),
        }
    }
}

/// What a usable configuration amounts to.
#[derive(Clone, Copy, Debug, Eq, PartialEq, Structural)]
pub struct ValidatedConfig {
    pub channels: usize,
    pub logical_capacity_samples: usize,
    pub internal_sample_capacity: usize,
}

/// Some power of two that is at least `n` can be held in a `usize`.
pub open spec fn has_next_pow2(n: int) -> bool {
    exists|power: int| #[trigger] is_pow2(power) && n <= power <= usize::MAX
}

/// What is wrong with a configuration.
pub open spec fn config_error(config: PcmStreamConfig) -> Option<PcmStreamError> {
    if config.client_format.channels == 0 {
        Some(PcmStreamError::InvalidChannelCount)
    } else if config.client_format.sample_rate == 0 {
        Some(PcmStreamError::InvalidSampleRate)
    } else if config.capacity_frames < 2 {
        Some(PcmStreamError::InvalidRingCapacity)
    } else if config.target_fill_frames == 0 || config.target_fill_frames
        >= config.capacity_frames {
        Some(PcmStreamError::InvalidTargetFill)
    } else if config.max_drift_ppm >= 1_000_000 {
        Some(PcmStreamError::InvalidDriftPpm)
    } else if !has_next_pow2(config.capacity_frames * config.client_format.channels) {
        Some(PcmStreamError::InvalidRingCapacity)
    } else {
        None
    }
}

/// `validated` is what a configuration amounts to.
pub open spec fn is_validated(config: PcmStreamConfig, validated: ValidatedConfig) -> bool {
    &&& validated.channels == config.client_format.channels
    &&& validated.logical_capacity_samples == config.capacity_frames * config.client_format.channels
    &&& ring::is_next_pow2(
        validated.logical_capacity_samples as int,
        validated.internal_sample_capacity as int,
    )
}

/// Checks a configuration and works out the sizes that it calls for.
pub fn validate_config(config: &PcmStreamConfig) -> (result: Result<
    ValidatedConfig,
    PcmStreamError,
>)
    ensures
        match result {
            Ok(validated) => config_error(*config) is None && is_validated(*config, validated),
            Err(error) => config_error(*config) == Some(error),
        },
{
    let channels: usize = config.client_format.channels as usize;
    if channels == 0 {
        return Err(PcmStreamError::InvalidChannelCount);
    }
    if config.client_format.sample_rate == 0 {
        return Err(PcmStreamError::InvalidSampleRate);
    }
    if config.capacity_frames < 2 {
        return Err(PcmStreamError::InvalidRingCapacity);
    }
    if config.target_fill_frames == 0 || config.target_fill_frames >= config.capacity_frames {
        return Err(PcmStreamError::InvalidTargetFill);
    }
    if config.max_drift_ppm >= 1_000_000 {
        return Err(PcmStreamError::InvalidDriftPpm);
    }
    let logical_capacity_samples = match config.capacity_frames.checked_mul(channels) {
        Some(samples) => samples,
        None => {
            return Err(PcmStreamError::InvalidRingCapacity);
        },
    };
    match next_power_of_two(logical_capacity_samples) {
        Some(internal_sample_capacity) => {
            assert(is_pow2(internal_sample_capacity as int));
            Ok(ValidatedConfig { channels, logical_capacity_samples, internal_sample_capacity })
        },
        None => Err(PcmStreamError::InvalidRingCapacity),
    }
}

/// Makes the ring of a stream.
pub fn create_ring(capacity: usize) -> (result: Result<
    (Producer, Consumer, RingBuffer),
    PcmStreamError,
>)
    ensures
        match result {
            Ok((producer, consumer, ring)) => {
                &&& ring::capacity_error(capacity as nat) is None
                &&& producer.slots() == capacity
                &&& consumer.slots() == capacity
                &&& ring.capacity() == capacity
                &&& ring@ == Seq::<Float32>::empty()
            },
            Err(error) => {
                &&& ring::capacity_error(capacity as nat) is Some
                &&& error == PcmStreamError::InvalidRingCapacity
            },
        },
{
    match spsc_ring_buffer(capacity) {
        Ok(ring) => Ok(ring),
        Err(_) => Err(PcmStreamError::InvalidRingCapacity),
    }
}

/// The unique, non-cloneable producer for a playback stream.
pub struct PcmWriter {
    producer: Producer,
    channels: usize,
    logical_capacity_samples: usize,
}

/// Adding whole frames keeps the count of frames right.
proof fn lemma_frames_counted(feed: Feed, added: Seq<Float32>, frames: usize, channels: nat)
    requires
        feed.counts(channels),
        added.len() == frames * channels,
        channels > 0,
        feed.queued.len() + added.len() <= usize::MAX,
    ensures
        (Feed { queued: feed.queued + added, fill: feed.fill.wrapping_add(frames) }).counts(
            channels,
        ),
{
    assert((feed.fill + frames) * channels == feed.fill * channels + frames * channels)
        by (nonlinear_arith);
    assert(feed.fill + frames <= (feed.fill + frames) * channels) by (nonlinear_arith)
        requires
            channels > 0,
            feed.fill + frames >= 0,
    ;
}

/// The count of queued frames stays within the configured capacity, as long as no more samples are
/// queued than that capacity takes.
pub proof fn fill_stays_within_the_capacity(
    state: PcmStreamState,
    capacity_frames: usize,
    channels: nat,
)
    requires
        channels > 0,
        state.feed().counts(channels),
        state.ring@.len() <= capacity_frames * channels,
    ensures
        state.metrics.ring_fill_frames <= capacity_frames,
{
    let fill = state.metrics.ring_fill_frames;
    assert(fill <= capacity_frames) by (nonlinear_arith)
        requires
            fill * channels <= capacity_frames * channels,
            channels > 0,
    ;
}

/// The number of whole frames that still fit where `limit` samples may be queued.
pub open spec fn room(queued: Seq<Float32>, limit: nat, channels: nat) -> int {
    (limit - queued.len()) / channels as int
}

/// Why interleaved samples cannot be written.
pub open spec fn write_error(
    state: PcmStreamState,
    pcm: Seq<Float32>,
    limit: nat,
    channels: nat,
) -> Option<PcmStreamError> {
    let frames = pcm.len() as int / channels as int;
    let free = room(state.ring@, limit, channels);
    if state.closed {
        Some(PcmStreamError::StreamClosed)
    } else if pcm.len() as int % channels as int != 0 {
        Some(PcmStreamError::InvalidBufferLength)
    } else if frames > free {
        Some(
            PcmStreamError::BufferFull {
                requested_frames: frames as usize,
                available_frames: free as usize,
            },
        )
    } else {
        None
    }
}

impl PcmWriter {
    /// The number of samples in a frame.
    pub closed spec fn channels(self) -> nat {
        self.channels as nat
    }

    /// The number of samples that may be queued.
    pub closed spec fn limit(self) -> nat {
        self.logical_capacity_samples as nat
    }

    /// The writer belongs to the stream: what it may queue fits in the ring, and no more is queued.
    pub open spec fn serves(self, state: PcmStreamState) -> bool {
        &&& 0 < self.channels()
        &&& self.limit() <= state.ring.capacity()
        &&& state.ring@.len() <= self.limit()
    }

    /// A writer of frames of `channels` samples.
    pub fn new(producer: Producer, channels: usize, logical_capacity_samples: usize) -> (writer:
        Self)
        requires
            channels > 0,
        ensures
            writer.channels() == channels,
            writer.limit() == logical_capacity_samples,
    {
        PcmWriter { producer, channels, logical_capacity_samples }
    }

    /// Writes complete interleaved frames without blocking.
    ///
    /// The ring is unchanged and [`PcmStreamError::BufferFull`] is returned unless every frame
    /// fits.
    pub fn try_write_interleaved(&mut self, state: &mut PcmStreamState, pcm: &[Float32]) -> (result:
        Result<(), PcmStreamError>)
        requires
            old(self).serves(*old(state)),
        ensures
            *final(self) == *old(self),
            final(self).serves(*final(state)),
            old(state).feed().counts(old(self).channels()) ==> final(state).feed().counts(
                old(self).channels(),
            ),
            match result {
                Ok(()) => {
                    &&& write_error(
                        *old(state),
                        pcm@,
                        old(self).limit(),
                        old(self).channels(),
                    ) is None
                    &&& final(state).same_but_feed(*old(state))
                    &&& final(state).ring@ == old(state).ring@ + pcm@
                    &&& final(state).metrics.ring_fill_frames
                        == old(state).metrics.ring_fill_frames.wrapping_add(
                        (pcm@.len() as int / old(self).channels() as int) as usize,
                    )
                },
                Err(error) => {
                    &&& write_error(*old(state), pcm@, old(self).limit(), old(self).channels())
                        == Some(error)
                    &&& *final(state) == *old(state)
                },
            },
    {
        if let Err(error) = state.ensure_open() {
            return Err(error);
        }
        if pcm.len() % self.channels != 0 {
            return Err(PcmStreamError::InvalidBufferLength);
        }
        let requested_frames: usize = pcm.len() / self.channels;
        let used_samples: usize = state.ring.queued();
        let available_frames: usize = (self.logical_capacity_samples - used_samples)
            / self.channels;
        if requested_frames > available_frames {
            return Err(PcmStreamError::BufferFull { requested_frames, available_frames });
        }
        proof {
            let channels = self.channels as int;
            let free = self.logical_capacity_samples - used_samples;
            lemma_fundamental_div_mod(pcm@.len() as int, channels);
            lemma_fundamental_div_mod(free, channels);
            lemma_mul_is_commutative(channels, requested_frames as int);
            lemma_mul_is_commutative(channels, available_frames as int);
            lemma_mul_inequality(requested_frames as int, available_frames as int, channels);
            assert(pcm@.len() <= free);
            if old(state).feed().counts(self.channels()) {
                lemma_frames_counted(
                    old(state).feed(),
                    pcm@,
                    requested_frames,
                    self.channels(),
                );
            }
        }
        state.add_fill(requested_frames);
        self.producer.push_slice(&mut state.ring, pcm);
        Ok(())
    }
}

/// States of a resampler, each reached from the one before by putting out a frame.
pub open spec fn is_run<M: FloatMath>(run: Seq<Resampling>) -> bool {
    &&& run.len() > 0
    &&& forall|i: int|
        0 <= i < run.len() - 1 ==> resampler::steps::<M>(#[trigger] run[i], run[i + 1], true)
}

/// The frames that a run puts out stand at the front of `output`; behind them it is as it was.
pub open spec fn holds_run(
    run: Seq<Resampling>,
    channels: int,
    output_before: Seq<Float32>,
    output: Seq<Float32>,
) -> bool {
    &&& output.len() == output_before.len()
    &&& forall|k: int|
        0 <= k < output.len() ==> #[trigger] output[k] == if k < (run.len() - 1) * channels {
            run[k / channels + 1].resampler.interpolated[k % channels]
        } else {
            output_before[k]
        }
}

/// What reading does: `count` frames are put out, and all that were asked for unless no more come.
pub open spec fn reads<M: FloatMath>(
    before: Resampling,
    output_before: Seq<Float32>,
    after: Resampling,
    output: Seq<Float32>,
    count: nat,
) -> bool {
    let channels = before.resampler.channels as int;
    let requested = output_before.len() as int / channels;
    exists|run: Seq<Resampling>|
        {
            &&& #[trigger] is_run::<M>(run)
            &&& run.first() == before
            &&& run.len() == count + 1
            &&& count <= requested
            &&& holds_run(run, channels, output_before, output)
            &&& if count == requested {
                after == run.last()
            } else {
                resampler::steps::<M>(run.last(), after, false)
            }
        }
}

/// While too little is buffered to start, reading puts nothing out and consumes nothing.
pub proof fn priming_reads_nothing<M: FloatMath>(
    before: Resampling,
    output_before: Seq<Float32>,
    after: Resampling,
    output: Seq<Float32>,
    count: nat,
)
    requires
        before.resampler.wf(),
        before.waits(),
        reads::<M>(before, output_before, after, output, count),
    ensures
        count == 0,
        after == before,
        output == output_before,
{
    let channels = before.resampler.channels as int;
    let requested = output_before.len() as int / channels;
    let run = choose|run: Seq<Resampling>|
        {
            &&& #[trigger] is_run::<M>(run)
            &&& run.first() == before
            &&& run.len() == count + 1
            &&& count <= requested
            &&& holds_run(run, channels, output_before, output)
            &&& if count == requested {
                after == run.last()
            } else {
                resampler::steps::<M>(run.last(), after, false)
            }
        };
    if count > 0 {
        assert(resampler::steps::<M>(run[0], run[1], true));
    }
    assert((run.len() - 1) * channels == 0) by (nonlinear_arith)
        requires
            run.len() == 1,
    ;
    assert(output =~= output_before);
}

/// Where fewer frames are read than were asked for, playing has to start again.
pub proof fn short_reads_prime_again<M: FloatMath>(
    before: Resampling,
    output_before: Seq<Float32>,
    after: Resampling,
    output: Seq<Float32>,
    count: nat,
)
    requires
        before.resampler.wf(),
        reads::<M>(before, output_before, after, output, count),
        count < output_before.len() as int / before.resampler.channels as int,
    ensures
        !after.resampler.primed,
{
}

/// Why frames cannot be read.
pub open spec fn read_error(closed: bool, length: nat, channels: nat) -> Option<PcmStreamError> {
    if closed {
        Some(PcmStreamError::StreamClosed)
    } else if length as int % channels as int != 0 {
        Some(PcmStreamError::InvalidBufferLength)
    } else {
        None
    }
}

/// The unique, non-cloneable consumer for a capture stream.
pub struct PcmReader {
    resampler: RingResampler,
}

impl View for PcmReader {
    type V = ResamplerView;

    closed spec fn view(&self) -> ResamplerView {
        self.resampler@
    }
}

impl PcmReader {
    /// The reader with the feed of a stream.
    pub open spec fn with(self, state: PcmStreamState) -> Resampling {
        Resampling { resampler: self@, feed: state.feed() }
    }

    /// A reader of what the resampler puts out.
    pub fn new(resampler: RingResampler) -> (reader: Self)
        ensures
            reader@ == resampler@,
    {
        PcmReader { resampler }
    }

    /// The resampler that the reader draws on.
    pub fn resampler(&self) -> (resampler: &RingResampler)
        ensures
            resampler@ == self@,
    {
        &self.resampler
    }

    /// Reads as many complete interleaved frames as are currently available without blocking.
    ///
    /// While the stream is initially priming or re-priming, this returns `0` without consuming
    /// buffered PCM. If an already-primed stream runs out partway through this call, the frames
    /// produced before the underrun are returned and re-priming begins with the next call.
    pub fn try_read_interleaved<M: FloatMath>(
        &mut self,
        state: &mut PcmStreamState,
        pcm: &mut [Float32],
    ) -> (result: Result<usize, PcmStreamError>)
        requires
            old(self)@.wf(),
        ensures
            final(self)@.wf(),
            final(self)@.channels == old(self)@.channels,
            final(state).same_but_feed(*old(state)),
            old(state).feed().counts(old(self)@.channels) ==> final(state).feed().counts(
                old(self)@.channels,
            ),
            match result {
                Ok(count) => {
                    &&& read_error(old(state).closed, old(pcm)@.len(), old(self)@.channels) is None
                    &&& reads::<M>(
                        old(self).with(*old(state)),
                        old(pcm)@,
                        final(self).with(*final(state)),
                        final(pcm)@,
                        count as nat,
                    )
                },
                Err(error) => {
                    &&& read_error(old(state).closed, old(pcm)@.len(), old(self)@.channels)
                        == Some(error)
                    &&& *final(self) == *old(self)
                    &&& *final(state) == *old(state)
                    &&& final(pcm)@ == old(pcm)@
                },
            },
    {
        if let Err(error) = state.ensure_open() {
            return Err(error);
        }
        let channels: usize = self.resampler.channels();
        if pcm.len() % channels != 0 {
            return Err(PcmStreamError::InvalidBufferLength);
        }
        let length: usize = pcm.len();
        let requested_frames: usize = length / channels;
        let mut read_frames: usize = 0;
        let ghost before = self.with(*state);
        let ghost mut run: Seq<Resampling> = seq![before];
        proof {
            assert((run.len() - 1) * channels == 0) by (nonlinear_arith)
                requires
                    run.len() == 1,
            ;
            lemma_fundamental_div_mod(length as int, channels as int);
            lemma_mul_is_commutative(channels as int, requested_frames as int);
        }
        while read_frames < requested_frames
            invariant
                self@.wf(),
                self@.channels == channels,
                channels > 0,
                before == old(self).with(*old(state)),
                before.resampler.channels == channels,
                state.same_but_feed(*old(state)),
                before.feed.counts(channels as nat) ==> state.feed().counts(channels as nat),
                length == old(pcm)@.len(),
                pcm@.len() == length,
                length == requested_frames * channels,
                requested_frames == length as int / channels as int,
                read_frames <= requested_frames,
                is_run::<M>(run),
                run.first() == before,
                run.last() == self.with(*state),
                run.len() == read_frames + 1,
                read_error(old(state).closed, old(pcm)@.len(), old(self)@.channels) is None,
                holds_run(run, channels as int, old(pcm)@, pcm@),
            decreases requested_frames - read_frames,
        {
            let ghost here = self.with(*state);
            let ready = self.resampler.prepare_next_frame::<M>(state);
            let ghost there = self.with(*state);
            proof {
                if here.feed.counts(channels as nat) {
                    resampler::fill_follows_the_ring::<M>(here, there, ready);
                }
                assert(there.resampler.channels == channels);
            }
            if !ready {
                assert(reads::<M>(before, old(pcm)@, there, pcm@, read_frames as nat));
                return Ok(read_frames);
            }
            let ghost longer = run.push(there);
            proof {
                assert forall|i: int| 0 <= i < longer.len() - 1 implies resampler::steps::<M>(
                    #[trigger] longer[i],
                    longer[i + 1],
                    true,
                ) by {
                    if i < run.len() - 1 {
                        assert(resampler::steps::<M>(run[i], run[i + 1], true));
                    }
                }
                lemma_mul_inequality(
                    read_frames as int + 1,
                    requested_frames as int,
                    channels as int,
                );
                lemma_mul_is_distributive_add_other_way(channels as int, read_frames as int, 1);
                lemma_mul_nonnegative(read_frames as int, channels as int);
            }
            let start: usize = read_frames * channels;
            let ghost filled = pcm@;
            let mut channel: usize = 0;
            let frame = self.resampler.interpolated();
            while channel < channels
                invariant
                    channel <= channels,
                    frame@.len() == channels,
                    start + channels <= length,
                    pcm@.len() == length,
                    filled.len() == length,
                    forall|k: int|
                        0 <= k < length ==> #[trigger] pcm@[k] == if start <= k < start + channel {
                            frame@[k - start]
                        } else {
                            filled[k]
                        },
                decreases channels - channel,
            {
                pcm[start + channel] = frame[channel];
                channel = channel + 1;
            }
            proof {
                assert forall|k: int| 0 <= k < pcm@.len() implies #[trigger] pcm@[k] == if k < (
                longer.len() - 1) * channels {
                    longer[k / channels as int + 1].resampler.interpolated[k % channels as int]
                } else {
                    old(pcm)@[k]
                } by {
                    lemma_frame_index(k, read_frames as int, channels as int);
                    assert(filled[k] == if k < (run.len() - 1) * channels {
                        run[k / channels as int + 1].resampler.interpolated[k % channels as int]
                    } else {
                        old(pcm)@[k]
                    });
                }
                run = longer;
            }
            read_frames = read_frames + 1;
        }
        assert(reads::<M>(before, old(pcm)@, self.with(*state), pcm@, read_frames as nat));
        Ok(read_frames)
    }
}

/// Where the sample with index `k` stands, as seen from frame `frame`.
proof fn lemma_frame_index(k: int, frame: int, channels: int)
    requires
        0 <= k,
        0 <= frame,
        0 < channels,
    ensures
        k < frame * channels ==> 0 <= k / channels < frame,
        frame * channels <= k < frame * channels + channels ==> k / channels == frame && k
            % channels == k - frame * channels,
        0 <= k % channels < channels,
{
    lemma_fundamental_div_mod(k, channels);
    lemma_mod_bound(k, channels);
    lemma_div_pos_is_pos(k, channels);
    lemma_mul_is_commutative(frame, channels);
    if k < frame * channels {
        lemma_multiply_divide_lt(k, channels, frame);
    } else if k < frame * channels + channels {
        lemma_fundamental_div_mod_converse(k, channels, frame, k - frame * channels);
    }
}

/// What the playback callback works with.
pub struct PlaybackCallbackState {
    resampler: RingResampler,
}

impl View for PlaybackCallbackState {
    type V = ResamplerView;

    closed spec fn view(&self) -> ResamplerView {
        self.resampler@
    }
}

/// `r` is the fresh resampler of a stream whose nominal step is the ratio of two sample rates.
pub open spec fn is_fresh_for<M: FloatMath>(
    r: ResamplerView,
    config: PcmStreamConfig,
    channels: nat,
    from_rate: u32,
    to_rate: u32,
) -> bool {
    exists|step: Float64, ratio: Float64|
        {
            &&& #[trigger] call_ensures(M::rate_ratio, (from_rate, to_rate), step)
            &&& #[trigger] call_ensures(M::parts_per_million, (config.max_drift_ppm,), ratio)
            &&& r == ResamplerView::fresh(
                channels,
                config.target_fill_frames,
                config.capacity_frames,
                step,
                ratio,
            )
        }
}

/// The resampler of a stream.
fn stream_resampler<M: FloatMath>(
    consumer: Consumer,
    channels: usize,
    config: &PcmStreamConfig,
    from_rate: u32,
    to_rate: u32,
) -> (resampler: RingResampler)
    requires
        channels > 0,
        config.target_fill_frames <= config.capacity_frames,
    ensures
        resampler@.wf(),
        is_fresh_for::<M>(resampler@, *config, channels as nat, from_rate, to_rate),
{
    let step = M::rate_ratio(from_rate, to_rate);
    RingResampler::new::<M>(
        consumer,
        channels,
        config.target_fill_frames,
        config.capacity_frames,
        step,
        config.max_drift_ppm,
    )
}

impl PlaybackCallbackState {
    /// The callback's resampler with the feed of a stream.
    pub open spec fn with(self, state: PcmStreamState) -> Resampling {
        Resampling { resampler: self@, feed: state.feed() }
    }

    /// A callback that has not been called yet.
    pub fn new<M: FloatMath>(
        consumer: Consumer,
        channels: usize,
        config: &PcmStreamConfig,
        device_sample_rate: u32,
    ) -> (callback: Self)
        requires
            channels > 0,
            config.target_fill_frames <= config.capacity_frames,
        ensures
            callback@.wf(),
            is_fresh_for::<M>(
                callback@,
                *config,
                channels as nat,
                config.client_format.sample_rate,
                device_sample_rate,
            ),
    {
        let resampler = stream_resampler::<M>(
            consumer,
            channels,
            config,
            config.client_format.sample_rate,
            device_sample_rate,
        );
        PlaybackCallbackState { resampler }
    }

    /// The resampler that the callback draws on.
    pub fn resampler(&self) -> (resampler: &RingResampler)
        ensures
            resampler@ == self@,
    {
        &self.resampler
    }

    /// The number of samples in a frame.
    pub fn channels(&self) -> (channels: usize)
        ensures
            channels == self@.channels,
    {
        self.resampler.channels()
    }

    /// The next frame to be played, where there is one.
    ///
    /// A frame that is not there counts as an underrun once playing has started for the first time.
    pub fn next_frame<M: FloatMath>(&mut self, state: &mut PcmStreamState) -> (frame: Option<
        &[Float32],
    >)
        requires
            old(self)@.wf(),
        ensures
            final(self)@.wf(),
            final(self)@.channels == old(self)@.channels,
            resampler::steps::<M>(
                old(self).with(*old(state)),
                final(self).with(*final(state)),
                frame is Some,
            ),
            old(state).feed().counts(old(self)@.channels) ==> final(state).feed().counts(
                old(self)@.channels,
            ),
            frame matches Some(frame) ==> frame@ == final(self)@.interpolated,
            final(state).ring.capacity() == old(state).ring.capacity(),
            final(state).closed == old(state).closed,
            final(state).metrics == (PcmStreamMetrics {
                ring_fill_frames: final(state).metrics.ring_fill_frames,
                transferred_frames: if frame is Some {
                    old(state).metrics.transferred_frames.wrapping_add(1)
                } else {
                    old(state).metrics.transferred_frames
                },
                underrun_frames: if frame is None && old(self)@.has_primed {
                    old(state).metrics.underrun_frames.wrapping_add(1)
                } else {
                    old(state).metrics.underrun_frames
                },
                ..old(state).metrics
            }),
    {
        let count_as_underrun = self.resampler.has_primed();
        let ghost before = self.with(*state);
        let ready = self.resampler.prepare_next_frame::<M>(state);
        proof {
            if before.feed.counts(before.resampler.channels) {
                resampler::fill_follows_the_ring::<M>(before, self.with(*state), ready);
            }
        }
        if ready {
            state.transferred(1);
            Some(self.resampler.interpolated())
        } else {
            if count_as_underrun {
                state.underrun(1);
            }
            None
        }
    }
}

/// What the capture callback works with.
pub struct CaptureCallbackState {
    producer: Producer,
    channels: usize,
    logical_capacity_samples: usize,
    scratch: Vec<Float32>,
}

/// The number of frames of `input` that find room.
pub open spec fn captured_frames(
    queued: Seq<Float32>,
    input: Seq<Float32>,
    limit: nat,
    channels: nat,
) -> int {
    let frames = input.len() as int / channels as int;
    let free = room(queued, limit, channels);
    if frames <= free {
        frames
    } else {
        free
    }
}

impl CaptureCallbackState {
    /// The number of samples in a frame.
    pub closed spec fn frame_size(self) -> nat {
        self.channels as nat
    }

    /// The number of samples that may be queued.
    pub closed spec fn limit(self) -> nat {
        self.logical_capacity_samples as nat
    }

    /// The frame that is being put together.
    pub closed spec fn frame(self) -> Seq<Float32> {
        self.scratch@
    }

    /// The callback belongs to the stream: what it may queue fits in the ring, no more is queued,
    /// and the frame that is being put together is a whole one.
    pub open spec fn serves(self, state: PcmStreamState) -> bool {
        &&& 0 < self.frame_size()
        &&& self.frame().len() == self.frame_size()
        &&& self.limit() <= state.ring.capacity()
        &&& state.ring@.len() <= self.limit()
    }

    /// A callback that has not been called yet.
    pub fn new(producer: Producer, channels: usize, capacity_frames: usize) -> (callback: Self)
        requires
            channels > 0,
            capacity_frames * channels <= usize::MAX,
        ensures
            callback.frame_size() == channels,
            callback.limit() == capacity_frames * channels,
            callback.frame() == ring::silent(channels as nat),
    {
        CaptureCallbackState {
            producer,
            channels,
            logical_capacity_samples: capacity_frames * channels,
            scratch: ring::silence(channels),
        }
    }

    /// The number of samples in a frame.
    pub fn channels(&self) -> (channels: usize)
        ensures
            channels == self.frame_size(),
    {
        self.channels
    }

    /// Tells whether one more frame fits.
    pub fn has_capacity_for_frame(&self, state: &PcmStreamState) -> (fits: bool)
        requires
            self.serves(*state),
        ensures
            fits == (state.ring@.len() + self.frame_size() <= self.limit()),
    {
        let used_samples: usize = state.ring.queued();
        self.channels <= self.logical_capacity_samples - used_samples
    }

    /// The frame that is being put together.
    pub fn scratch_mut(&mut self) -> (scratch: &mut [Float32])
        ensures
            scratch@ == old(self).frame(),
            final(self).frame() == final(scratch)@,
            final(self).frame_size() == old(self).frame_size(),
            final(self).limit() == old(self).limit(),
    {
        self.scratch.as_mut_slice()
    }

    /// Queues the frame that was put together.
    pub fn commit_scratch_frame(&mut self, state: &mut PcmStreamState)
        requires
            old(self).serves(*old(state)),
            old(state).ring@.len() + old(self).frame_size() <= old(self).limit(),
        ensures
            *final(self) == *old(self),
            final(self).serves(*final(state)),
            final(state).ring.capacity() == old(state).ring.capacity(),
            final(state).ring@ == old(state).ring@ + old(self).frame(),
            final(state).closed == old(state).closed,
            final(state).metrics == (PcmStreamMetrics {
                ring_fill_frames: old(state).metrics.ring_fill_frames.wrapping_add(1),
                transferred_frames: old(state).metrics.transferred_frames.wrapping_add(1),
                ..old(state).metrics
            }),
            old(state).feed().counts(old(self).frame_size()) ==> final(state).feed().counts(
                old(self).frame_size(),
            ),
    {
        proof {
            assert(1 * self.frame_size() == self.frame_size());
            if state.feed().counts(self.frame_size()) {
                lemma_frames_counted(state.feed(), self.frame(), 1, self.frame_size());
            }
        }
        state.add_fill(1);
        self.producer.push_slice(&mut state.ring, self.scratch.as_slice());
        state.transferred(1);
    }

    /// Queues the whole frames of `input` as far as they fit, and counts the others as overruns.
    pub fn capture_interleaved(&mut self, state: &mut PcmStreamState, input: &[Float32])
        requires
            old(self).serves(*old(state)),
        ensures
            final(self).serves(*final(state)),
            final(self).frame_size() == old(self).frame_size(),
            final(self).limit() == old(self).limit(),
            final(state).ring.capacity() == old(state).ring.capacity(),
            final(state).closed == old(state).closed,
            old(state).feed().counts(old(self).frame_size()) ==> final(state).feed().counts(
                old(self).frame_size(),
            ),
            ({
                let channels = old(self).frame_size();
                let frames = input@.len() as int / channels as int;
                let taken = captured_frames(
                    old(state).ring@,
                    input@,
                    old(self).limit(),
                    channels,
                );
                &&& final(state).ring@ == old(state).ring@ + input@.take(taken * channels)
                &&& final(state).metrics == (PcmStreamMetrics {
                    ring_fill_frames: old(state).metrics.ring_fill_frames.wrapping_add(
                        taken as usize,
                    ),
                    transferred_frames: old(state).metrics.transferred_frames.wrapping_add(
                        taken as u64,
                    ),
                    overrun_frames: old(state).metrics.overrun_frames.wrapping_add(
                        (frames - taken) as u64,
                    ),
                    ..old(state).metrics
                })
                &&& final(self).frame() == if taken == 0 {
                    old(self).frame()
                } else {
                    input@.subrange((taken - 1) * channels, taken * channels)
                }
            }),
    {
        let channels: usize = self.channels;
        let length: usize = input.len();
        let frames: usize = length / channels;
        let mut frame: usize = 0;
        let ghost mut taken: int = 0;
        let ghost queued = state.ring@;
        let ghost limit = self.limit();
        let ghost free = room(queued, limit, channels as nat);
        proof {
            lemma_fundamental_div_mod(length as int, channels as int);
            lemma_mul_is_commutative(channels as int, frames as int);
            lemma_div_pos_is_pos(limit - queued.len(), channels as int);
            assert(0 * channels == 0);
            assert(input@.take(0) =~= Seq::<Float32>::empty());
        }
        while frame < frames
            invariant
                channels > 0,
                channels == self.frame_size(),
                self.frame_size() == old(self).frame_size(),
                self.limit() == old(self).limit(),
                limit == old(self).limit(),
                queued == old(state).ring@,
                queued.len() <= limit,
                free == room(queued, limit, channels as nat),
                free >= 0,
                self.serves(*state),
                length == input@.len(),
                frames * channels <= length,
                frame <= frames,
                0 <= taken <= frame,
                taken == if frame <= free {
                    frame as int
                } else {
                    free
                },
                state.ring.capacity() == old(state).ring.capacity(),
                state.closed == old(state).closed,
                old(state).feed().counts(channels as nat) ==> state.feed().counts(channels as nat),
                0 <= taken * channels <= length,
                state.ring@ == queued + input@.take(taken * channels),
                state.metrics == (PcmStreamMetrics {
                    ring_fill_frames: old(state).metrics.ring_fill_frames.wrapping_add(
                        taken as usize,
                    ),
                    transferred_frames: old(state).metrics.transferred_frames.wrapping_add(
                        taken as u64,
                    ),
                    overrun_frames: old(state).metrics.overrun_frames.wrapping_add(
                        (frame - taken) as u64,
                    ),
                    ..old(state).metrics
                }),
                self.frame() == if taken == 0 {
                    old(self).frame()
                } else {
                    input@.subrange((taken - 1) * channels, taken * channels)
                },
            decreases frames - frame,
        {
            proof {
                lemma_mul_inequality(frame as int + 1, frames as int, channels as int);
                lemma_mul_is_distributive_add_other_way(channels as int, frame as int, 1);
                lemma_mul_nonnegative(frame as int, channels as int);
                lemma_room(limit - queued.len(), channels as int, taken);
            }
            if self.has_capacity_for_frame(state) {
                assert(taken == frame);
                let start: usize = frame * channels;
                self.fill_scratch(slice_subrange(input, start, start + channels));
                self.commit_scratch_frame(state);
                proof {
                    assert(state.ring@ =~= queued + input@.take((taken + 1) * channels));
                    taken = taken + 1;
                }
            } else {
                state.overrun(1);
            }
            frame = frame + 1;
        }
    }

    /// Puts a frame together.
    fn fill_scratch(&mut self, frame: &[Float32])
        requires
            frame@.len() == old(self).frame().len(),
        ensures
            final(self).frame() == frame@,
            final(self).frame_size() == old(self).frame_size(),
            final(self).limit() == old(self).limit(),
    {
        let mut channel: usize = 0;
        while channel < frame.len()
            invariant
                self.frame_size() == old(self).frame_size(),
                self.limit() == old(self).limit(),
                self.frame().len() == frame@.len(),
                channel <= frame@.len(),
                forall|c: int| 0 <= c < channel ==> self.frame()[c] == frame@[c],
            decreases frame.len() - channel,
        {
            self.scratch[channel] = frame[channel];
            channel = channel + 1;
        }
        assert(self.frame() =~= frame@);
    }
}

/// One more frame fits behind `taken` ones exactly where `taken` is less than what fits in all.
proof fn lemma_room(free: int, channels: int, taken: int)
    requires
        0 <= free,
        0 < channels,
        0 <= taken,
    ensures
        (taken * channels + channels <= free) == (taken < free / channels),
        (taken + 1) * channels == taken * channels + channels,
        taken >= 1 ==> (taken - 1) * channels == taken * channels - channels,
        0 <= taken * channels,
{
    let n = free / channels;
    lemma_fundamental_div_mod(free, channels);
    lemma_mod_bound(free, channels);
    lemma_mul_is_commutative(channels, n);
    lemma_mul_is_distributive_add_other_way(channels, taken, 1);
    lemma_mul_is_distributive_sub_other_way(channels, taken, 1);
    lemma_mul_nonnegative(taken, channels);
    if taken < n {
        lemma_mul_inequality(taken + 1, n, channels);
    } else {
        lemma_mul_inequality(n, taken, channels);
    }
}

/// Nothing is queued and nothing is counted in a stream that is open and has the configured size.
pub open spec fn is_fresh(state: PcmStreamState, config: PcmStreamConfig) -> bool {
    &&& ring::is_next_pow2(
        config.capacity_frames * config.client_format.channels,
        state.ring.capacity() as int,
    )
    &&& state.ring@ == Seq::<Float32>::empty()
    &&& !state.closed
    &&& state.metrics == (PcmStreamMetrics {
        callbacks: 0,
        transferred_frames: 0,
        underrun_frames: 0,
        overrun_frames: 0,
        format_errors: 0,
        ring_fill_frames: 0,
        ring_capacity_frames: config.capacity_frames,
    })
}

/// The sizes, the handles and the shared state that a usable configuration calls for.
fn open_stream(config: &PcmStreamConfig, validated: ValidatedConfig) -> (result: Result<
    (Producer, Consumer, PcmStreamState),
    PcmStreamError,
>)
    requires
        config_error(*config) is None,
        is_validated(*config, validated),
    ensures
        match result {
            Ok((producer, consumer, state)) => is_fresh(state, *config),
            Err(error) => false,
        },
{
    proof {
        let channels = config.client_format.channels as int;
        assert(config.capacity_frames * channels >= 2) by (nonlinear_arith)
            requires
                config.capacity_frames >= 2,
                channels >= 1,
        ;
    }
    match create_ring(validated.internal_sample_capacity) {
        Ok((producer, consumer, ring)) => {
            let state = PcmStreamState::new(ring, config.capacity_frames);
            Ok((producer, consumer, state))
        },
        Err(error) => Err(error),
    }
}

/// An active process-to-Core-Audio-output stream that can be moved between threads.
///
/// On a VCable device, PCM written through the associated [`PcmWriter`] is played into the
/// device's output side and becomes available from the device's looped-back input side.
pub struct PcmPlaybackStream {
    pub state: PcmStreamState,
}

impl PcmPlaybackStream {
    /// Sets up a stream to a device that has been looked up, whose sample rate is given.
    ///
    /// A configuration that cannot be used is refused first, then a device that was not found.
    pub fn start<M: FloatMath>(
        config: PcmStreamConfig,
        device_sample_rate: Result<u32, PcmStreamError>,
    ) -> (result: Result<(Self, PcmWriter, PlaybackCallbackState), PcmStreamError>)
        ensures
            match result {
                Ok((stream, writer, callback)) => {
                    &&& config_error(config) is None
                    &&& is_fresh(stream.state, config)
                    &&& writer.channels() == config.client_format.channels
                    &&& writer.limit() == config.capacity_frames * config.client_format.channels
                    &&& writer.serves(stream.state)
                    &&& callback@.wf()
                    &&& device_sample_rate matches Ok(rate) && is_fresh_for::<M>(
                        callback@,
                        config,
                        config.client_format.channels as nat,
                        config.client_format.sample_rate,
                        rate,
                    )
                },
                Err(error) => match config_error(config) {
                    Some(refusal) => error == refusal,
                    None => device_sample_rate == Err::<u32, PcmStreamError>(error),
                },
            },
    {
        let validated = match validate_config(&config) {
            Ok(validated) => validated,
            Err(error) => {
                return Err(error);
            },
        };
        let rate = match device_sample_rate {
            Ok(rate) => rate,
            Err(error) => {
                return Err(error);
            },
        };
        match open_stream(&config, validated) {
            Ok((producer, consumer, state)) => {
                let writer = PcmWriter::new(
                    producer,
                    validated.channels,
                    validated.logical_capacity_samples,
                );
                let callback = PlaybackCallbackState::new::<M>(
                    consumer,
                    validated.channels,
                    &config,
                    rate,
                );
                Ok((PcmPlaybackStream { state }, writer, callback))
            },
            Err(error) => Err(error),
        }
    }

    /// Returns a point-in-time snapshot.
    pub fn metrics(&self) -> (metrics: PcmStreamMetrics)
        ensures
            metrics == self.state.metrics,
    {
        self.state.snapshot()
    }

    /// Ends the stream.
    pub fn close(&mut self)
        ensures
            final(self).state.ring == old(self).state.ring,
            final(self).state.metrics == old(self).state.metrics,
            final(self).state.closed,
    {
        self.state.close();
    }
}

/// An active Core-Audio-input-to-process stream that can be moved between threads.
///
/// On a VCable device, the associated [`PcmReader`] captures PCM from the input side, including
/// PCM looped back from a [`PcmPlaybackStream`] using the same device.
pub struct PcmCaptureStream {
    pub state: PcmStreamState,
}

impl PcmCaptureStream {
    /// Sets up a stream from a device that has been looked up, whose sample rate is given.
    ///
    /// A configuration that cannot be used is refused first, then a device that was not found.
    pub fn start<M: FloatMath>(
        config: PcmStreamConfig,
        device_sample_rate: Result<u32, PcmStreamError>,
    ) -> (result: Result<(Self, PcmReader, CaptureCallbackState), PcmStreamError>)
        ensures
            match result {
                Ok((stream, reader, callback)) => {
                    &&& config_error(config) is None
                    &&& is_fresh(stream.state, config)
                    &&& callback.frame_size() == config.client_format.channels
                    &&& callback.limit() == config.capacity_frames * config.client_format.channels
                    &&& callback.frame() == ring::silent(config.client_format.channels as nat)
                    &&& callback.serves(stream.state)
                    &&& reader@.wf()
                    &&& device_sample_rate matches Ok(rate) && is_fresh_for::<M>(
                        reader@,
                        config,
                        config.client_format.channels as nat,
                        rate,
                        config.client_format.sample_rate,
                    )
                },
                Err(error) => match config_error(config) {
                    Some(refusal) => error == refusal,
                    None => device_sample_rate == Err::<u32, PcmStreamError>(error),
                },
            },
    {
        let validated = match validate_config(&config) {
            Ok(validated) => validated,
            Err(error) => {
                return Err(error);
            },
        };
        let rate = match device_sample_rate {
            Ok(rate) => rate,
            Err(error) => {
                return Err(error);
            },
        };
        match open_stream(&config, validated) {
            Ok((producer, consumer, state)) => {
                let callback = CaptureCallbackState::new(
                    producer,
                    validated.channels,
                    config.capacity_frames,
                );
                let resampler = stream_resampler::<M>(
                    consumer,
                    validated.channels,
                    &config,
                    rate,
                    config.client_format.sample_rate,
                );
                Ok((PcmCaptureStream { state }, PcmReader::new(resampler), callback))
            },
            Err(error) => Err(error),
        }
    }

    /// Returns a point-in-time snapshot.
    pub fn metrics(&self) -> (metrics: PcmStreamMetrics)
        ensures
            metrics == self.state.metrics,
    {
        self.state.snapshot()
    }

    /// Ends the stream.
    pub fn close(&mut self)
        ensures
            final(self).state.ring == old(self).state.ring,
            final(self).state.metrics == old(self).state.metrics,
            final(self).state.closed,
    {
        self.state.close();
    }
}

} // verus!
