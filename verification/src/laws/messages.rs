//! Laws of the messages that people read.
use vstd::prelude::*;
use crate::daemon::DaemonError;
use crate::device::CoreAudioError;
use crate::graph::GraphError;
use crate::matrix::MatrixError;
use crate::pcm::{PcmStreamDirection, PcmStreamError};
use crate::protocol::ProtocolError;
use crate::ring::RingBufferError;
use crate::text;

verus! {

/// The message of a graph error names what is wrong.
pub proof fn graph_errors_name_what_is_wrong(error: GraphError, message: String, inner: String)
    requires
        call_ensures(GraphError::text, (&error,), message),
        error matches GraphError::Matrix(cause) ==> call_ensures(
            MatrixError::text,
            (&cause,),
            inner,
        ),
    ensures
        message@ == match error {
            GraphError::InvalidIdentifier(value) => "invalid identifier: "@ + value@,
            GraphError::ZeroChannels => "endpoint channel count must be greater than zero"@,
            GraphError::InvalidSampleRate(rate) => "invalid sample rate: "@ + text::digits(
                rate as nat,
            ),
            GraphError::EndpointExists(id) => "endpoint already exists: "@ + id@,
            GraphError::EndpointNotFound(id) => "endpoint not found: "@ + id@,
            GraphError::EndpointInUse(id) => "endpoint is referenced by a route: "@ + id@,
            GraphError::RouteExists(id) => "route already exists: "@ + id@,
            GraphError::RouteNotFound(id) => "route not found: "@ + id@,
            GraphError::SourceDirectionRequired(id) => "endpoint is not a source: "@ + id@,
            GraphError::SinkDirectionRequired(id) => "endpoint is not a sink: "@ + id@,
            GraphError::MatrixInputMismatch { expected, actual } => "matrix has "@ + text::digits(
                actual as nat,
            ) + " inputs; source has "@ + text::digits(expected as nat),
            GraphError::MatrixOutputMismatch { expected, actual } => "matrix has "@ + text::digits(
                actual as nat,
            ) + " outputs; sink has "@ + text::digits(expected as nat),
            GraphError::GainNotFinite => "route gain must be finite"@,
            GraphError::CycleDetected { source_node, sink_node } => "route from "@ + source_node@
                + " to "@ + sink_node@ + " creates a cycle"@,
            GraphError::Matrix(_) => inner@,
        },
{
}

/// The message of a matrix error names what is wrong.
pub proof fn matrix_errors_name_what_is_wrong(error: MatrixError, message: String)
    requires
        call_ensures(MatrixError::text, (&error,), message),
    ensures
        message@ == match error {
            MatrixError::ZeroChannels => "channel counts must be greater than zero"@,
            MatrixError::WrongCoefficientCount { expected, actual } => "expected "@ + text::digits(
                expected as nat,
            ) + " coefficients, received "@ + text::digits(actual as nat),
            MatrixError::NonFiniteCoefficient { index } => "coefficient "@ + text::digits(
                index as nat,
            ) + " is not finite"@,
            MatrixError::BufferLengthMismatch => "audio buffer length does not match the matrix"@,
            MatrixError::FrameCountOverflow => "frame count overflows the audio buffer length"@,
        },
{
}

/// The message of a daemon error names what is wrong, and that of an error from elsewhere is its own.
pub proof fn daemon_errors_name_what_is_wrong(error: DaemonError, message: String, inner: String)
    requires
        call_ensures(DaemonError::text, (&error,), message),
        error matches DaemonError::CoreAudio(cause) ==> call_ensures(
            CoreAudioError::text,
            (&cause,),
            inner,
        ),
        error matches DaemonError::Graph(cause) ==> call_ensures(
            GraphError::text,
            (&cause,),
            inner,
        ),
        error matches DaemonError::Matrix(cause) ==> call_ensures(
            MatrixError::text,
            (&cause,),
            inner,
        ),
    ensures
        message@ == match error {
            DaemonError::CoreAudio(_) => inner@,
            DaemonError::Graph(_) => inner@,
            DaemonError::Matrix(_) => inner@,
            DaemonError::Io(told) => told@,
            DaemonError::InvalidDeviceId(id) => "invalid device id: "@ + id@,
            DaemonError::DeviceInUse(id) => "device is referenced by a route: "@ + id@,
            DaemonError::RouteExists(id) => "route already exists: "@ + id@,
            DaemonError::RouteNotFound(id) => "route not found: "@ + id@,
            DaemonError::EndpointNotFound(id) => "endpoint not found: "@ + id@,
            DaemonError::MatrixRequired { inputs, outputs } => "an explicit "@ + text::digits(
                outputs as nat,
            ) + "x"@ + text::digits(inputs as nat) + " channel matrix is required"@,
            DaemonError::State(told) => told@,
        },
{
}

/// The message of a Core Audio error names what is wrong.
pub proof fn core_audio_errors_name_what_is_wrong(error: CoreAudioError, message: String)
    requires
        call_ensures(CoreAudioError::text, (&error,), message),
    ensures
        message@ == match error {
            CoreAudioError::UnsupportedPlatform => "Core Audio is available only on macOS"@,
            CoreAudioError::OsStatus(status) => "Core Audio returned OSStatus "@
                + text::signed_digits(status as int),
            CoreAudioError::InvalidProperty(name) => "invalid Core Audio property: "@ + name@,
            CoreAudioError::InvalidUtf8 => "Core Audio returned a non-UTF-8 string"@,
            CoreAudioError::DriverNotInstalled => "VCable HAL driver is not installed"@,
            CoreAudioError::DriverRejected(told) => "VCable driver rejected the request: "@ + told@,
            CoreAudioError::DeviceChangeTimeout { uid, expected_present: true } => {
                "timed out waiting for Core Audio device "@ + uid@ + " to become "@ + "visible"@
            },
            CoreAudioError::DeviceChangeTimeout { uid, expected_present: false } => {
                "timed out waiting for Core Audio device "@ + uid@ + " to become "@ + "absent"@
            },
            CoreAudioError::InvalidRoute(told) => "invalid audio route: "@ + told@,
        },
{
}

/// The message of a protocol error names what is wrong.
pub proof fn protocol_errors_name_what_is_wrong(error: ProtocolError, message: String)
    requires
        call_ensures(ProtocolError::text, (&error,), message),
    ensures
        message@ == match error {
            ProtocolError::Io(told) => told@,
            ProtocolError::MessageTooLarge(size) => "message is too large: "@ + text::digits(
                size as nat,
            ) + " bytes"@,
            ProtocolError::Truncated => "message is truncated"@,
            ProtocolError::InvalidUtf8 => "message is not valid UTF-8"@,
            ProtocolError::InvalidMessage(told) => "invalid message: "@ + told@,
        },
{
}

/// The message of a ring-buffer error names what is wrong.
pub proof fn ring_errors_name_what_is_wrong(error: RingBufferError, message: String)
    requires
        call_ensures(RingBufferError::text, (&error,), message),
    ensures
        message@ == match error {
            RingBufferError::CapacityTooSmall => "ring-buffer capacity must be at least two"@,
            RingBufferError::CapacityNotPowerOfTwo => {
                "ring-buffer capacity must be a power of two"@
            },
        },
{
}

/// The message of a stream error names what is wrong.
pub proof fn stream_errors_name_what_is_wrong(error: PcmStreamError, message: String)
    requires
        call_ensures(PcmStreamError::text, (&error,), message),
    ensures
        message@ == match error {
            PcmStreamError::UnsupportedPlatform => "PCM Core Audio streams require macOS"@,
            PcmStreamError::DeviceNotFound { uid } => "Core Audio device UID not found: "@ + uid@,
            PcmStreamError::AmbiguousDevice { uid, matches } => "Core Audio device UID "@ + uid@
                + " matched "@ + text::digits(matches as nat) + " devices"@,
            PcmStreamError::WrongDirection { uid, required: PcmStreamDirection::Input } => {
                "Core Audio device "@ + uid@ + " has no "@ + "input"@ + " channels"@
            },
            PcmStreamError::WrongDirection { uid, required: PcmStreamDirection::Output } => {
                "Core Audio device "@ + uid@ + " has no "@ + "output"@ + " channels"@
            },
            PcmStreamError::FormatMismatch { expected, actual } => {
                "PCM format mismatch: expected "@ + text::digits(expected.sample_rate as nat)
                    + " Hz/"@ + text::digits(expected.channels as nat) + " channels, got "@
                    + text::digits(actual.sample_rate as nat) + " Hz/"@ + text::digits(
                    actual.channels as nat,
                ) + " channels"@
            },
            PcmStreamError::UnsupportedDevicePcmFormat { uid } => "Core Audio device "@ + uid@
                + " does not expose packed f32 PCM"@,
            PcmStreamError::InvalidChannelCount => "channel count must be greater than zero"@,
            PcmStreamError::InvalidSampleRate => "sample rate must be greater than zero"@,
            PcmStreamError::InvalidBufferLength => {
                "interleaved buffer length is not a whole number of frames"@
            },
            PcmStreamError::InvalidRingCapacity => "invalid PCM ring-buffer capacity"@,
            PcmStreamError::InvalidTargetFill => "target fill must be inside the PCM ring buffer"@,
            PcmStreamError::InvalidDriftPpm => "max drift must be less than 1,000,000 ppm"@,
            PcmStreamError::BufferFull { requested_frames, available_frames } => {
                "PCM ring buffer is full: requested "@ + text::digits(requested_frames as nat)
                    + " frames, "@ + text::digits(available_frames as nat) + " available"@
            },
            PcmStreamError::StreamClosed => "PCM stream is closed"@,
            PcmStreamError::CoreAudioOsStatus(status) => "Core Audio returned OSStatus "@
                + text::signed_digits(status as int),
            PcmStreamError::CoreAudioProperty(name) => "invalid Core Audio property: "@ + name@,
            PcmStreamError::CoreAudio(told) => "Core Audio error: "@ + told@,
        },
{
}

/// Core Audio errors that a stream can tell are told as its own, and the others by their message.
pub proof fn core_audio_errors_are_told_by_streams(
    error: CoreAudioError,
    told: PcmStreamError,
    message: String,
)
    requires
        call_ensures(<PcmStreamError as From<CoreAudioError>>::from, (error,), told),
        call_ensures(CoreAudioError::text, (&error,), message),
    ensures
        match error {
            CoreAudioError::UnsupportedPlatform => told is UnsupportedPlatform,
            CoreAudioError::OsStatus(status) => told == PcmStreamError::CoreAudioOsStatus(status),
            CoreAudioError::InvalidProperty(name) => told matches PcmStreamError::CoreAudioProperty(
                property,
            ) && property@ == name@,
            _ => told matches PcmStreamError::CoreAudio(text) && text@ == message@,
        },
{
}

} // verus!
