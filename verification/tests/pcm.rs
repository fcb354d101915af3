use vcable::pcm::{
    create_ring, validate_config, CaptureCallbackState, PlaybackCallbackState,
};
use vcable::resampler::RingResampler;
use vcable::{
    CoreAudioError, Float32, Float64, FloatMath, PcmCaptureStream, PcmFormat, PcmPlaybackStream,
    PcmReader, PcmStreamConfig, PcmStreamDirection, PcmStreamError, PcmStreamMetrics,
    PcmStreamState, PcmWriter,
};

struct Hardware;

fn sample(value: f32) -> Float32 {
    Float32 { bits: value.to_bits() }
}

fn value(sample: Float32) -> f32 {
    f32::from_bits(sample.bits)
}

fn double(value: f64) -> Float64 {
    Float64 { bits: value.to_bits() }
}

fn wide(value: Float64) -> f64 {
    f64::from_bits(value.bits)
}

fn samples(values: &[f32]) -> Vec<Float32> {
    values.iter().map(|value| sample(*value)).collect()
}

fn values(samples: &[Float32]) -> Vec<f32> {
    samples.iter().map(|sample| value(*sample)).collect()
}

impl FloatMath for Hardware {
    fn empty_sum() -> Float32 {
        sample(std::iter::empty::<f32>().sum())
    }

    fn add(left: Float32, right: Float32) -> Float32 {
        sample(value(left) + value(right))
    }

    fn mul(left: Float32, right: Float32) -> Float32 {
        sample(value(left) * value(right))
    }

    fn interpolate(current: Float32, next: Float32, phase: Float64) -> Float32 {
        let (current, next) = (value(current), value(next));
        sample(current + (next - current) * wide(phase) as f32)
    }

    fn rate_ratio(numerator: u32, denominator: u32) -> Float64 {
        double(f64::from(numerator) / f64::from(denominator))
    }

    fn whole_hertz(rate: Float64) -> u32 {
        wide(rate).round() as u32
    }

    fn parts_per_million(ppm: u32) -> Float64 {
        double(f64::from(ppm) / 1_000_000.0)
    }

    fn drift_correction(fill: usize, target: usize, span: usize, limit: Float64) -> Float64 {
        let limit = wide(limit);
        let error = fill as f64 - target as f64;
        double((error / span as f64 * limit).clamp(-limit, limit))
    }

    fn fill_correction(available: usize, startup: usize) -> Float64 {
        let target = startup as f64;
        let error = (available as f64 - target) / target;
        double((error * 0.0005).clamp(-0.001, 0.001))
    }

    fn advance_phase(phase: Float64, step: Float64, correction: Float64) -> Float64 {
        double(wide(phase) + wide(step) * (1.0 + wide(correction)))
    }

    fn has_whole_frame(phase: Float64) -> bool {
        wide(phase) >= 1.0
    }

    fn without_whole_frame(phase: Float64) -> Float64 {
        double(wide(phase) - 1.0)
    }

    fn coefficient(millionths: i32) -> Float32 {
        sample(millionths as f32 / 1_000_000.0)
    }

    fn gain(millidb: i32) -> Float32 {
        let gain_db = millidb as f32 / 1_000.0;
        sample(10.0_f32.powf(gain_db / 20.0))
    }

    fn six_decimals(gain: Float32) -> String {
        format!("{:.6}", value(gain))
    }
}

fn config(capacity_frames: usize, target_fill_frames: usize) -> PcmStreamConfig {
    PcmStreamConfig {
        device_uid: "test-device".to_owned(),
        client_format: PcmFormat {
            sample_rate: 48_000,
            channels: 2,
        },
        capacity_frames,
        target_fill_frames,
        max_drift_ppm: 1_000,
    }
}

fn playback_harness(
    config: &PcmStreamConfig,
) -> (PcmWriter, PlaybackCallbackState, PcmStreamState) {
    let validated = validate_config(config).unwrap();
    let (producer, consumer, ring) = create_ring(validated.internal_sample_capacity).unwrap();
    (
        PcmWriter::new(
            producer,
            validated.channels,
            validated.logical_capacity_samples,
        ),
        PlaybackCallbackState::new::<Hardware>(
            consumer,
            validated.channels,
            config,
            config.client_format.sample_rate,
        ),
        PcmStreamState::new(ring, config.capacity_frames),
    )
}

fn capture_harness(config: &PcmStreamConfig) -> (CaptureCallbackState, PcmReader, PcmStreamState) {
    let validated = validate_config(config).unwrap();
    let (producer, consumer, ring) = create_ring(validated.internal_sample_capacity).unwrap();
    (
        CaptureCallbackState::new(producer, validated.channels, config.capacity_frames),
        PcmReader::new(RingResampler::new::<Hardware>(
            consumer,
            validated.channels,
            config.target_fill_frames,
            config.capacity_frames,
            double(1.0),
            config.max_drift_ppm,
        )),
        PcmStreamState::new(ring, config.capacity_frames),
    )
}

fn write(
    writer: &mut PcmWriter,
    state: &mut PcmStreamState,
    pcm: &[f32],
) -> Result<(), PcmStreamError> {
    writer.try_write_interleaved(state, &samples(pcm))
}

fn read(
    reader: &mut PcmReader,
    state: &mut PcmStreamState,
    pcm: &mut [f32],
) -> Result<usize, PcmStreamError> {
    let mut buffer = samples(pcm);
    let result = reader.try_read_interleaved::<Hardware>(state, &mut buffer);
    pcm.copy_from_slice(&values(&buffer));
    result
}

fn next(callback: &mut PlaybackCallbackState, state: &mut PcmStreamState) -> Option<Vec<f32>> {
    callback.next_frame::<Hardware>(state).map(values)
}

#[test]
fn rejects_partial_interleaved_frames() {
    let (mut writer, _, mut state) = playback_harness(&config(8, 4));
    assert_eq!(
        write(&mut writer, &mut state, &[0.0; 3]),
        Err(PcmStreamError::InvalidBufferLength)
    );

    let (_, mut reader, mut state) = capture_harness(&config(8, 4));
    assert_eq!(
        read(&mut reader, &mut state, &mut [0.0; 3]),
        Err(PcmStreamError::InvalidBufferLength)
    );
}

#[test]
fn playback_write_is_all_or_nothing_when_full() {
    let (mut writer, _, mut state) = playback_harness(&config(4, 2));
    write(&mut writer, &mut state, &[1.0; 6]).unwrap();
    assert_eq!(
        write(&mut writer, &mut state, &[2.0; 4]),
        Err(PcmStreamError::BufferFull {
            requested_frames: 2,
            available_frames: 1,
        })
    );
    assert_eq!(state.snapshot().ring_fill_frames, 3);
}

#[test]
fn capture_waits_for_target_without_consuming_then_preserves_order() {
    let (mut callback, mut reader, mut state) = capture_harness(&config(8, 4));
    callback.capture_interleaved(&mut state, &samples(&[1.0, 10.0, 2.0, 20.0, 3.0, 30.0]));

    let mut output = [9.0; 4];
    assert_eq!(read(&mut reader, &mut state, &mut output).unwrap(), 0);
    assert_eq!(output, [9.0; 4]);
    assert_eq!(state.snapshot().ring_fill_frames, 3);

    callback.capture_interleaved(&mut state, &samples(&[4.0, 40.0]));
    assert_eq!(read(&mut reader, &mut state, &mut output).unwrap(), 2);
    assert_eq!(output, [1.0, 10.0, 2.0, 20.0]);
}

#[test]
fn capture_discards_new_frames_on_overrun() {
    let (mut callback, _, mut state) = capture_harness(&config(4, 2));
    callback.capture_interleaved(&mut state, &samples(&[1.0; 12]));
    let snapshot = state.snapshot();
    assert_eq!(snapshot.ring_fill_frames, 4);
    assert_eq!(snapshot.transferred_frames, 4);
    assert_eq!(snapshot.overrun_frames, 2);
}

#[test]
fn playback_waits_for_target_without_consuming_or_counting_underruns() {
    let (mut writer, mut callback, mut state) = playback_harness(&config(8, 4));
    write(&mut writer, &mut state, &[1.0, 10.0, 2.0, 20.0, 3.0, 30.0]).unwrap();

    assert!(next(&mut callback, &mut state).is_none());
    let snapshot = state.snapshot();
    assert_eq!(snapshot.transferred_frames, 0);
    assert_eq!(snapshot.underrun_frames, 0);
    assert_eq!(snapshot.ring_fill_frames, 3);

    write(&mut writer, &mut state, &[4.0, 40.0]).unwrap();
    assert_eq!(next(&mut callback, &mut state).unwrap(), [1.0, 10.0]);
    let snapshot = state.snapshot();
    assert_eq!(snapshot.transferred_frames, 1);
    assert_eq!(snapshot.underrun_frames, 0);
    assert_eq!(snapshot.ring_fill_frames, 1);
    assert_eq!(snapshot.ring_capacity_frames, 8);
}

#[test]
fn priming_requires_two_frames_when_target_is_one() {
    let (mut writer, mut callback, mut state) = playback_harness(&config(4, 1));
    write(&mut writer, &mut state, &[1.0, 10.0]).unwrap();
    assert!(next(&mut callback, &mut state).is_none());
    assert_eq!(state.snapshot().ring_fill_frames, 1);

    write(&mut writer, &mut state, &[2.0, 20.0]).unwrap();
    assert_eq!(next(&mut callback, &mut state).unwrap(), [1.0, 10.0]);
}

#[test]
fn playback_reprimes_without_consuming_partial_fill_and_preserves_order() {
    let mut test_config = config(8, 4);
    test_config.max_drift_ppm = 0;
    let (mut writer, mut callback, mut state) = playback_harness(&test_config);
    write(
        &mut writer,
        &mut state,
        &[1.0, 10.0, 2.0, 20.0, 3.0, 30.0, 4.0, 40.0],
    )
    .unwrap();
    for expected in [[1.0, 10.0], [2.0, 20.0], [3.0, 30.0]] {
        assert_eq!(next(&mut callback, &mut state).unwrap(), expected);
    }
    assert!(!callback.resampler().primed());

    assert!(next(&mut callback, &mut state).is_none());
    assert_eq!(state.snapshot().underrun_frames, 1);

    write(&mut writer, &mut state, &[5.0, 50.0, 6.0, 60.0]).unwrap();
    assert!(next(&mut callback, &mut state).is_none());
    let snapshot = state.snapshot();
    assert_eq!(snapshot.ring_fill_frames, 2);
    assert_eq!(snapshot.underrun_frames, 2);

    write(&mut writer, &mut state, &[7.0, 70.0]).unwrap();
    for expected in [[4.0, 40.0], [5.0, 50.0], [6.0, 60.0]] {
        assert_eq!(next(&mut callback, &mut state).unwrap(), expected);
    }
    let snapshot = state.snapshot();
    assert_eq!(snapshot.transferred_frames, 6);
    assert_eq!(snapshot.underrun_frames, 2);
}

#[test]
fn capture_returns_partial_read_then_reprimes_without_consuming_partial_fill() {
    let mut test_config = config(8, 4);
    test_config.max_drift_ppm = 0;
    let (mut callback, mut reader, mut state) = capture_harness(&test_config);
    callback.capture_interleaved(
        &mut state,
        &samples(&[1.0, 10.0, 2.0, 20.0, 3.0, 30.0, 4.0, 40.0]),
    );

    let mut initial = [9.0; 8];
    assert_eq!(read(&mut reader, &mut state, &mut initial).unwrap(), 3);
    assert_eq!(&initial[..6], &[1.0, 10.0, 2.0, 20.0, 3.0, 30.0]);
    assert!(!reader.resampler().primed());

    callback.capture_interleaved(&mut state, &samples(&[5.0, 50.0, 6.0, 60.0]));
    let mut output = [9.0; 6];
    assert_eq!(read(&mut reader, &mut state, &mut output).unwrap(), 0);
    assert_eq!(output, [9.0; 6]);
    assert_eq!(state.snapshot().ring_fill_frames, 2);

    callback.capture_interleaved(&mut state, &samples(&[7.0, 70.0]));
    assert_eq!(read(&mut reader, &mut state, &mut output).unwrap(), 3);
    assert_eq!(output, [4.0, 40.0, 5.0, 50.0, 6.0, 60.0]);
}

#[test]
fn drift_control_uses_ring_and_cached_frames_as_total_fill() {
    let test_config = config(8, 4);
    let validated = validate_config(&test_config).unwrap();
    let (mut producer, consumer, ring) = create_ring(validated.internal_sample_capacity).unwrap();
    let mut state = PcmStreamState::new(ring, test_config.capacity_frames);
    let mut resampler = RingResampler::new::<Hardware>(
        consumer,
        2,
        test_config.target_fill_frames,
        test_config.capacity_frames,
        double(0.0),
        test_config.max_drift_ppm,
    );
    for _ in 0..test_config.target_fill_frames {
        assert_eq!(producer.push_slice(&mut state.ring, &samples(&[0.25, -0.25])), 2);
        state.add_fill(1);
    }

    assert_eq!(wide(resampler.drift_correction::<Hardware>(&state)), 0.0);
    assert!(resampler.next_frame::<Hardware>(&mut state).is_some());
    assert_eq!(state.snapshot().ring_fill_frames, 2);
    assert_eq!(resampler.buffered_frames(&state), 4);
    assert_eq!(wide(resampler.drift_correction::<Hardware>(&state)), 0.0);
}

#[test]
fn drift_simulation_stays_inside_ring_at_plus_and_minus_one_thousand_ppm() {
    for input_per_output in [1.001_f64, 0.999_f64] {
        let test_config = config(8_192, 2_048);
        let validated = validate_config(&test_config).unwrap();
        let (mut producer, consumer, ring) =
            create_ring(validated.internal_sample_capacity).unwrap();
        let mut state = PcmStreamState::new(ring, test_config.capacity_frames);
        let mut resampler = RingResampler::new::<Hardware>(
            consumer,
            2,
            test_config.target_fill_frames,
            test_config.capacity_frames,
            double(1.0),
            1_000,
        );
        let frame = samples(&[0.25, -0.25]);
        for _ in 0..test_config.target_fill_frames {
            assert_eq!(producer.push_slice(&mut state.ring, &frame), 2);
            state.add_fill(1);
        }
        let mut input_phase = 0.0;
        for _ in 0..250_000 {
            input_phase += input_per_output;
            while input_phase >= 1.0 {
                if producer.push_slice(&mut state.ring, &frame) == 2 {
                    state.add_fill(1);
                }
                input_phase -= 1.0;
            }
            assert!(resampler.next_frame::<Hardware>(&mut state).is_some());
        }
        let fill = state.fill();
        assert!(fill > 0);
        assert!(fill < test_config.capacity_frames);
    }
}

#[test]
fn reader_and_writer_observe_stream_close() {
    let (mut writer, _, mut playback) = playback_harness(&config(8, 4));
    playback.close();
    assert_eq!(
        write(&mut writer, &mut playback, &[0.0; 2]),
        Err(PcmStreamError::StreamClosed)
    );

    let (_, mut reader, mut capture) = capture_harness(&config(8, 4));
    capture.close();
    assert_eq!(
        read(&mut reader, &mut capture, &mut [0.0; 2]),
        Err(PcmStreamError::StreamClosed)
    );
}

#[test]
fn pcm_handles_are_send() {
    fn assert_send<T: Send>() {}
    assert_send::<PcmReader>();
    assert_send::<PcmWriter>();
    assert_send::<PcmPlaybackStream>();
    assert_send::<PcmCaptureStream>();
}

#[test]
fn frames_between_two_frames_are_interpolated() {
    let mut test_config = config(8, 2);
    test_config.max_drift_ppm = 0;
    let (mut writer, mut callback, mut stream) = {
        let (stream, writer, callback) =
            PcmPlaybackStream::start::<Hardware>(test_config, Ok(96_000)).unwrap();
        (writer, callback, stream)
    };
    write(
        &mut writer,
        &mut stream.state,
        &[0.0, 8.0, 4.0, 4.0, 8.0, 0.0],
    )
    .unwrap();
    for expected in [[0.0, 8.0], [2.0, 6.0], [4.0, 4.0], [6.0, 2.0]] {
        assert_eq!(next(&mut callback, &mut stream.state).unwrap(), expected);
    }
    assert!(next(&mut callback, &mut stream.state).is_none());
    assert_eq!(
        stream.metrics(),
        PcmStreamMetrics {
            callbacks: 0,
            transferred_frames: 4,
            underrun_frames: 1,
            overrun_frames: 0,
            format_errors: 0,
            ring_fill_frames: 0,
            ring_capacity_frames: 8,
        }
    );
    stream.close();
    assert_eq!(
        write(&mut writer, &mut stream.state, &[]),
        Err(PcmStreamError::StreamClosed)
    );
}

#[test]
fn captured_frames_are_resampled_to_the_client() {
    let mut test_config = config(8, 2);
    test_config.max_drift_ppm = 0;
    let (mut stream, mut reader, mut callback) =
        PcmCaptureStream::start::<Hardware>(test_config, Ok(96_000)).unwrap();
    assert_eq!(callback.channels(), 2);
    for frame in [[1.0, -1.0], [2.0, -2.0], [3.0, -3.0], [4.0, -4.0], [5.0, -5.0]] {
        assert!(callback.has_capacity_for_frame(&stream.state));
        callback.scratch_mut().copy_from_slice(&samples(&frame));
        callback.commit_scratch_frame(&mut stream.state);
    }
    let mut output = [0.0; 4];
    assert_eq!(read(&mut reader, &mut stream.state, &mut output).unwrap(), 2);
    assert_eq!(output, [1.0, -1.0, 3.0, -3.0]);
    assert_eq!(stream.metrics().transferred_frames, 5);
    assert_eq!(stream.metrics().ring_fill_frames, 0);
    stream.close();
    assert_eq!(
        read(&mut reader, &mut stream.state, &mut output),
        Err(PcmStreamError::StreamClosed)
    );
}

#[test]
fn whole_frames_are_captured_and_the_rest_is_left_out() {
    let (mut callback, _, mut state) = capture_harness(&config(4, 2));
    callback.capture_interleaved(&mut state, &samples(&[1.0, 2.0, 3.0]));
    assert_eq!(state.fill(), 1);
    state.callback();
    state.format_error();
    state.remove_fill(1);
    let snapshot = state.snapshot();
    assert_eq!(
        (snapshot.callbacks, snapshot.format_errors, snapshot.ring_fill_frames),
        (1, 1, 0)
    );
}

#[test]
fn configurations_are_checked_before_the_device() {
    let refused = |change: fn(&mut PcmStreamConfig)| {
        let mut changed = config(8, 4);
        change(&mut changed);
        let missing = PcmStreamError::DeviceNotFound { uid: "test-device".to_owned() };
        PcmPlaybackStream::start::<Hardware>(changed, Err(missing)).err().unwrap()
    };
    assert_eq!(
        refused(|config| config.client_format.channels = 0),
        PcmStreamError::InvalidChannelCount
    );
    assert_eq!(
        refused(|config| config.client_format.sample_rate = 0),
        PcmStreamError::InvalidSampleRate
    );
    assert_eq!(
        refused(|config| config.capacity_frames = 1),
        PcmStreamError::InvalidRingCapacity
    );
    assert_eq!(
        refused(|config| config.target_fill_frames = 0),
        PcmStreamError::InvalidTargetFill
    );
    assert_eq!(
        refused(|config| config.target_fill_frames = 8),
        PcmStreamError::InvalidTargetFill
    );
    assert_eq!(
        refused(|config| config.max_drift_ppm = 1_000_000),
        PcmStreamError::InvalidDriftPpm
    );
    assert_eq!(
        refused(|config| config.capacity_frames = usize::MAX),
        PcmStreamError::InvalidRingCapacity
    );
    assert_eq!(
        refused(|config| config.capacity_frames = usize::MAX / 4 + 2),
        PcmStreamError::InvalidRingCapacity
    );
    assert_eq!(
        refused(|_| ()).text(),
        "Core Audio device UID not found: test-device"
    );
    let unsupported = PcmCaptureStream::start::<Hardware>(
        config(8, 4),
        Err(PcmStreamError::UnsupportedPlatform),
    );
    assert_eq!(unsupported.err().unwrap(), PcmStreamError::UnsupportedPlatform);
    let validated = validate_config(&config(3, 1)).unwrap();
    assert_eq!(validated.logical_capacity_samples, 6);
    assert_eq!(validated.internal_sample_capacity, 8);
    assert_eq!(
        create_ring(6).err().unwrap(),
        PcmStreamError::InvalidRingCapacity
    );
}

#[test]
fn stream_errors_have_their_messages() {
    let format = |sample_rate, channels| PcmFormat { sample_rate, channels };
    let uid = || "u".to_owned();
    for (error, message) in [
        (
            PcmStreamError::UnsupportedPlatform,
            "PCM Core Audio streams require macOS",
        ),
        (
            PcmStreamError::AmbiguousDevice { uid: uid(), matches: 2 },
            "Core Audio device UID u matched 2 devices",
        ),
        (
            PcmStreamError::WrongDirection {
                uid: uid(),
                required: PcmStreamDirection::Input,
            },
            "Core Audio device u has no input channels",
        ),
        (
            PcmStreamError::FormatMismatch {
                expected: format(1, 2),
                actual: format(3, 4),
            },
            "PCM format mismatch: expected 1 Hz/2 channels, got 3 Hz/4 channels",
        ),
        (
            PcmStreamError::UnsupportedDevicePcmFormat { uid: uid() },
            "Core Audio device u does not expose packed f32 PCM",
        ),
        (
            PcmStreamError::BufferFull { requested_frames: 5, available_frames: 4 },
            "PCM ring buffer is full: requested 5 frames, 4 available",
        ),
        (PcmStreamError::StreamClosed, "PCM stream is closed"),
        (
            PcmStreamError::from(CoreAudioError::OsStatus(-50)),
            "Core Audio returned OSStatus -50",
        ),
        (
            PcmStreamError::from(CoreAudioError::InvalidProperty("uid")),
            "invalid Core Audio property: uid",
        ),
        (
            PcmStreamError::from(CoreAudioError::InvalidUtf8),
            "Core Audio error: Core Audio returned a non-UTF-8 string",
        ),
        (
            PcmStreamError::InvalidDriftPpm,
            "max drift must be less than 1,000,000 ppm",
        ),
        (
            PcmStreamError::InvalidTargetFill,
            "target fill must be inside the PCM ring buffer",
        ),
        (
            PcmStreamError::InvalidRingCapacity,
            "invalid PCM ring-buffer capacity",
        ),
        (
            PcmStreamError::InvalidBufferLength,
            "interleaved buffer length is not a whole number of frames",
        ),
        (
            PcmStreamError::InvalidChannelCount,
            "channel count must be greater than zero",
        ),
        (
            PcmStreamError::InvalidSampleRate,
            "sample rate must be greater than zero",
        ),
    ] {
        assert_eq!(error.text(), message);
    }
    assert_eq!(
        PcmStreamError::from(CoreAudioError::UnsupportedPlatform),
        PcmStreamError::UnsupportedPlatform
    );
    assert_eq!(PcmStreamDirection::Output.text(), "output");
}
