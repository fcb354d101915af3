use vcable::buffers::{
    add_audio_sample, audio_buffer_list_frames, clear_audio_buffer_list, read_audio_sample,
};
use vcable::io::audio_device_io_proc;
use vcable::router::validate_routes;
use vcable::{
    AudioBuffer, AudioDevice, AudioRoute, AudioRouter, CoreAudioError, Float32, Float64, FloatMath,
    RouterMetrics,
};

struct Hardware;

fn sample(value: f32) -> Float32 {
    Float32 { bits: value.to_bits() }
}

fn value(sample: Float32) -> f32 {
    f32::from_bits(sample.bits)
}

fn double(value: f64) -> Float64 {
    Float64 { bits: value.to_bits() }
}

fn wide(value: Float64) -> f64 {
    f64::from_bits(value.bits)
}

fn samples(values: &[f32]) -> Vec<Float32> {
    values.iter().map(|value| sample(*value)).collect()
}

fn values(samples: &[Float32]) -> Vec<f32> {
    samples.iter().map(|sample| value(*sample)).collect()
}

impl FloatMath for Hardware {
    fn empty_sum() -> Float32 {
        sample(std::iter::empty::<f32>().sum())
    }

    fn add(left: Float32, right: Float32) -> Float32 {
        sample(value(left) + value(right))
    }

    fn mul(left: Float32, right: Float32) -> Float32 {
        sample(value(left) * value(right))
    }

    fn interpolate(current: Float32, next: Float32, phase: Float64) -> Float32 {
        let (current, next) = (value(current), value(next));
        sample(current + (next - current) * wide(phase) as f32)
    }

    fn rate_ratio(numerator: u32, denominator: u32) -> Float64 {
        double(f64::from(numerator) / f64::from(denominator))
    }

    fn whole_hertz(rate: Float64) -> u32 {
        wide(rate).round() as u32
    }

    fn parts_per_million(ppm: u32) -> Float64 {
        double(f64::from(ppm) / 1_000_000.0)
    }

    fn drift_correction(fill: usize, target: usize, span: usize, limit: Float64) -> Float64 {
        let limit = wide(limit);
        let error = fill as f64 - target as f64;
        double((error / span as f64 * limit).clamp(-limit, limit))
    }

    fn fill_correction(available: usize, startup: usize) -> Float64 {
        let target = startup as f64;
        let error = (available as f64 - target) / target;
        double((error * 0.0005).clamp(-0.001, 0.001))
    }

    fn advance_phase(phase: Float64, step: Float64, correction: Float64) -> Float64 {
        double(wide(phase) + wide(step) * (1.0 + wide(correction)))
    }

    fn has_whole_frame(phase: Float64) -> bool {
        wide(phase) >= 1.0
    }

    fn without_whole_frame(phase: Float64) -> Float64 {
        double(wide(phase) - 1.0)
    }

    fn coefficient(millionths: i32) -> Float32 {
        sample(millionths as f32 / 1_000_000.0)
    }

    fn gain(millidb: i32) -> Float32 {
        let gain_db = millidb as f32 / 1_000.0;
        sample(10.0_f32.powf(gain_db / 20.0))
    }

    fn six_decimals(gain: Float32) -> String {
        format!("{:.6}", value(gain))
    }
}

fn device(object_id: u32, input_channels: u32, output_channels: u32) -> AudioDevice {
    AudioDevice {
        object_id,
        uid: format!("device {object_id}"),
        name: String::new(),
        input_channels,
        output_channels,
        sample_rate: 48_000,
        is_vcable: false,
        is_virtual: false,
    }
}

fn route(source: u32, sink: u32, matrix: &[f32]) -> AudioRoute {
    AudioRoute {
        source_device_id: source,
        sink_device_id: sink,
        source_channels: 2,
        sink_channels: 1,
        source_sample_rate: 48_000,
        sink_sample_rate: 48_000,
        matrix: samples(matrix),
        gain: sample(1.0),
    }
}

fn buffer(channels: u32, values: &[f32]) -> AudioBuffer {
    AudioBuffer {
        number_channels: channels,
        data_byte_size: 4 * values.len() as u32,
        has_data: true,
        samples: samples(values),
    }
}

fn recorded(frames: usize, start: usize) -> Vec<AudioBuffer> {
    let left: Vec<f32> = (start..start + frames).map(|frame| frame as f32).collect();
    let right: Vec<f32> = left.iter().map(|sample| -sample / 2.0).collect();
    vec![buffer(1, &left), buffer(1, &right)]
}

struct Rig {
    router: AudioRouter,
}

impl Rig {
    fn new(routes: &[AudioRoute]) -> Self {
        let devices = vec![device(1, 2, 0), device(2, 0, 1), device(3, 2, 1)];
        Rig { router: AudioRouter::start::<Hardware>(routes, Ok(devices)).unwrap() }
    }

    fn call(&mut self, context: usize, input: Option<&Vec<AudioBuffer>>, frames: usize) -> Vec<f32> {
        let mut output = Some(vec![buffer(1, &vec![9.0; frames])]);
        let router = &mut self.router;
        audio_device_io_proc::<Hardware>(
            &mut router.contexts[context],
            &mut router.rings,
            &mut router.metrics,
            input,
            &mut output,
        );
        values(&output.unwrap()[0].samples)
    }
}

#[test]
fn contexts_follow_the_device_ids() {
    let routes = [
        route(3, 2, &[1.0, 0.0]),
        route(1, 2, &[0.0, 1.0]),
        route(1, 3, &[0.5, 0.5]),
    ];
    let rig = Rig::new(&routes);
    let plan: Vec<(u32, Vec<usize>, Vec<usize>)> = rig
        .router
        .contexts
        .iter()
        .map(|context| {
            (
                context.device_id,
                context.outgoing.iter().map(|end| end.ring).collect(),
                context.incoming.iter().map(|end| end.ring).collect(),
            )
        })
        .collect();
    assert_eq!(
        plan,
        [
            (1, vec![1, 2], vec![]),
            (2, vec![], vec![0, 1]),
            (3, vec![0], vec![2]),
        ]
    );
    for context in &rig.router.contexts {
        for end in &context.outgoing {
            assert_eq!(end.producer.capacity(), 32_768);
            assert_eq!(end.producer.available(&rig.router.rings[end.ring]), 32_768);
        }
    }
    assert_eq!(rig.router.metrics(), RouterMetrics::default());
}

#[test]
fn frames_travel_from_the_source_to_the_sink_in_order() {
    let mut rig = Rig::new(&[route(1, 2, &[1.0, 1.0])]);
    assert_eq!(rig.call(1, None, 2), [0.0, 0.0]);
    rig.call(0, Some(&recorded(511, 0)), 1);
    assert_eq!(rig.call(1, None, 2), [0.0, 0.0]);
    assert_eq!(rig.router.metrics(), RouterMetrics::default());
    rig.call(0, Some(&recorded(1, 511)), 1);
    let heard = rig.call(1, None, 4);
    for (frame, heard) in heard.iter().enumerate() {
        assert!((heard - frame as f32 / 2.0).abs() < 0.01);
    }
    assert_eq!(rig.router.metrics(), RouterMetrics::default());
}

#[test]
fn waiting_routes_play_silence() {
    let mut rig = Rig::new(&[route(1, 2, &[1.0, 1.0]), route(3, 2, &[1.0, 1.0])]);
    rig.call(0, Some(&recorded(511, 1)), 1);
    rig.call(2, Some(&recorded(500, 1)), 1);
    for _ in 0..3 {
        assert_eq!(rig.call(1, None, 3), [0.0, 0.0, 0.0]);
    }
    assert_eq!(rig.router.metrics(), RouterMetrics::default());
    assert!(rig.router.rings[0].peek(1021).is_some());
    assert_eq!(rig.router.rings[0].peek(1022), None);
    assert_eq!(rig.router.rings[1].peek(1000), None);
}

#[test]
fn running_out_is_counted_and_followed_by_silence() {
    let mut rig = Rig::new(&[route(1, 2, &[1.0, 0.0])]);
    rig.call(0, Some(&recorded(512, 0)), 1);
    let heard = rig.call(1, None, 600);
    assert!(heard[500] > 400.0);
    assert_eq!(heard[599], 0.0);
    assert_eq!(rig.router.metrics().underruns, 1);
    assert_eq!(rig.call(1, None, 1), [0.0]);
    assert_eq!(rig.router.metrics().underruns, 1);
}

#[test]
fn several_routes_are_mixed_into_one_sink() {
    let mut quiet = route(3, 2, &[0.0, 2.0]);
    quiet.gain = sample(0.5);
    let mut rig = Rig::new(&[route(1, 2, &[1.0, 0.0]), quiet]);
    let steady = |value: f32| vec![buffer(2, &vec![value; 1_200])];
    rig.call(0, Some(&steady(0.25)), 1);
    rig.call(2, Some(&steady(0.5)), 1);
    assert_eq!(rig.call(1, None, 2), [0.75, 0.75]);
}

#[test]
fn frames_that_do_not_fit_are_counted() {
    let mut rig = Rig::new(&[route(1, 2, &[1.0, 0.0])]);
    rig.call(0, Some(&recorded(16_386, 0)), 1);
    assert_eq!(rig.router.metrics().overruns, 2);
}

#[test]
fn buffers_with_a_wrong_format_are_counted() {
    let mut rig = Rig::new(&[route(1, 2, &[1.0, 0.0])]);
    rig.call(0, Some(&vec![buffer(1, &[1.0])]), 1);
    assert_eq!(rig.router.metrics().format_errors, 1);
    rig.call(0, Some(&vec![buffer(2, &[1.0])]), 1);
    assert_eq!(rig.router.metrics().format_errors, 2);
    let router = &mut rig.router;
    let mut output = Some(vec![buffer(1, &[5.0]), buffer(1, &[])]);
    audio_device_io_proc::<Hardware>(
        &mut router.contexts[1],
        &mut router.rings,
        &mut router.metrics,
        None,
        &mut output,
    );
    assert_eq!(router.metrics.format_errors, 3);
    assert_eq!(values(&output.unwrap()[0].samples), [5.0]);
    let mut output = None;
    audio_device_io_proc::<Hardware>(
        &mut router.contexts[1],
        &mut router.rings,
        &mut router.metrics,
        None,
        &mut output,
    );
    assert_eq!(router.metrics.format_errors, 3);
}

#[test]
fn routes_are_refused_on_the_wrong_devices() {
    let devices = vec![device(1, 2, 0), device(2, 0, 1), device(4, 1, 1), device(4, 2, 2)];
    let refused = |change: fn(&mut AudioRoute)| {
        let mut changed = route(1, 2, &[1.0, 0.0]);
        change(&mut changed);
        validate_routes(&[route(1, 2, &[0.0, 0.0]), changed], &devices)
            .unwrap_err()
            .text()
    };
    assert_eq!(
        refused(|route| route.sink_channels = 0),
        "invalid audio route: channel counts must be greater than zero"
    );
    for change in [
        (|route: &mut AudioRoute| route.sink_channels = 2) as fn(&mut AudioRoute),
        |route| route.matrix[1] = sample(f32::NAN),
    ] {
        assert_eq!(
            refused(change),
            "invalid audio route: channel matrix dimensions or values are invalid"
        );
    }
    for change in [
        (|route: &mut AudioRoute| route.gain = sample(f32::INFINITY)) as fn(&mut AudioRoute),
        |route| route.source_sample_rate = 0,
        |route| route.sink_sample_rate = 0,
    ] {
        assert_eq!(
            refused(change),
            "invalid audio route: gain and sample rates must be finite and nonzero"
        );
    }
    assert_eq!(
        refused(|route| route.source_device_id = 9),
        "invalid audio route: source device 9 is unavailable"
    );
    assert_eq!(
        refused(|route| route.sink_device_id = 9),
        "invalid audio route: sink device 9 is unavailable"
    );
    assert_eq!(
        refused(|route| route.source_sample_rate = 44_100),
        "invalid audio route: source device 1 format changed"
    );
    assert_eq!(
        refused(|route| route.sink_device_id = 4),
        "invalid audio route: sink device 4 format changed"
    );
    let moved = AudioRoute { source_device_id: 4, ..route(1, 2, &[1.0, 0.0]) };
    assert_eq!(validate_routes(&[moved], &devices), Ok(()));
    assert_eq!(
        AudioRouter::start::<Hardware>(&[], Err(CoreAudioError::UnsupportedPlatform)).err(),
        Some(CoreAudioError::UnsupportedPlatform)
    );
}

#[test]
fn samples_are_found_through_all_buffers() {
    let mut list = vec![buffer(2, &[1.0, 2.0, 3.0, 4.0]), buffer(1, &[5.0, 6.0])];
    assert_eq!(audio_buffer_list_frames(&list), Some(2));
    assert_eq!(read_audio_sample(&list, 1, 1).map(value), Some(4.0));
    assert_eq!(read_audio_sample(&list, 1, 2).map(value), Some(6.0));
    assert_eq!(read_audio_sample(&list, 2, 0), None);
    assert_eq!(read_audio_sample(&list, 0, 3), None);
    assert_eq!(read_audio_sample(&list, usize::MAX, 0), None);
    assert!(add_audio_sample::<Hardware>(&mut list, 0, 2, sample(0.5)));
    assert!(!add_audio_sample::<Hardware>(&mut list, 0, 3, sample(0.5)));
    assert_eq!(values(&list[1].samples), [5.5, 6.0]);
    clear_audio_buffer_list(&mut list);
    assert_eq!(values(&list[0].samples), [0.0; 4]);
    assert_eq!(values(&list[1].samples), [0.0; 2]);
}

#[test]
fn buffer_lists_have_one_number_of_frames() {
    assert_eq!(audio_buffer_list_frames(&vec![]), Some(0));
    assert_eq!(audio_buffer_list_frames(&vec![buffer(0, &[])]), None);
    assert_eq!(audio_buffer_list_frames(&vec![buffer(2, &[1.0])]), None);
    assert_eq!(
        audio_buffer_list_frames(&vec![buffer(1, &[1.0]), buffer(1, &[1.0, 2.0])]),
        None
    );
    let missing = AudioBuffer {
        number_channels: 1,
        data_byte_size: 4,
        has_data: false,
        samples: vec![],
    };
    assert_eq!(audio_buffer_list_frames(&vec![missing]), None);
}
