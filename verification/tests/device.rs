use vcable::device::{
    channel_count, find_vcable_plugin, fourcc, object_ids, property_float, property_text,
    property_word, status, stream_usage, validate_field, wait_for_device_visibility,
    PluginProperties, TRANSPORT_VIRTUAL,
};
use vcable::{
    create_virtual_device, delete_virtual_device, list_devices, AudioDevice, CoreAudioError,
    DeviceProperties, Float32, Float64, FloatMath,
};

struct Hardware;

fn sample(value: f32) -> Float32 {
    Float32 { bits: value.to_bits() }
}

fn value(sample: Float32) -> f32 {
    f32::from_bits(sample.bits)
}

fn double(value: f64) -> Float64 {
    Float64 { bits: value.to_bits() }
}

fn wide(value: Float64) -> f64 {
    f64::from_bits(value.bits)
}

impl FloatMath for Hardware {
    fn empty_sum() -> Float32 {
        sample(std::iter::empty::<f32>().sum())
    }

    fn add(left: Float32, right: Float32) -> Float32 {
        sample(value(left) + value(right))
    }

    fn mul(left: Float32, right: Float32) -> Float32 {
        sample(value(left) * value(right))
    }

    fn interpolate(current: Float32, next: Float32, phase: Float64) -> Float32 {
        let (current, next) = (value(current), value(next));
        sample(current + (next - current) * wide(phase) as f32)
    }

    fn rate_ratio(numerator: u32, denominator: u32) -> Float64 {
        double(f64::from(numerator) / f64::from(denominator))
    }

    fn whole_hertz(rate: Float64) -> u32 {
        wide(rate).round() as u32
    }

    fn parts_per_million(ppm: u32) -> Float64 {
        double(f64::from(ppm) / 1_000_000.0)
    }

    fn drift_correction(fill: usize, target: usize, span: usize, limit: Float64) -> Float64 {
        let limit = wide(limit);
        let error = fill as f64 - target as f64;
        double((error / span as f64 * limit).clamp(-limit, limit))
    }

    fn fill_correction(available: usize, startup: usize) -> Float64 {
        let target = startup as f64;
        let error = (available as f64 - target) / target;
        double((error * 0.0005).clamp(-0.001, 0.001))
    }

    fn advance_phase(phase: Float64, step: Float64, correction: Float64) -> Float64 {
        double(wide(phase) + wide(step) * (1.0 + wide(correction)))
    }

    fn has_whole_frame(phase: Float64) -> bool {
        wide(phase) >= 1.0
    }

    fn without_whole_frame(phase: Float64) -> Float64 {
        double(wide(phase) - 1.0)
    }

    fn coefficient(millionths: i32) -> Float32 {
        sample(millionths as f32 / 1_000_000.0)
    }

    fn gain(millidb: i32) -> Float32 {
        let gain_db = millidb as f32 / 1_000.0;
        sample(10.0_f32.powf(gain_db / 20.0))
    }

    fn six_decimals(gain: Float32) -> String {
        format!("{:.6}", value(gain))
    }
}

fn layout(channels: &[u32]) -> Vec<u8> {
    let mut bytes = (channels.len() as u32).to_le_bytes().to_vec();
    bytes.extend_from_slice(&[0; 4]);
    for count in channels {
        bytes.extend_from_slice(&count.to_le_bytes());
        bytes.extend_from_slice(&[7; 12]);
    }
    bytes
}

fn properties(object_id: u32, uid: &str) -> DeviceProperties {
    DeviceProperties {
        object_id,
        uid: Ok(format!("{uid}\0rest").into_bytes()),
        transport: Ok(fourcc(*b"bltn").to_le_bytes().to_vec()),
        name: Ok("Näme\0".to_owned().into_bytes()),
        input_layout: Ok(layout(&[2, 3])),
        output_layout: Ok(layout(&[])),
        sample_rate: Ok(44_099.6_f64.to_le_bytes().to_vec()),
    }
}

fn device(object_id: u32, uid: &str) -> AudioDevice {
    AudioDevice {
        object_id,
        uid: uid.to_owned(),
        name: "Näme".to_owned(),
        input_channels: 5,
        output_channels: 0,
        sample_rate: 44_100,
        is_vcable: false,
        is_virtual: false,
    }
}

#[test]
fn devices_are_put_together_from_their_properties() {
    let mut second = properties(9, "dev.vcable.device.chat");
    second.transport = Ok(TRANSPORT_VIRTUAL.to_le_bytes().to_vec());
    let devices =
        list_devices::<Hardware>(Some(Ok(vec![properties(7, "Built In"), second]))).unwrap();
    let mut virtual_device = device(9, "dev.vcable.device.chat");
    virtual_device.is_vcable = true;
    virtual_device.is_virtual = true;
    assert_eq!(devices, vec![device(7, "Built In"), virtual_device.clone()]);
    assert_eq!(virtual_device.clone(), virtual_device);
}

#[test]
fn the_first_property_that_cannot_be_read_is_reported() {
    let fail = |change: fn(&mut DeviceProperties)| {
        let mut changed = properties(1, "u");
        change(&mut changed);
        let last = DeviceProperties {
            uid: Err(CoreAudioError::OsStatus(-1)),
            ..properties(2, "v")
        };
        list_devices::<Hardware>(Some(Ok(vec![properties(0, "t"), changed, last]))).unwrap_err()
    };
    assert_eq!(
        fail(|device| {
            device.uid = Ok(vec![0xff]);
            device.name = Err(CoreAudioError::OsStatus(4));
        }),
        CoreAudioError::InvalidUtf8
    );
    assert_eq!(
        fail(|device| device.transport = Ok(vec![1, 2])),
        CoreAudioError::InvalidProperty("UInt32")
    );
    assert_eq!(
        fail(|device| device.name = Err(CoreAudioError::OsStatus(4))),
        CoreAudioError::OsStatus(4)
    );
    assert_eq!(
        fail(|device| device.input_layout = Ok(vec![1, 2, 3])),
        CoreAudioError::InvalidProperty("AudioBufferList")
    );
    assert_eq!(
        fail(|device| device.output_layout = Ok(vec![1, 0, 0, 0, 0, 0, 0, 0])),
        CoreAudioError::InvalidProperty("AudioBufferList buffers")
    );
    assert_eq!(
        fail(|device| device.sample_rate = Ok(vec![0; 4])),
        CoreAudioError::InvalidProperty("Float64")
    );
    assert_eq!(fail(|_| ()), CoreAudioError::OsStatus(-1));
}

#[test]
fn without_core_audio_there_are_no_devices() {
    assert_eq!(
        list_devices::<Hardware>(None),
        Err(CoreAudioError::UnsupportedPlatform)
    );
    assert_eq!(
        list_devices::<Hardware>(Some(Err(CoreAudioError::OsStatus(3)))),
        Err(CoreAudioError::OsStatus(3))
    );
    assert_eq!(
        create_virtual_device("", "", 0, 0, 0, None),
        Err(CoreAudioError::UnsupportedPlatform)
    );
    assert_eq!(
        delete_virtual_device("", false),
        Err(CoreAudioError::UnsupportedPlatform)
    );
}

#[test]
fn driver_commands_are_checked_and_exact() {
    let request = create_virtual_device("chat", "VCable Chat", 2, 4, 48_000, Some(Ok(vec![]))).unwrap();
    assert_eq!(request.command, "create\tchat\tVCable Chat\t2\t4\t48000");
    assert_eq!(request.uid, "dev.vcable.device.chat");
    assert!(request.expected_present);
    let request = delete_virtual_device("chat", true).unwrap();
    assert_eq!(request.command, "delete\tchat");
    assert_eq!(request.uid, "dev.vcable.device.chat");
    assert!(!request.expected_present);
    for id in ["", "a\tb", "a\rb", "a\nb", "a\0b"] {
        let error = delete_virtual_device(id, true).unwrap_err();
        assert_eq!(error, CoreAudioError::InvalidProperty("device id"));
    }
    assert_eq!(
        create_virtual_device("a", "", 1, 1, 1, Some(Ok(vec![]))),
        Err(CoreAudioError::InvalidProperty("device name"))
    );
    assert_eq!(
        create_virtual_device("a", "b", 1, 0, 1, Some(Ok(vec![]))).unwrap_err().text(),
        "VCable driver rejected the request: channel counts must be greater than zero"
    );
    assert_eq!(validate_field("日本", "x"), Ok(()));
}

#[test]
fn virtual_devices_stay_within_their_limits() {
    let create = |inputs, outputs, rate, listing| {
        create_virtual_device("a", "b", inputs, outputs, rate, Some(listing))
    };
    let refusal = |message: &str| Err(CoreAudioError::DriverRejected(message.to_owned()));
    assert!(create(64, 64, 8_000, Ok(vec![])).is_ok());
    assert!(create(1, 1, 768_000, Ok(vec![])).is_ok());
    for (inputs, outputs) in [(65, 1), (1, 65), (u32::MAX, u32::MAX)] {
        assert_eq!(
            create(inputs, outputs, 1, Ok(vec![])),
            refusal("channel counts must be at most 64")
        );
    }
    for rate in [0, 7_999, 768_001] {
        assert_eq!(
            create(2, 2, rate, Ok(vec![])),
            refusal("sample rate must be from 8000 to 768000 Hz")
        );
    }
    let listed = |vcable: u32| -> Vec<AudioDevice> {
        let mut devices: Vec<AudioDevice> = (0..vcable)
            .map(|id| {
                let mut device = device(id, "v");
                device.is_vcable = true;
                device
            })
            .collect();
        let mut other = device(9_999, "other");
        other.is_vcable = false;
        devices.push(other);
        devices
    };
    assert!(create(2, 2, 48_000, Ok(listed(4_095))).is_ok());
    assert_eq!(
        create(2, 2, 48_000, Ok(listed(4_096))),
        refusal("there are 4096 virtual devices already")
    );
    assert!(create(2, 2, 48_000, Err(CoreAudioError::OsStatus(1))).is_ok());
}

#[test]
fn create_commands_split_back_into_their_fields() {
    let request = create_virtual_device("a.b", "N m", 10, 20, 8_000, Some(Ok(vec![]))).unwrap();
    let fields: Vec<&str> = request.command.split('\t').collect();
    assert_eq!(fields, ["create", "a.b", "N m", "10", "20", "8000"]);
}

#[test]
fn waiting_ends_when_the_device_list_settles() {
    let wait = |expected, devices, passed| wait_for_device_visibility("u", expected, devices, passed);
    assert_eq!(wait(true, Ok(vec![device(1, "u")]), false), Some(Ok(())));
    assert_eq!(wait(false, Ok(vec![device(1, "v")]), true), Some(Ok(())));
    assert_eq!(wait(true, Ok(vec![]), false), None);
    assert_eq!(
        wait(true, Err(CoreAudioError::OsStatus(560_947_818)), false),
        None
    );
    assert_eq!(
        wait(true, Err(CoreAudioError::OsStatus(1)), false),
        Some(Err(CoreAudioError::OsStatus(1)))
    );
    let timeout = wait(false, Err(CoreAudioError::OsStatus(560_947_818)), true);
    assert_eq!(
        timeout.unwrap().unwrap_err().text(),
        "timed out waiting for Core Audio device u to become absent"
    );
    let timeout = wait(true, Ok(vec![]), true);
    assert_eq!(
        timeout.unwrap().unwrap_err().text(),
        "timed out waiting for Core Audio device u to become visible"
    );
}

#[test]
fn the_driver_is_found_among_the_plugins() {
    let plugin = |object_id, bundle_id: Result<&str, CoreAudioError>| PluginProperties {
        object_id,
        bundle_id: bundle_id.map(str::to_owned),
    };
    let plugins = vec![
        plugin(1, Ok("other")),
        plugin(2, Err(CoreAudioError::InvalidUtf8)),
        plugin(3, Ok("dev.vcable.driver")),
        plugin(4, Ok("dev.vcable.driver")),
    ];
    assert_eq!(find_vcable_plugin(&plugins), Ok(3));
    assert_eq!(
        find_vcable_plugin(&vec![]),
        Err(CoreAudioError::DriverNotInstalled)
    );
}

#[test]
fn properties_are_decoded() {
    assert_eq!(fourcc(*b"virt"), TRANSPORT_VIRTUAL);
    assert_eq!(fourcc(*b"dev#"), 0x6465_7623);
    assert_eq!(object_ids(&[1, 0, 0, 0, 0, 2, 0, 0]), Ok(vec![1, 512]));
    assert_eq!(object_ids(&[]), Ok(vec![]));
    assert_eq!(
        object_ids(&[1]),
        Err(CoreAudioError::InvalidProperty("AudioObjectID array"))
    );
    assert_eq!(property_word(&[4, 3, 2, 1]), Ok(0x0102_0304));
    assert_eq!(wide(property_float(&1.5_f64.to_le_bytes()).unwrap()), 1.5);
    assert_eq!(property_text(b"plain").unwrap(), "plain");
    assert_eq!(property_text("é\0x".as_bytes()).unwrap(), "é");
    assert_eq!(property_text(&[0xc3, 0]), Err(CoreAudioError::InvalidUtf8));
    assert_eq!(channel_count(&layout(&[u32::MAX, 5])), Ok(u32::MAX));
    assert_eq!(channel_count(&layout(&[1, 2, 3])), Ok(6));
}

#[test]
fn statuses_and_stream_usage_are_exact() {
    assert_eq!(status(0), Ok(()));
    assert_eq!(status(-5).unwrap_err().text(), "Core Audio returned OSStatus -5");
    assert_eq!(stream_usage(1, 0, true), None);
    assert_eq!(
        stream_usage(0x0102_0304_0506_0708, 2, true).unwrap(),
        [8, 7, 6, 5, 4, 3, 2, 1, 2, 0, 0, 0, 1, 0, 0, 0, 1, 0, 0, 0]
    );
    assert_eq!(
        stream_usage(0, 1, false).unwrap(),
        [0, 0, 0, 0, 0, 0, 0, 0, 1, 0, 0, 0, 0, 0, 0, 0]
    );
    for (error, message) in [
        (
            CoreAudioError::UnsupportedPlatform,
            "Core Audio is available only on macOS",
        ),
        (
            CoreAudioError::DriverNotInstalled,
            "VCable HAL driver is not installed",
        ),
        (
            CoreAudioError::InvalidRoute("x".to_owned()),
            "invalid audio route: x",
        ),
    ] {
        assert_eq!(error.text(), message);
    }
}
