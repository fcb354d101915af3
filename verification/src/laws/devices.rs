//! Laws of devices, and of what the system says of them.
use vstd::prelude::*;
use vstd::utf8::*;
use crate::device;
use crate::device::{
    channel_count, create_virtual_device, delete_virtual_device, find_vcable_plugin, fourcc,
    list_devices, object_ids, property_float, property_text, property_word, status, stream_usage,
    validate_field, wait_for_device_visibility, AudioDevice, CoreAudioError, DeviceProperties,
    DriverRequest, PluginProperties,
};
use crate::float::{Float64, FloatMath};
use crate::laws::wire;
use crate::text;

verus! {

/// The number in four bytes, the least significant first.
pub open spec fn little_endian(bytes: Seq<u8>, at: int) -> int {
    ((bytes[at + 3] * 256 + bytes[at + 2]) * 256 + bytes[at + 1]) * 256 + bytes[at]
}

/// Four letters stand for a number with the first of them as its most significant byte.
pub proof fn letters_stand_from_the_top(value: [u8; 4], number: u32)
    requires
        call_ensures(fourcc, (value,), number),
    ensures
        number == ((value@[0] * 256 + value@[1]) * 256 + value@[2]) * 256 + value@[3],
{
}

/// Every status but zero is an error, and keeps its number.
pub proof fn statuses_but_zero_are_errors(value: i32, result: Result<(), CoreAudioError>)
    requires
        call_ensures(status, (value,), result),
    ensures
        value == 0 ==> result is Ok,
        value != 0 ==> result == Err::<(), CoreAudioError>(CoreAudioError::OsStatus(value)),
{
}

/// A list of numbers is read four bytes at a time, each with the least significant first.
pub proof fn lists_are_read_by_fours(property: &[u8], result: Result<Vec<u32>, CoreAudioError>)
    requires
        call_ensures(object_ids, (property,), result),
    ensures
        result is Ok <==> property@.len() % 4 == 0,
        result matches Ok(ids) ==> {
            &&& ids@.len() * 4 == property@.len()
            &&& forall|i: int|
                0 <= i < ids@.len() ==> #[trigger] ids@[i] == little_endian(property@, i * 4)
        },
{
}

/// A number is read from exactly four bytes, the least significant first.
pub proof fn words_are_read_from_four_bytes(property: &[u8], result: Result<u32, CoreAudioError>)
    requires
        call_ensures(property_word, (property,), result),
    ensures
        result is Ok <==> property@.len() == 4,
        result matches Ok(word) ==> word == little_endian(property@, 0),
{
}

/// A double-precision number is read from exactly eight bytes, the least significant first.
pub proof fn floats_are_read_from_eight_bytes(
    property: &[u8],
    result: Result<Float64, CoreAudioError>,
)
    requires
        call_ensures(property_float, (property,), result),
    ensures
        result is Ok <==> property@.len() == 8,
        result matches Ok(value) ==> value.bits == little_endian(property@, 4) * 0x1_0000_0000
            + little_endian(property@, 0),
{
}

/// The bytes up to the first zero, or all of them, are those of the text.
pub open spec fn is_text(bytes: Seq<u8>, chars: Seq<char>) -> bool {
    exists|n: int|
        {
            &&& 0 <= n <= bytes.len()
            &&& n < bytes.len() ==> bytes[n] == 0
            &&& forall|i: int| 0 <= i < n ==> bytes[i] != 0
            &&& #[trigger] bytes.take(n) == encode_utf8(chars)
        }
}

/// There is a place where the bytes before the first zero end.
proof fn lemma_end(bytes: Seq<u8>) -> (n: int)
    ensures
        0 <= n <= bytes.len(),
        n < bytes.len() ==> bytes[n] == 0,
        forall|i: int| 0 <= i < n ==> bytes[i] != 0,
        device::before_zero(bytes) == bytes.take(n),
    decreases bytes.len(),
{
    if bytes.len() == 0 || bytes[0] == 0 {
        assert(bytes.take(0) =~= Seq::<u8>::empty());
        0
    } else {
        let rest = bytes.skip(1);
        let n = lemma_end(rest);
        assert forall|i: int| 0 <= i < n + 1 implies bytes[i] != 0 by {
            if i > 0 {
                assert(rest[i - 1] != 0);
            }
        }
        assert(bytes.take(n + 1) =~= seq![bytes[0]] + rest.take(n));
        n + 1
    }
}

/// What is read as text is the text that the bytes hold.
proof fn lemma_text(bytes: Seq<u8>)
    ensures
        device::zero_ended_text(bytes) matches Ok(chars) ==> is_text(bytes, chars),
        (exists|chars: Seq<char>| #[trigger] is_text(bytes, chars)) ==> device::zero_ended_text(
            bytes,
        ) is Ok,
{
    let n = lemma_end(bytes);
    if valid_utf8(device::before_zero(bytes)) {
        decode_utf8_encode_utf8(device::before_zero(bytes));
        assert(is_text(bytes, decode_utf8(device::before_zero(bytes))));
    }
    if exists|chars: Seq<char>| #[trigger] is_text(bytes, chars) {
        let chars = choose|chars: Seq<char>| #[trigger] is_text(bytes, chars);
        let m = choose|m: int|
            {
                &&& 0 <= m <= bytes.len()
                &&& m < bytes.len() ==> bytes[m] == 0
                &&& forall|i: int| 0 <= i < m ==> bytes[i] != 0
                &&& #[trigger] bytes.take(m) == encode_utf8(chars)
            };
        assert(m == n) by {
            if m < n {
                assert(bytes[m] != 0);
            } else if n < m {
                assert(bytes[n] != 0);
            }
        }
        encode_utf8_valid_utf8(chars);
    }
}

/// A text is read up to the first zero byte.
pub proof fn texts_are_read_up_to_a_zero(buffer: &[u8], result: Result<String, CoreAudioError>)
    requires
        call_ensures(property_text, (buffer,), result),
    ensures
        match result {
            Ok(read) => is_text(buffer@, read@),
            Err(error) => error is InvalidUtf8 && !exists|chars: Seq<char>| #[trigger]
                is_text(buffer@, chars),
        },
{
    lemma_text(buffer@);
}

/// The channels of the first `n` buffers: each takes sixteen bytes behind the first eight, and starts
/// with its number of channels.
pub open spec fn channels_of(layout: Seq<u8>, n: int) -> int
    decreases n,
{
    if n <= 0 {
        0
    } else {
        channels_of(layout, n - 1) + little_endian(layout, 8 + (n - 1) * 16)
    }
}

/// A layout is whole: it starts with the number of its buffers, and has room for them.
pub open spec fn is_layout(layout: Seq<u8>) -> bool {
    layout.len() >= 4 && layout.len() >= 8 + little_endian(layout, 0) * 16
}

/// The number of channels that a layout has, which is held down to what 32 bits can hold.
pub open spec fn are_channels(layout: Seq<u8>, channels: u32) -> bool {
    let total = channels_of(layout, little_endian(layout, 0));
    if total <= 0xffff_ffff {
        channels == total
    } else {
        channels == 0xffff_ffff
    }
}

proof fn lemma_channels(layout: Seq<u8>, n: nat)
    ensures
        device::layout_channels(layout, n) == channels_of(layout, n as int),
    decreases n,
{
    if n > 0 {
        lemma_channels(layout, (n - 1) as nat);
    }
}

/// The channels of a layout are those of its buffers together.
pub proof fn channels_are_those_of_all_buffers(layout: &[u8], result: Result<u32, CoreAudioError>)
    requires
        call_ensures(channel_count, (layout,), result),
    ensures
        result is Ok <==> is_layout(layout@),
        result matches Ok(channels) ==> are_channels(layout@, channels),
{
    if layout@.len() >= 4 {
        lemma_channels(layout@, little_endian(layout@, 0) as nat);
    }
}

/// All that the system says of the device could be read, and is whole.
pub open spec fn is_usable(properties: DeviceProperties) -> bool {
    &&& properties.uid matches Ok(bytes) && exists|chars: Seq<char>| #[trigger]
        is_text(bytes@, chars)
    &&& properties.name matches Ok(bytes) && exists|chars: Seq<char>| #[trigger]
        is_text(bytes@, chars)
    &&& properties.transport matches Ok(bytes) && bytes@.len() == 4
    &&& properties.input_layout matches Ok(bytes) && is_layout(bytes@)
    &&& properties.output_layout matches Ok(bytes) && is_layout(bytes@)
    &&& properties.sample_rate matches Ok(bytes) && bytes@.len() == 8
}

/// A device as the system describes it: its unique name, its name, the channels of its input and of
/// its output, and its rate. It is virtual where its transport says so, and the driver's where its
/// unique name starts as those of the driver's devices do.
pub open spec fn is_described<M: FloatMath>(
    properties: DeviceProperties,
    device: AudioDevice,
) -> bool {
    &&& device.object_id == properties.object_id
    &&& is_text(properties.uid->Ok_0@, device.uid@)
    &&& is_text(properties.name->Ok_0@, device.name@)
    &&& are_channels(properties.input_layout->Ok_0@, device.input_channels)
    &&& are_channels(properties.output_layout->Ok_0@, device.output_channels)
    &&& device.is_virtual == (little_endian(properties.transport->Ok_0@, 0) == 0x7669_7274)
    &&& device.is_vcable == "dev.vcable.device."@.is_prefix_of(device.uid@)
    &&& exists|rate: Float64|
        {
            &&& rate.bits == little_endian(properties.sample_rate->Ok_0@, 4) * 0x1_0000_0000
                + little_endian(properties.sample_rate->Ok_0@, 0)
            &&& #[trigger] call_ensures(M::whole_hertz, (rate,), device.sample_rate)
        }
}

proof fn lemma_usable(properties: DeviceProperties)
    ensures
        device::device_error(properties) is None <==> is_usable(properties),
{
    if let Ok(bytes) = properties.uid {
        lemma_text(bytes@);
    }
    if let Ok(bytes) = properties.name {
        lemma_text(bytes@);
    }
}

proof fn lemma_described<M: FloatMath>(properties: DeviceProperties, listed: AudioDevice)
    requires
        device::is_device::<M>(properties, listed),
    ensures
        is_usable(properties),
        is_described::<M>(properties, listed),
{
    lemma_usable(properties);
    lemma_text(properties.uid->Ok_0@);
    lemma_text(properties.name->Ok_0@);
    let input = properties.input_layout->Ok_0@;
    let output = properties.output_layout->Ok_0@;
    lemma_channels(input, little_endian(input, 0) as nat);
    lemma_channels(output, little_endian(output, 0) as nat);
    let rate = device::float_in(properties.sample_rate)->Ok_0;
    let bytes = properties.sample_rate->Ok_0@;
    assert(rate.bits == little_endian(bytes, 4) * 0x1_0000_0000 + little_endian(bytes, 0));
    assert(call_ensures(M::whole_hertz, (rate,), listed.sample_rate));
}

/// Devices are listed where all that the system says of them can be used, and each as it is
/// described, in the order in which the system lists them.
pub proof fn devices_are_listed_as_described<M: FloatMath>(
    listing: Option<Result<Vec<DeviceProperties>, CoreAudioError>>,
    result: Result<Vec<AudioDevice>, CoreAudioError>,
)
    requires
        call_ensures(list_devices::<M>, (listing,), result),
    ensures
        match listing {
            None => result matches Err(CoreAudioError::UnsupportedPlatform),
            Some(Err(failure)) => result == Err::<Vec<AudioDevice>, CoreAudioError>(failure),
            Some(Ok(properties)) => {
                &&& result is Ok <==> forall|i: int|
                    0 <= i < properties@.len() ==> is_usable(#[trigger] properties@[i])
                &&& result matches Ok(devices) ==> {
                    &&& devices@.len() == properties@.len()
                    &&& forall|i: int|
                        0 <= i < devices@.len() ==> is_described::<M>(
                            properties@[i],
                            #[trigger] devices@[i],
                        )
                }
            },
        },
{
    if let Some(Ok(properties)) = listing {
        match result {
            Ok(devices) => {
                assert forall|i: int| 0 <= i < devices@.len() implies is_described::<M>(
                    properties@[i],
                    #[trigger] devices@[i],
                ) by {
                    lemma_described::<M>(properties@[i], devices@[i]);
                }
                assert forall|i: int| 0 <= i < properties@.len() implies is_usable(
                    #[trigger] properties@[i],
                ) by {
                    assert(device::is_device::<M>(properties@[i], devices@[i]));
                    lemma_described::<M>(properties@[i], devices@[i]);
                }
            },
            Err(error) => {
                let i = choose|i: int|
                    {
                        &&& 0 <= i < properties@.len()
                        &&& device::device_error(#[trigger] properties@[i]) == Some(error@)
                        &&& forall|j: int|
                            0 <= j < i ==> device::device_error(#[trigger] properties@[j]) is None
                    };
                lemma_usable(properties@[i]);
                assert(!is_usable(properties@[i]));
            },
        }
    }
}

/// Not empty, and without a tab, a carriage return, a line feed or a zero byte.
pub open spec fn is_plain_field(value: Seq<char>) -> bool {
    &&& encode_utf8(value).len() > 0
    &&& !encode_utf8(value).contains('\t' as u8)
    &&& !encode_utf8(value).contains('\r' as u8)
    &&& !encode_utf8(value).contains('\n' as u8)
    &&& !encode_utf8(value).contains(0)
}

proof fn lemma_field(value: Seq<char>)
    ensures
        device::is_field(value) == is_plain_field(value),
{
    let bytes = encode_utf8(value);
    if is_plain_field(value) {
        assert forall|i: int| 0 <= i < bytes.len() implies !device::is_separator(
            #[trigger] bytes[i],
        ) by {
            assert(bytes.contains(bytes[i]));
        }
    }
    if device::is_field(value) {
        assert forall|byte: u8| #[trigger] bytes.contains(byte) implies !device::is_separator(
            byte,
        ) by {
            let i = choose|i: int| 0 <= i < bytes.len() && bytes[i] == byte;
            assert(!device::is_separator(bytes[i]));
        }
    }
}

/// A field of a command is not empty, and has no tab, line break or zero byte in it.
pub proof fn fields_are_checked(
    value: &str,
    name: &'static str,
    result: Result<(), CoreAudioError>,
)
    requires
        call_ensures(validate_field, (value, name), result),
    ensures
        result is Ok <==> is_plain_field(value@),
        result matches Err(error) ==> (error matches CoreAudioError::InvalidProperty(refused)
            && refused@ == name@),
{
    lemma_field(value@);
}

/// The devices among them that are the driver's.
pub open spec fn driver_devices(devices: Seq<AudioDevice>) -> Seq<AudioDevice> {
    devices.filter(|device: AudioDevice| device.is_vcable)
}

proof fn lemma_driver_devices(devices: Seq<AudioDevice>)
    ensures
        device::vcable_count(devices) == driver_devices(devices).len(),
    decreases devices.len(),
{
    reveal(Seq::filter);
    if devices.len() > 0 {
        lemma_driver_devices(devices.drop_last());
    }
}

/// A device can be created with 1 to 64 channels in each direction and a rate from 8 kHz to 768 kHz,
/// where the driver has fewer than 4096 devices.
pub open spec fn can_be_created(
    id: Seq<char>,
    name: Seq<char>,
    inputs: u32,
    outputs: u32,
    rate: u32,
    listing: Result<Vec<AudioDevice>, CoreAudioError>,
) -> bool {
    &&& is_plain_field(id)
    &&& is_plain_field(name)
    &&& 0 < inputs <= 64
    &&& 0 < outputs <= 64
    &&& 8_000 <= rate <= 768_000
    &&& listing matches Ok(devices) ==> driver_devices(devices@).len() < 4_096
}

/// The command to create a device names its id, its name, its input channels, its output channels
/// and its rate, with tabs between them, and its unique name is to appear.
pub proof fn devices_are_created_by_command(
    id: &str,
    name: &str,
    inputs: u32,
    outputs: u32,
    rate: u32,
    listing: Option<Result<Vec<AudioDevice>, CoreAudioError>>,
    result: Result<DriverRequest, CoreAudioError>,
)
    requires
        call_ensures(create_virtual_device, (id, name, inputs, outputs, rate, listing), result),
    ensures
        match (listing, result) {
            (None, _) => result matches Err(CoreAudioError::UnsupportedPlatform),
            (Some(listing), Ok(request)) => {
                &&& can_be_created(id@, name@, inputs, outputs, rate, listing)
                &&& exists|a: Seq<char>, b: Seq<char>, c: Seq<char>|
                    {
                        &&& #[trigger] wire::is_numeral(encode_utf8(a), inputs as int)
                        &&& #[trigger] wire::is_numeral(encode_utf8(b), outputs as int)
                        &&& #[trigger] wire::is_numeral(encode_utf8(c), rate as int)
                        &&& request.command@ == "create\t"@ + id@ + "\t"@ + name@ + "\t"@ + a
                            + "\t"@ + b + "\t"@ + c
                    }
                &&& request.uid@ == "dev.vcable.device."@ + id@
                &&& request.expected_present
            },
            (Some(listing), Err(error)) => {
                &&& !can_be_created(id@, name@, inputs, outputs, rate, listing)
                &&& match error {
                    CoreAudioError::InvalidProperty(field) => {
                        ||| field@ == "device id"@ && !is_plain_field(id@)
                        ||| field@ == "device name"@ && is_plain_field(id@) && !is_plain_field(
                            name@,
                        )
                    },
                    CoreAudioError::DriverRejected(_) => is_plain_field(id@) && is_plain_field(
                        name@,
                    ),
                    _ => false,
                }
            },
        },
{
    lemma_field(id@);
    lemma_field(name@);
    if let Some(Ok(devices)) = listing {
        lemma_driver_devices(devices@);
    }
    wire::lemma_numeral(inputs as nat);
    wire::lemma_numeral(outputs as nat);
    wire::lemma_numeral(rate as nat);
    let a = text::digits(inputs as nat);
    let b = text::digits(outputs as nat);
    let c = text::digits(rate as nat);
    assert(wire::is_numeral(encode_utf8(a), inputs as int));
    assert(wire::is_numeral(encode_utf8(b), outputs as int));
    assert(wire::is_numeral(encode_utf8(c), rate as int));
}

/// The command to delete a device names its id, and its unique name is to vanish.
pub proof fn devices_are_deleted_by_command(
    id: &str,
    supported: bool,
    result: Result<DriverRequest, CoreAudioError>,
)
    requires
        call_ensures(delete_virtual_device, (id, supported), result),
    ensures
        !supported ==> (result matches Err(CoreAudioError::UnsupportedPlatform)),
        supported ==> match result {
            Ok(request) => {
                &&& is_plain_field(id@)
                &&& request.command@ == "delete\t"@ + id@
                &&& request.uid@ == "dev.vcable.device."@ + id@
                &&& !request.expected_present
            },
            Err(error) => {
                &&& !is_plain_field(id@)
                &&& error matches CoreAudioError::InvalidProperty(field) && field@ == "device id"@
            },
        },
{
    lemma_field(id@);
}

/// Waiting for a device ends well once it is listed, or no longer listed, as is expected. It ends
/// with an error where listing fails for another reason than an object that is gone, or once the
/// time is over, and goes on otherwise.
pub proof fn waiting_ends_when_the_device_is_seen(
    uid: &str,
    expected_present: bool,
    listing: Result<Vec<AudioDevice>, CoreAudioError>,
    deadline_passed: bool,
    outcome: Option<Result<(), CoreAudioError>>,
)
    requires
        call_ensures(
            wait_for_device_visibility,
            (uid, expected_present, listing, deadline_passed),
            outcome,
        ),
    ensures
        match listing {
            Ok(devices) => {
                let seen = exists|i: int|
                    0 <= i < devices@.len() && (#[trigger] devices@[i]).uid@ == uid@;
                if seen == expected_present {
                    outcome matches Some(Ok(()))
                } else if deadline_passed {
                    outcome matches Some(
                        Err(CoreAudioError::DeviceChangeTimeout { uid: missed, expected_present: e }),
                    ) && missed@ == uid@ && e == expected_present
                } else {
                    outcome is None
                }
            },
            Err(CoreAudioError::OsStatus(number)) if number == 0x216f_626a => {
                if deadline_passed {
                    outcome matches Some(
                        Err(CoreAudioError::DeviceChangeTimeout { uid: missed, expected_present: e }),
                    ) && missed@ == uid@ && e == expected_present
                } else {
                    outcome is None
                }
            },
            Err(failure) => outcome == Some(Err::<(), CoreAudioError>(failure)),
        },
{
}

/// The driver is the first plug-in with the identifier of its bundle.
pub proof fn the_driver_is_found_by_its_bundle(
    plugins: Vec<PluginProperties>,
    result: Result<u32, CoreAudioError>,
)
    requires
        call_ensures(find_vcable_plugin, (&plugins,), result),
    ensures
        match result {
            Ok(object_id) => exists|i: int|
                {
                    &&& 0 <= i < plugins@.len()
                    &&& object_id == (#[trigger] plugins@[i]).object_id
                    &&& plugins@[i].bundle_id matches Ok(id) && id@ == "dev.vcable.driver"@
                    &&& forall|j: int|
                        0 <= j < i ==> !((#[trigger] plugins@[j]).bundle_id matches Ok(id) && id@
                            == "dev.vcable.driver"@)
                },
            Err(error) => {
                &&& error is DriverNotInstalled
                &&& forall|j: int|
                    0 <= j < plugins@.len() ==> !((#[trigger] plugins@[j]).bundle_id matches Ok(
                        id,
                    ) && id@ == "dev.vcable.driver"@)
            },
        },
{
    if let Ok(object_id) = result {
        let i = choose|i: int|
            {
                &&& 0 <= i < plugins@.len()
                &&& device::is_driver(#[trigger] plugins@[i])
                &&& object_id == plugins@[i].object_id
                &&& forall|j: int| 0 <= j < i ==> !device::is_driver(#[trigger] plugins@[j])
            };
        assert forall|j: int| 0 <= j < i implies !((#[trigger] plugins@[j]).bundle_id matches Ok(
            id,
        ) && id@ == "dev.vcable.driver"@) by {
            assert(!device::is_driver(plugins@[j]));
        }
    } else {
        assert forall|j: int| 0 <= j < plugins@.len() implies !((
        #[trigger] plugins@[j]).bundle_id matches Ok(id) && id@ == "dev.vcable.driver"@) by {
            assert(!device::is_driver(plugins@[j]));
        }
    }
}

proof fn lemma_flags(word: u32, n: nat, i: int)
    requires
        0 <= i < n,
    ensures
        device::repeated_word(word, n).len() == 4 * n,
        little_endian(device::repeated_word(word, n), 4 * i) == word,
    decreases n,
{
    let before = device::repeated_word(word, (n - 1) as nat);
    let all = device::repeated_word(word, n);
    if n > 1 {
        lemma_flags(word, (n - 1) as nat, if i < n - 1 {
            i
        } else {
            0
        });
    } else {
        assert(before.len() == 0);
    }
    let last = device::word_bytes(word);
    if i < n - 1 {
        assert(all[4 * i] == before[4 * i]);
        assert(all[4 * i + 1] == before[4 * i + 1]);
        assert(all[4 * i + 2] == before[4 * i + 2]);
        assert(all[4 * i + 3] == before[4 * i + 3]);
    } else {
        assert(all[4 * i] == last[0]);
        assert(all[4 * i + 1] == last[1]);
        assert(all[4 * i + 2] == last[2]);
        assert(all[4 * i + 3] == last[3]);
    }
}

/// The streams of a device are turned on or off by the address of the callback in eight bytes, the
/// number of streams in four, and four bytes for each stream, all with the least significant first.
pub proof fn streams_are_turned_on_one_by_one(
    io_proc: u64,
    streams: u32,
    enabled: bool,
    property: Option<Vec<u8>>,
    stream: int,
)
    requires
        call_ensures(stream_usage, (io_proc, streams, enabled), property),
        0 <= stream < streams,
    ensures
        property matches Some(bytes) && {
            &&& bytes@.len() == 12 + 4 * streams
            &&& little_endian(bytes@, 0) + little_endian(bytes@, 4) * 0x1_0000_0000 == io_proc
            &&& little_endian(bytes@, 8) == streams
            &&& little_endian(bytes@, 12 + 4 * stream) == if enabled {
                1int
            } else {
                0int
            }
        },
{
    let bytes = property->0@;
    let low = device::word_bytes((io_proc % 0x1_0000_0000) as u32);
    let high = device::word_bytes((io_proc / 0x1_0000_0000) as u32);
    let count = device::word_bytes(streams);
    let flag: u32 = if enabled {
        1
    } else {
        0
    };
    let flags = device::repeated_word(flag, streams as nat);
    lemma_flags(flag, streams as nat, stream);
    assert(bytes == low + high + count + flags);
    assert forall|k: int| 0 <= k < 4 implies bytes[k] == low[k] && bytes[4 + k] == high[k] && bytes[8
        + k] == count[k] by {}
    assert(bytes[1] == low[1] && bytes[2] == low[2] && bytes[3] == low[3]);
    assert(bytes[4] == high[0] && bytes[5] == high[1] && bytes[6] == high[2] && bytes[7] == high[3]);
    assert(bytes[8] == count[0] && bytes[9] == count[1] && bytes[10] == count[2] && bytes[11]
        == count[3]);
    let at = 4 * stream;
    assert(bytes[12 + at] == flags[at]);
    assert(bytes[12 + at + 1] == flags[at + 1]);
    assert(bytes[12 + at + 2] == flags[at + 2]);
    assert(bytes[12 + at + 3] == flags[at + 3]);
}

} // verus!
