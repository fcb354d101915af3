//! Audio devices, and what the system says of them.
use vstd::prelude::*;
use vstd::string::StringExecFns;
use vstd::utf8::*;
use crate::fields;
use crate::fields::TAB;
use crate::float::{Float32, Float64, FloatMath};
use crate::text;
use crate::text::{digits_text, joined, same_text, signed_text, text_from_utf8};

verus! {

/// The identifier of the driver's bundle.
pub const BUNDLE_ID: &'static str = "dev.vcable.driver";

/// What the unique names of virtual devices start with.
pub const UID_PREFIX: &'static str = "dev.vcable.device.";

/// The transport type of a virtual device: the letters `virt`.
pub const TRANSPORT_VIRTUAL: u32 = 0x7669_7274;

/// The status of an object that is no longer there: the letters `!obj`.
pub const BAD_OBJECT_STATUS: i32 = 560_947_818;

/// The number of channels that a virtual device has at most in each direction.
pub const MAX_CHANNELS: u32 = 64;

/// The lowest sample rate of a virtual device, in hertz.
pub const MIN_SAMPLE_RATE: u32 = 8_000;

/// The highest sample rate of a virtual device, in hertz.
pub const MAX_SAMPLE_RATE: u32 = 768_000;

/// The number of virtual devices that can exist at a time.
pub const MAX_DEVICES: usize = 4_096;

/// An audio device.
#[derive(Debug, Eq, PartialEq)]
pub struct AudioDevice {
    pub object_id: u32,
    pub uid: String,
    pub name: String,
    pub input_channels: u32,
    pub output_channels: u32,
    pub sample_rate: u32,
    pub is_vcable: bool,
    pub is_virtual: bool,
}

impl Clone for AudioDevice {
    fn clone(&self) -> (copy: Self)
        ensures
            copy == *self,
    {
        AudioDevice {
            object_id: self.object_id,
            uid: self.uid.clone(),
            name: self.name.clone(),
            input_channels: self.input_channels,
            output_channels: self.output_channels,
            sample_rate: self.sample_rate,
            is_vcable: self.is_vcable,
            is_virtual: self.is_virtual,
        }
    }
}

/// A connection between two devices, as the router runs it.
#[derive(Clone, Debug, PartialEq)]
pub struct AudioRoute {
    pub source_device_id: u32,
    pub sink_device_id: u32,
    pub source_channels: u32,
    pub sink_channels: u32,
    pub source_sample_rate: u32,
    pub sink_sample_rate: u32,
    pub matrix: Vec<Float32>,
    pub gain: Float32,
}

/// Why something asked of Core Audio failed.
#[derive(Debug, Eq, PartialEq)]
pub enum CoreAudioError {
    UnsupportedPlatform,
    OsStatus(i32),
    InvalidProperty(&'static str),
    InvalidUtf8,
    DriverNotInstalled,
    DriverRejected(String),
    DeviceChangeTimeout { uid: String, expected_present: bool },
    InvalidRoute(String),
}

impl Clone for CoreAudioError {
    fn clone(&self) -> (copy: Self)
        ensures
            copy == *self,
    {
        match self {
            CoreAudioError::UnsupportedPlatform => CoreAudioError::UnsupportedPlatform,
            CoreAudioError::OsStatus(status) => CoreAudioError::OsStatus(*status),
            CoreAudioError::InvalidProperty(name) => CoreAudioError::InvalidProperty(name),
            CoreAudioError::InvalidUtf8 => CoreAudioError::InvalidUtf8,
            CoreAudioError::DriverNotInstalled => CoreAudioError::DriverNotInstalled,
            CoreAudioError::DriverRejected(message) => {
                CoreAudioError::DriverRejected(message.clone())
            },
            CoreAudioError::DeviceChangeTimeout { uid, expected_present } => {
                CoreAudioError::DeviceChangeTimeout {
                    uid: uid.clone(),
                    expected_present: *expected_present,
                }
            },
            CoreAudioError::InvalidRoute(message) => CoreAudioError::InvalidRoute(message.clone()),
        }
    }
}

/// A Core Audio error by its values.
pub enum CoreAudioErrorView {
    UnsupportedPlatform,
    OsStatus(i32),
    InvalidProperty(Seq<char>),
    InvalidUtf8,
    DriverNotInstalled,
    DriverRejected(Seq<char>),
    DeviceChangeTimeout { uid: Seq<char>, expected_present: bool },
    InvalidRoute(Seq<char>),
}

impl View for CoreAudioError {
    type V = CoreAudioErrorView;

    open spec fn view(&self) -> CoreAudioErrorView {
        match self {
            CoreAudioError::UnsupportedPlatform => CoreAudioErrorView::UnsupportedPlatform,
            CoreAudioError::OsStatus(status) => CoreAudioErrorView::OsStatus(*status),
            CoreAudioError::InvalidProperty(name) => CoreAudioErrorView::InvalidProperty(name@),
            CoreAudioError::InvalidUtf8 => CoreAudioErrorView::InvalidUtf8,
            CoreAudioError::DriverNotInstalled => CoreAudioErrorView::DriverNotInstalled,
            CoreAudioError::DriverRejected(message) => CoreAudioErrorView::DriverRejected(message@),
            CoreAudioError::DeviceChangeTimeout { uid, expected_present } => {
                CoreAudioErrorView::DeviceChangeTimeout {
                    uid: uid@,
                    expected_present: *expected_present,
                }
            },
            CoreAudioError::InvalidRoute(message) => CoreAudioErrorView::InvalidRoute(message@),
        }
    }
}

impl CoreAudioErrorView {
    /// The message that a person reads.
    pub open spec fn text(self) -> Seq<char> {
        match self {
            CoreAudioErrorView::UnsupportedPlatform => "Core Audio is available only on macOS"@,
            CoreAudioErrorView::OsStatus(status) => "Core Audio returned OSStatus "@
                + text::signed_digits(status as int),
            CoreAudioErrorView::InvalidProperty(name) => "invalid Core Audio property: "@ + name,
            CoreAudioErrorView::InvalidUtf8 => "Core Audio returned a non-UTF-8 string"@,
            CoreAudioErrorView::DriverNotInstalled => "VCable HAL driver is not installed"@,
            CoreAudioErrorView::DriverRejected(message) => "VCable driver rejected the request: "@
                + message,
            CoreAudioErrorView::DeviceChangeTimeout { uid, expected_present } => {
                "timed out waiting for Core Audio device "@ + uid + " to become "@
                    + if expected_present {
                    "visible"@
                } else {
                    "absent"@
                }
            },
            CoreAudioErrorView::InvalidRoute(message) => "invalid audio route: "@ + message,
        }
    }
}

impl CoreAudioError {
    /// The message that a person reads.
    pub fn text(&self) -> (message: String)
        ensures
            message@ == self@.text(),
    {
        match self {
            CoreAudioError::UnsupportedPlatform => {
                "Core Audio is available only on macOS".to_owned()
            },
            CoreAudioError::OsStatus(status) => {
                joined("Core Audio returned OSStatus ", signed_text(*status).as_str())
            },
            CoreAudioError::InvalidProperty(name) => joined("invalid Core Audio property: ", name),
            CoreAudioError::InvalidUtf8 => "Core Audio returned a non-UTF-8 string".to_owned(),
            CoreAudioError::DriverNotInstalled => "VCable HAL driver is not installed".to_owned(),
            CoreAudioError::DriverRejected(message) => {
                joined("VCable driver rejected the request: ", message.as_str())
            },
            CoreAudioError::DeviceChangeTimeout { uid, expected_present } => {
                let mut message = joined("timed out waiting for Core Audio device ", uid.as_str());
                message.append(" to become ");
                message.append(
                    if *expected_present {
                        "visible"
                    } else {
                        "absent"
                    },
                );
                message
            },
            CoreAudioError::InvalidRoute(message) => {
                joined("invalid audio route: ", message.as_str())
            },
        }
    }
}

/// The number that four letters stand for, the first of them in the highest byte.
pub open spec fn four_letters(value: Seq<u8>) -> int {
    value[0] * 0x100_0000 + value[1] * 0x1_0000 + value[2] * 0x100 + value[3]
}

/// The number that four letters stand for, the first of them in the highest byte.
pub fn fourcc(value: [u8; 4]) -> (number: u32)
    ensures
        number == four_letters(value@),
{
    value[0] as u32 * 0x100_0000 + value[1] as u32 * 0x1_0000 + value[2] as u32 * 0x100
        + value[3] as u32
}

/// Turns a status into an error, unless it is zero.
pub fn status(value: i32) -> (result: Result<(), CoreAudioError>)
    ensures
        match result {
            Ok(()) => value == 0,
            Err(error) => value != 0 && error == CoreAudioError::OsStatus(value),
        },
{
    if value == 0 {
        Ok(())
    } else {
        Err(CoreAudioError::OsStatus(value))
    }
}

/// The number in four bytes, the first of them the lowest.
pub open spec fn word_at(bytes: Seq<u8>, at: int) -> int {
    bytes[at] + bytes[at + 1] * 0x100 + bytes[at + 2] * 0x1_0000 + bytes[at + 3] * 0x100_0000
}

/// The number in four bytes, the first of them the lowest.
fn read_word(bytes: &[u8], at: usize) -> (word: u32)
    requires
        at + 4 <= bytes@.len(),
    ensures
        word == word_at(bytes@, at as int),
{
    bytes[at] as u32 + bytes[at + 1] as u32 * 0x100 + bytes[at + 2] as u32 * 0x1_0000 + bytes[at
        + 3] as u32 * 0x100_0000
}

/// The numbers in a property that is a list of 32-bit numbers.
pub open spec fn words(bytes: Seq<u8>) -> Seq<u32> {
    Seq::new(bytes.len() / 4, |i: int| word_at(bytes, 4 * i) as u32)
}

/// Reads a property that is a list of 32-bit numbers.
pub fn object_ids(property: &[u8]) -> (result: Result<Vec<u32>, CoreAudioError>)
    ensures
        match result {
            Ok(ids) => property@.len() % 4 == 0 && ids@ == words(property@),
            Err(error) => property@.len() % 4 != 0 && error@
                == CoreAudioErrorView::InvalidProperty("AudioObjectID array"@),
        },
{
    let length: usize = property.len();
    if length % 4 != 0 {
        return Err(CoreAudioError::InvalidProperty("AudioObjectID array"));
    }
    let mut ids: Vec<u32> = Vec::with_capacity(length / 4);
    let mut at: usize = 0;
    while at < length
        invariant
            length == property@.len(),
            length % 4 == 0,
            at % 4 == 0,
            at <= length,
            ids@ == words(property@.take(at as int)),
        decreases length - at,
    {
        ids.push(read_word(property, at));
        at = at + 4;
        assert(ids@ =~= words(property@.take(at as int)));
    }
    assert(property@.take(at as int) =~= property@);
    Ok(ids)
}

/// Reads a property that is one 32-bit number.
pub fn property_word(property: &[u8]) -> (result: Result<u32, CoreAudioError>)
    ensures
        match result {
            Ok(word) => property@.len() == 4 && word == word_at(property@, 0),
            Err(error) => property@.len() != 4 && error@ == CoreAudioErrorView::InvalidProperty(
                "UInt32"@,
            ),
        },
{
    if property.len() != 4 {
        return Err(CoreAudioError::InvalidProperty("UInt32"));
    }
    Ok(read_word(property, 0))
}

/// Reads a property that is one double-precision number.
pub fn property_float(property: &[u8]) -> (result: Result<Float64, CoreAudioError>)
    ensures
        match result {
            Ok(value) => {
                &&& property@.len() == 8
                &&& value.bits == word_at(property@, 0) + word_at(property@, 4) * 0x1_0000_0000
            },
            Err(error) => property@.len() != 8 && error@ == CoreAudioErrorView::InvalidProperty(
                "Float64"@,
            ),
        },
{
    if property.len() != 8 {
        return Err(CoreAudioError::InvalidProperty("Float64"));
    }
    let low: u64 = read_word(property, 0) as u64;
    let high: u64 = read_word(property, 4) as u64;
    Ok(Float64 { bits: low + high * 0x1_0000_0000 })
}

/// The bytes before the first zero byte.
pub open spec fn before_zero(bytes: Seq<u8>) -> Seq<u8>
    decreases bytes.len(),
{
    if bytes.len() == 0 || bytes[0] == 0 {
        Seq::empty()
    } else {
        seq![bytes[0]] + before_zero(bytes.skip(1))
    }
}

/// The text before the first zero byte.
pub open spec fn zero_ended_text(bytes: Seq<u8>) -> Result<Seq<char>, CoreAudioErrorView> {
    if valid_utf8(before_zero(bytes)) {
        Ok(decode_utf8(before_zero(bytes)))
    } else {
        Err(CoreAudioErrorView::InvalidUtf8)
    }
}

/// `n` bytes that are not zero stand in front of `rest`.
proof fn lemma_before_zero(bytes: Seq<u8>, n: int)
    requires
        0 <= n <= bytes.len(),
        forall|i: int| 0 <= i < n ==> bytes[i] != 0,
        n == bytes.len() || bytes[n] == 0,
    ensures
        before_zero(bytes) == bytes.take(n),
    decreases n,
{
    if n == 0 {
        assert(bytes.take(0) =~= Seq::<u8>::empty());
    } else {
        lemma_before_zero(bytes.skip(1), n - 1);
        assert(bytes.take(n) =~= seq![bytes[0]] + bytes.skip(1).take(n - 1));
    }
}

/// Reads the text before the first zero byte.
pub fn property_text(buffer: &[u8]) -> (result: Result<String, CoreAudioError>)
    ensures
        match result {
            Ok(text) => zero_ended_text(buffer@) == Ok::<Seq<char>, CoreAudioErrorView>(text@),
            Err(error) => zero_ended_text(buffer@) == Err::<Seq<char>, CoreAudioErrorView>(error@),
        },
{
    let mut text: Vec<u8> = Vec::new();
    let mut at: usize = 0;
    while at < buffer.len() && buffer[at] != 0
        invariant
            at <= buffer@.len(),
            text@ == buffer@.take(at as int),
            forall|i: int| 0 <= i < at ==> buffer@[i] != 0,
        decreases buffer.len() - at,
    {
        text.push(buffer[at]);
        at = at + 1;
        assert(text@ =~= buffer@.take(at as int));
    }
    proof {
        lemma_before_zero(buffer@, at as int);
    }
    match text_from_utf8(text) {
        Some(text) => {
            proof {
                encode_utf8_decode_utf8(text@);
            }
            Ok(text)
        },
        None => Err(CoreAudioError::InvalidUtf8),
    }
}

/// The channels of the first `n` buffers of a buffer layout.
///
/// The layout starts with the number of buffers. Behind padding to eight bytes, each buffer takes
/// sixteen, and starts with its number of channels.
pub open spec fn layout_channels(layout: Seq<u8>, n: nat) -> nat
    decreases n,
{
    if n == 0 {
        0
    } else {
        layout_channels(layout, (n - 1) as nat) + word_at(layout, 8 + 16 * (n - 1)) as nat
    }
}

/// The number of channels in a buffer layout, or what is wrong with the layout.
pub open spec fn channel_total(layout: Seq<u8>) -> Result<u32, CoreAudioErrorView> {
    if layout.len() < 4 {
        Err(CoreAudioErrorView::InvalidProperty("AudioBufferList"@))
    } else if layout.len() < 8 + 16 * word_at(layout, 0) {
        Err(CoreAudioErrorView::InvalidProperty("AudioBufferList buffers"@))
    } else {
        let channels = layout_channels(layout, word_at(layout, 0) as nat);
        Ok(
            if channels <= u32::MAX {
                channels as u32
            } else {
                u32::MAX
            },
        )
    }
}

/// Reads the number of channels from a buffer layout.
pub fn channel_count(layout: &[u8]) -> (result: Result<u32, CoreAudioError>)
    ensures
        match result {
            Ok(channels) => channel_total(layout@) == Ok::<u32, CoreAudioErrorView>(channels),
            Err(error) => channel_total(layout@) == Err::<u32, CoreAudioErrorView>(error@),
        },
{
    if layout.len() < 4 {
        return Err(CoreAudioError::InvalidProperty("AudioBufferList"));
    }
    let buffers: u64 = read_word(layout, 0) as u64;
    let required: u64 = 8 + 16 * buffers;
    if (layout.len() as u64) < required {
        return Err(CoreAudioError::InvalidProperty("AudioBufferList buffers"));
    }
    let mut channels: u32 = 0;
    let mut index: u64 = 0;
    while index < buffers
        invariant
            index <= buffers,
            8 + 16 * buffers <= layout@.len(),
            layout@.len() <= usize::MAX,
            channels == if layout_channels(layout@, index as nat) <= u32::MAX {
                layout_channels(layout@, index as nat) as int
            } else {
                u32::MAX as int
            },
        decreases buffers - index,
    {
        let at: usize = (8 + 16 * index) as usize;
        channels = channels.saturating_add(read_word(layout, at));
        index = index + 1;
    }
    Ok(channels)
}

/// What the system says of a device, each property as it was read or the error that reading it
/// gave.
pub struct DeviceProperties {
    pub object_id: u32,
    pub uid: Result<Vec<u8>, CoreAudioError>,
    pub transport: Result<Vec<u8>, CoreAudioError>,
    pub name: Result<Vec<u8>, CoreAudioError>,
    pub input_layout: Result<Vec<u8>, CoreAudioError>,
    pub output_layout: Result<Vec<u8>, CoreAudioError>,
    pub sample_rate: Result<Vec<u8>, CoreAudioError>,
}

/// A text property, once read.
pub open spec fn text_in(property: Result<Vec<u8>, CoreAudioError>) -> Result<
    Seq<char>,
    CoreAudioErrorView,
> {
    match property {
        Ok(bytes) => zero_ended_text(bytes@),
        Err(error) => Err(error@),
    }
}

/// A 32-bit number, once read.
pub open spec fn word_in(property: Result<Vec<u8>, CoreAudioError>) -> Result<
    u32,
    CoreAudioErrorView,
> {
    match property {
        Ok(bytes) => if bytes@.len() == 4 {
            Ok(word_at(bytes@, 0) as u32)
        } else {
            Err(CoreAudioErrorView::InvalidProperty("UInt32"@))
        },
        Err(error) => Err(error@),
    }
}

/// A number of channels, once read.
pub open spec fn channels_in(property: Result<Vec<u8>, CoreAudioError>) -> Result<
    u32,
    CoreAudioErrorView,
> {
    match property {
        Ok(bytes) => channel_total(bytes@),
        Err(error) => Err(error@),
    }
}

/// A double-precision number, once read.
pub open spec fn float_in(property: Result<Vec<u8>, CoreAudioError>) -> Result<
    Float64,
    CoreAudioErrorView,
> {
    match property {
        Ok(bytes) => if bytes@.len() == 8 {
            Ok(
                Float64 {
                    bits: (word_at(bytes@, 0) + word_at(bytes@, 4) * 0x1_0000_0000) as u64,
                },
            )
        } else {
            Err(CoreAudioErrorView::InvalidProperty("Float64"@))
        },
        Err(error) => Err(error@),
    }
}

/// The first property of a device that cannot be used, by its error.
pub open spec fn device_error(properties: DeviceProperties) -> Option<CoreAudioErrorView> {
    if let Err(error) = text_in(properties.uid) {
        Some(error)
    } else if let Err(error) = word_in(properties.transport) {
        Some(error)
    } else if let Err(error) = text_in(properties.name) {
        Some(error)
    } else if let Err(error) = channels_in(properties.input_layout) {
        Some(error)
    } else if let Err(error) = channels_in(properties.output_layout) {
        Some(error)
    } else if let Err(error) = float_in(properties.sample_rate) {
        Some(error)
    } else {
        None
    }
}

/// `error` is that of the first device some property of which cannot be used.
pub open spec fn is_first_error(
    properties: Seq<DeviceProperties>,
    error: CoreAudioErrorView,
) -> bool {
    exists|i: int|
        {
            &&& 0 <= i < properties.len()
            &&& device_error(#[trigger] properties[i]) == Some(error)
            &&& forall|j: int| 0 <= j < i ==> device_error(#[trigger] properties[j]) is None
        }
}

/// `device` is what the properties say.
pub open spec fn is_device<M: FloatMath>(
    properties: DeviceProperties,
    device: AudioDevice,
) -> bool {
    &&& device_error(properties) is None
    &&& device.object_id == properties.object_id
    &&& device.uid@ == text_in(properties.uid)->Ok_0
    &&& device.name@ == text_in(properties.name)->Ok_0
    &&& device.input_channels == channels_in(properties.input_layout)->Ok_0
    &&& device.output_channels == channels_in(properties.output_layout)->Ok_0
    &&& device.is_vcable == UID_PREFIX@.is_prefix_of(device.uid@)
    &&& device.is_virtual == (word_in(properties.transport)->Ok_0 == TRANSPORT_VIRTUAL)
    &&& call_ensures(
        M::whole_hertz,
        (float_in(properties.sample_rate)->Ok_0,),
        device.sample_rate,
    )
}

fn read_text(property: &Result<Vec<u8>, CoreAudioError>) -> (result: Result<
    String,
    CoreAudioError,
>)
    ensures
        match result {
            Ok(text) => text_in(*property) == Ok::<Seq<char>, CoreAudioErrorView>(text@),
            Err(error) => text_in(*property) == Err::<Seq<char>, CoreAudioErrorView>(error@),
        },
{
    match property {
        Ok(bytes) => property_text(bytes.as_slice()),
        Err(error) => Err(error.clone()),
    }
}

fn read_channels(property: &Result<Vec<u8>, CoreAudioError>) -> (result: Result<
    u32,
    CoreAudioError,
>)
    ensures
        match result {
            Ok(channels) => channels_in(*property) == Ok::<u32, CoreAudioErrorView>(channels),
            Err(error) => channels_in(*property) == Err::<u32, CoreAudioErrorView>(error@),
        },
{
    match property {
        Ok(bytes) => channel_count(bytes.as_slice()),
        Err(error) => Err(error.clone()),
    }
}

fn read_number(property: &Result<Vec<u8>, CoreAudioError>) -> (result: Result<u32, CoreAudioError>)
    ensures
        match result {
            Ok(word) => word_in(*property) == Ok::<u32, CoreAudioErrorView>(word),
            Err(error) => word_in(*property) == Err::<u32, CoreAudioErrorView>(error@),
        },
{
    match property {
        Ok(bytes) => property_word(bytes.as_slice()),
        Err(error) => Err(error.clone()),
    }
}

fn read_float(property: &Result<Vec<u8>, CoreAudioError>) -> (result: Result<
    Float64,
    CoreAudioError,
>)
    ensures
        match result {
            Ok(value) => float_in(*property) == Ok::<Float64, CoreAudioErrorView>(value),
            Err(error) => float_in(*property) == Err::<Float64, CoreAudioErrorView>(error@),
        },
{
    match property {
        Ok(bytes) => property_float(bytes.as_slice()),
        Err(error) => Err(error.clone()),
    }
}

/// Tells whether `text` starts with `prefix`.
fn starts_with(text: &str, prefix: &str) -> (yes: bool)
    ensures
        yes == prefix@.is_prefix_of(text@),
{
    let length: usize = prefix.unicode_len();
    if text.unicode_len() < length {
        return false;
    }
    let mut i: usize = 0;
    while i < length
        invariant
            length == prefix@.len(),
            length <= text@.len(),
            i <= length,
            forall|k: int| 0 <= k < i ==> text@[k] == prefix@[k],
        decreases length - i,
    {
        if text.get_char(i) != prefix.get_char(i) {
            assert(text@.subrange(0, length as int)[i as int] != prefix@[i as int]);
            return false;
        }
        i = i + 1;
    }
    assert(prefix@ =~= text@.subrange(0, length as int));
    true
}

/// Puts a device together from its properties.
fn device_from<M: FloatMath>(properties: &DeviceProperties) -> (result: Result<
    AudioDevice,
    CoreAudioError,
>)
    ensures
        match result {
            Ok(device) => is_device::<M>(*properties, device),
            Err(error) => device_error(*properties) == Some(error@),
        },
{
    let uid = match read_text(&properties.uid) {
        Ok(uid) => uid,
        Err(error) => {
            return Err(error);
        },
    };
    let transport = match read_number(&properties.transport) {
        Ok(transport) => transport,
        Err(error) => {
            return Err(error);
        },
    };
    let name = match read_text(&properties.name) {
        Ok(name) => name,
        Err(error) => {
            return Err(error);
        },
    };
    let input_channels = match read_channels(&properties.input_layout) {
        Ok(channels) => channels,
        Err(error) => {
            return Err(error);
        },
    };
    let output_channels = match read_channels(&properties.output_layout) {
        Ok(channels) => channels,
        Err(error) => {
            return Err(error);
        },
    };
    let rate = match read_float(&properties.sample_rate) {
        Ok(rate) => rate,
        Err(error) => {
            return Err(error);
        },
    };
    let is_vcable = starts_with(uid.as_str(), UID_PREFIX);
    Ok(
        AudioDevice {
            object_id: properties.object_id,
            uid,
            name,
            input_channels,
            output_channels,
            sample_rate: M::whole_hertz(rate),
            is_vcable,
            is_virtual: transport == TRANSPORT_VIRTUAL,
        },
    )
}

/// Lists the devices whose properties were read.
///
/// There are no properties where there is no Core Audio. Otherwise the properties of each device
/// are given, or the error that reading the list of devices gave.
pub fn list_devices<M: FloatMath>(
    listing: Option<Result<Vec<DeviceProperties>, CoreAudioError>>,
) -> (result: Result<Vec<AudioDevice>, CoreAudioError>)
    ensures
        match listing {
            None => result matches Err(error) && error == CoreAudioError::UnsupportedPlatform,
            Some(Err(failure)) => result matches Err(error) && error == failure,
            Some(Ok(properties)) => match result {
                Ok(devices) => {
                    &&& devices@.len() == properties@.len()
                    &&& forall|i: int|
                        0 <= i < devices@.len() ==> is_device::<M>(
                            properties@[i],
                            #[trigger] devices@[i],
                        )
                },
                Err(error) => is_first_error(properties@, error@),
            },
        },
{
    let properties = match listing {
        None => {
            return Err(CoreAudioError::UnsupportedPlatform);
        },
        Some(Err(error)) => {
            return Err(error);
        },
        Some(Ok(properties)) => properties,
    };
    let mut devices: Vec<AudioDevice> = Vec::new();
    let mut i: usize = 0;
    while i < properties.len()
        invariant
            i <= properties@.len(),
            devices@.len() == i,
            listing == Some(Ok::<Vec<DeviceProperties>, CoreAudioError>(properties)),
            forall|j: int|
                0 <= j < devices@.len() ==> is_device::<M>(properties@[j], #[trigger] devices@[j]),
        decreases properties.len() - i,
    {
        match device_from::<M>(&properties[i]) {
            Ok(device) => {
                devices.push(device);
            },
            Err(error) => {
                proof {
                    assert forall|j: int| 0 <= j < i implies device_error(
                        #[trigger] properties@[j],
                    ) is None by {
                        assert(is_device::<M>(properties@[j], devices@[j]));
                    }
                    assert(device_error(properties@[i as int]) == Some(error@));
                    assert(is_first_error(properties@, error@));
                }
                return Err(error);
            },
        }
        i = i + 1;
    }
    Ok(devices)
}

/// A byte that would break a command to the driver apart.
pub open spec fn is_separator(byte: u8) -> bool {
    byte == 9 || byte == 13 || byte == 10 || byte == 0
}

/// The text can stand as a field of a command: it is not empty and holds no tab, line break or zero.
pub open spec fn is_field(value: Seq<char>) -> bool {
    let bytes = encode_utf8(value);
    &&& bytes.len() > 0
    &&& forall|i: int| 0 <= i < bytes.len() ==> !is_separator(#[trigger] bytes[i])
}

/// Checks that the text can stand as a field of a command.
pub fn validate_field(value: &str, name: &'static str) -> (result: Result<(), CoreAudioError>)
    ensures
        match result {
            Ok(()) => is_field(value@),
            Err(error) => !is_field(value@) && error@ == CoreAudioErrorView::InvalidProperty(name@),
        },
{
    let bytes = value.as_bytes();
    if bytes.len() == 0 {
        return Err(CoreAudioError::InvalidProperty(name));
    }
    let mut i: usize = 0;
    while i < bytes.len()
        invariant
            i <= bytes@.len(),
            bytes@ == encode_utf8(value@),
            forall|k: int| 0 <= k < i ==> !is_separator(#[trigger] bytes@[k]),
        decreases bytes.len() - i,
    {
        let byte = bytes[i];
        if byte == 9 || byte == 13 || byte == 10 || byte == 0 {
            assert(is_separator(bytes@[i as int]));
            return Err(CoreAudioError::InvalidProperty(name));
        }
        i = i + 1;
    }
    Ok(())
}

/// A command to the driver, and the change of the device list that it is to bring about.
#[derive(Debug, Eq, PartialEq)]
pub struct DriverRequest {
    pub command: String,
    pub uid: String,
    pub expected_present: bool,
}

/// How many of the devices are the driver's.
pub open spec fn vcable_count(devices: Seq<AudioDevice>) -> nat
    decreases devices.len(),
{
    if devices.len() == 0 {
        0
    } else {
        vcable_count(devices.drop_last()) + if devices.last().is_vcable {
            1nat
        } else {
            0
        }
    }
}

/// How many devices of the driver a listing shows. One that failed shows none.
pub open spec fn listed_count(listing: Result<Vec<AudioDevice>, CoreAudioError>) -> nat {
    match listing {
        Ok(devices) => vcable_count(devices@),
        Err(_) => 0,
    }
}

/// Counts the devices of the driver that a listing shows.
fn count_listed(listing: &Result<Vec<AudioDevice>, CoreAudioError>) -> (count: usize)
    ensures
        count == listed_count(*listing),
{
    match listing {
        Ok(devices) => {
            let mut count: usize = 0;
            let mut i: usize = 0;
            assert(devices@.take(0) =~= Seq::<AudioDevice>::empty());
            while i < devices.len()
                invariant
                    i <= devices@.len(),
                    count <= i,
                    count == vcable_count(devices@.take(i as int)),
                decreases devices.len() - i,
            {
                assert(devices@.take(i + 1).drop_last() =~= devices@.take(i as int));
                if devices[i].is_vcable {
                    count = count + 1;
                }
                i = i + 1;
            }
            assert(devices@.take(i as int) =~= devices@);
            count
        },
        Err(_) => 0,
    }
}

/// Why a device cannot be created where the driver has `existing` devices.
pub open spec fn create_error(
    id: Seq<char>,
    name: Seq<char>,
    input_channels: u32,
    output_channels: u32,
    sample_rate: u32,
    existing: nat,
) -> Option<CoreAudioErrorView> {
    if !is_field(id) {
        Some(CoreAudioErrorView::InvalidProperty("device id"@))
    } else if !is_field(name) {
        Some(CoreAudioErrorView::InvalidProperty("device name"@))
    } else if input_channels == 0 || output_channels == 0 {
        Some(CoreAudioErrorView::DriverRejected("channel counts must be greater than zero"@))
    } else if input_channels > MAX_CHANNELS || output_channels > MAX_CHANNELS {
        Some(CoreAudioErrorView::DriverRejected("channel counts must be at most 64"@))
    } else if sample_rate < MIN_SAMPLE_RATE || sample_rate > MAX_SAMPLE_RATE {
        Some(CoreAudioErrorView::DriverRejected("sample rate must be from 8000 to 768000 Hz"@))
    } else if existing >= MAX_DEVICES {
        Some(CoreAudioErrorView::DriverRejected("there are 4096 virtual devices already"@))
    } else {
        None
    }
}

/// The command that creates a device.
pub open spec fn create_command(
    id: Seq<char>,
    name: Seq<char>,
    input_channels: u32,
    output_channels: u32,
    sample_rate: u32,
) -> Seq<char> {
    "create\t"@ + id + "\t"@ + name + "\t"@ + text::digits(input_channels as nat) + "\t"@
        + text::digits(output_channels as nat) + "\t"@ + text::digits(sample_rate as nat)
}

/// What to ask of the driver to create a virtual device.
///
/// There is no listing where there is no Core Audio to ask. Otherwise it shows the devices as they
/// are before, or the error that listing them gave.
pub fn create_virtual_device(
    id: &str,
    name: &str,
    input_channels: u32,
    output_channels: u32,
    sample_rate: u32,
    listing: Option<Result<Vec<AudioDevice>, CoreAudioError>>,
) -> (result: Result<DriverRequest, CoreAudioError>)
    ensures
        match result {
            Ok(request) => {
                &&& listing matches Some(listing) && create_error(
                    id@,
                    name@,
                    input_channels,
                    output_channels,
                    sample_rate,
                    listed_count(listing),
                ) is None
                &&& request.command@ == create_command(
                    id@,
                    name@,
                    input_channels,
                    output_channels,
                    sample_rate,
                )
                &&& request.uid@ == UID_PREFIX@ + id@
                &&& request.expected_present
            },
            Err(error) => match listing {
                Some(listing) => create_error(
                    id@,
                    name@,
                    input_channels,
                    output_channels,
                    sample_rate,
                    listed_count(listing),
                ) == Some(error@),
                None => error == CoreAudioError::UnsupportedPlatform,
            },
        },
{
    let existing: usize = match &listing {
        Some(listing) => count_listed(listing),
        None => {
            return Err(CoreAudioError::UnsupportedPlatform);
        },
    };
    if let Err(error) = validate_field(id, "device id") {
        return Err(error);
    }
    if let Err(error) = validate_field(name, "device name") {
        return Err(error);
    }
    if input_channels == 0 || output_channels == 0 {
        return Err(
            CoreAudioError::DriverRejected("channel counts must be greater than zero".to_owned()),
        );
    }
    if input_channels > MAX_CHANNELS || output_channels > MAX_CHANNELS {
        return Err(
            CoreAudioError::DriverRejected("channel counts must be at most 64".to_owned()),
        );
    }
    if sample_rate < MIN_SAMPLE_RATE || sample_rate > MAX_SAMPLE_RATE {
        return Err(
            CoreAudioError::DriverRejected("sample rate must be from 8000 to 768000 Hz".to_owned()),
        );
    }
    if existing >= MAX_DEVICES {
        return Err(
            CoreAudioError::DriverRejected("there are 4096 virtual devices already".to_owned()),
        );
    }
    let mut command = joined("create\t", id);
    command.append("\t");
    command.append(name);
    command.append("\t");
    command.append(digits_text(input_channels as u64).as_str());
    command.append("\t");
    command.append(digits_text(output_channels as u64).as_str());
    command.append("\t");
    command.append(digits_text(sample_rate as u64).as_str());
    Ok(DriverRequest { command, uid: joined(UID_PREFIX, id), expected_present: true })
}

/// What to ask of the driver to delete a virtual device.
///
/// `supported` tells whether there is a Core Audio to ask.
pub fn delete_virtual_device(id: &str, supported: bool) -> (result: Result<
    DriverRequest,
    CoreAudioError,
>)
    ensures
        match result {
            Ok(request) => {
                &&& supported
                &&& is_field(id@)
                &&& request.command@ == "delete\t"@ + id@
                &&& request.uid@ == UID_PREFIX@ + id@
                &&& !request.expected_present
            },
            Err(error) => if supported {
                !is_field(id@) && error@ == CoreAudioErrorView::InvalidProperty("device id"@)
            } else {
                error == CoreAudioError::UnsupportedPlatform
            },
        },
{
    if !supported {
        return Err(CoreAudioError::UnsupportedPlatform);
    }
    if let Err(error) = validate_field(id, "device id") {
        return Err(error);
    }
    Ok(
        DriverRequest {
            command: joined("delete\t", id),
            uid: joined(UID_PREFIX, id),
            expected_present: false,
        },
    )
}

/// Some device has the unique name.
pub open spec fn is_present(devices: Seq<AudioDevice>, uid: Seq<char>) -> bool {
    exists|i: int| 0 <= i < devices.len() && (#[trigger] devices[i]).uid@ == uid
}

/// Tells whether some device has the unique name.
fn has_device(devices: &Vec<AudioDevice>, uid: &str) -> (present: bool)
    ensures
        present == is_present(devices@, uid@),
{
    let mut i: usize = 0;
    while i < devices.len()
        invariant
            i <= devices@.len(),
            forall|k: int| 0 <= k < i ==> (#[trigger] devices@[k]).uid@ != uid@,
        decreases devices.len() - i,
    {
        if same_text(devices[i].uid.as_str(), uid) {
            return true;
        }
        i = i + 1;
    }
    false
}

/// Decides whether waiting for a device to appear or vanish is over, from the device list as it is
/// now. Nothing comes back where the list is to be looked at again.
///
/// The list can name an object that is retired before its properties are read. That is not taken
/// for a failure.
pub fn wait_for_device_visibility(
    uid: &str,
    expected_present: bool,
    devices: Result<Vec<AudioDevice>, CoreAudioError>,
    deadline_passed: bool,
) -> (outcome: Option<Result<(), CoreAudioError>>)
    ensures
        ({
            let settled = devices matches Ok(devices) && is_present(devices@, uid@)
                == expected_present;
            let failed = devices matches Err(error) && error != CoreAudioError::OsStatus(
                BAD_OBJECT_STATUS,
            );
            match outcome {
                Some(Ok(())) => settled,
                Some(Err(error)) => if failed {
                    devices == Err::<Vec<AudioDevice>, CoreAudioError>(error)
                } else {
                    &&& !settled
                    &&& deadline_passed
                    &&& error@ == CoreAudioErrorView::DeviceChangeTimeout {
                        uid: uid@,
                        expected_present,
                    }
                },
                None => !settled && !failed && !deadline_passed,
            }
        }),
{
    match devices {
        Ok(devices) => {
            if has_device(&devices, uid) == expected_present {
                return Some(Ok(()));
            }
        },
        Err(error) => {
            match &error {
                CoreAudioError::OsStatus(status) => {
                    if *status != BAD_OBJECT_STATUS {
                        return Some(Err(error));
                    }
                },
                _ => {
                    return Some(Err(error));
                },
            }
        },
    }
    if deadline_passed {
        return Some(
            Err(CoreAudioError::DeviceChangeTimeout { uid: uid.to_owned(), expected_present }),
        );
    }
    None
}

/// A plug-in, and the identifier of its bundle where that could be read.
pub struct PluginProperties {
    pub object_id: u32,
    pub bundle_id: Result<String, CoreAudioError>,
}

/// The plug-in is the driver.
pub open spec fn is_driver(plugin: PluginProperties) -> bool {
    plugin.bundle_id matches Ok(id) && id@ == BUNDLE_ID@
}

/// Finds the driver among the plug-ins.
pub fn find_vcable_plugin(plugins: &Vec<PluginProperties>) -> (result: Result<u32, CoreAudioError>)
    ensures
        match result {
            Ok(object_id) => exists|i: int|
                {
                    &&& 0 <= i < plugins@.len()
                    &&& is_driver(#[trigger] plugins@[i])
                    &&& object_id == plugins@[i].object_id
                    &&& forall|j: int| 0 <= j < i ==> !is_driver(#[trigger] plugins@[j])
                },
            Err(error) => {
                &&& error == CoreAudioError::DriverNotInstalled
                &&& forall|i: int| 0 <= i < plugins@.len() ==> !is_driver(#[trigger] plugins@[i])
            },
        },
{
    let mut i: usize = 0;
    while i < plugins.len()
        invariant
            i <= plugins@.len(),
            forall|j: int| 0 <= j < i ==> !is_driver(#[trigger] plugins@[j]),
        decreases plugins.len() - i,
    {
        if let Ok(id) = &plugins[i].bundle_id {
            if same_text(id.as_str(), BUNDLE_ID) {
                assert(is_driver(plugins@[i as int]));
                return Ok(plugins[i].object_id);
            }
        }
        i = i + 1;
    }
    Err(CoreAudioError::DriverNotInstalled)
}

/// The four bytes of a number, the lowest first.
pub open spec fn word_bytes(word: u32) -> Seq<u8> {
    seq![
        (word % 0x100) as u8,
        (word / 0x100 % 0x100) as u8,
        (word / 0x1_0000 % 0x100) as u8,
        (word / 0x100_0000) as u8,
    ]
}

/// `n` times the four bytes of a number.
pub open spec fn repeated_word(word: u32, n: nat) -> Seq<u8>
    decreases n,
{
    if n == 0 {
        Seq::empty()
    } else {
        repeated_word(word, (n - 1) as nat) + word_bytes(word)
    }
}

/// Which streams a callback uses: the callback's address, the number of streams, and a flag for
/// each.
pub open spec fn usage_bytes(io_proc: u64, streams: u32, enabled: bool) -> Seq<u8> {
    word_bytes((io_proc % 0x1_0000_0000) as u32) + word_bytes((io_proc / 0x1_0000_0000) as u32)
        + word_bytes(streams) + repeated_word(
        if enabled {
            1
        } else {
            0
        },
        streams as nat,
    )
}

fn push_word(bytes: &mut Vec<u8>, word: u32)
    ensures
        final(bytes)@ == old(bytes)@ + word_bytes(word),
{
    bytes.push((word % 0x100) as u8);
    bytes.push((word / 0x100 % 0x100) as u8);
    bytes.push((word / 0x1_0000 % 0x100) as u8);
    bytes.push((word / 0x100_0000) as u8);
    assert(bytes@ =~= old(bytes)@ + word_bytes(word));
}

/// The property that turns all streams of a device on or off for a callback. There is none where
/// the device has no streams.
pub fn stream_usage(io_proc: u64, streams: u32, enabled: bool) -> (property: Option<Vec<u8>>)
    ensures
        match property {
            Some(bytes) => streams > 0 && bytes@ == usage_bytes(io_proc, streams, enabled),
            None => streams == 0,
        },
{
    if streams == 0 {
        return None;
    }
    let mut bytes: Vec<u8> = Vec::new();
    push_word(&mut bytes, (io_proc % 0x1_0000_0000) as u32);
    push_word(&mut bytes, (io_proc / 0x1_0000_0000) as u32);
    push_word(&mut bytes, streams);
    let ghost header = bytes@;
    let flag: u32 = if enabled {
        1
    } else {
        0
    };
    let mut stream: u32 = 0;
    assert(bytes@ =~= header + repeated_word(flag, 0));
    while stream < streams
        invariant
            stream <= streams,
            bytes@ == header + repeated_word(flag, stream as nat),
        decreases streams - stream,
    {
        push_word(&mut bytes, flag);
        stream = stream + 1;
        assert(bytes@ =~= header + repeated_word(flag, stream as nat));
    }
    Some(bytes)
}

/// The fields of the command that creates a device.
pub open spec fn create_fields(
    id: Seq<char>,
    name: Seq<char>,
    input_channels: u32,
    output_channels: u32,
    sample_rate: u32,
) -> Seq<Seq<u8>> {
    seq![
        encode_utf8("create"@),
        encode_utf8(id),
        encode_utf8(name),
        encode_utf8(text::digits(input_channels as nat)),
        encode_utf8(text::digits(output_channels as nat)),
        encode_utf8(text::digits(sample_rate as nat)),
    ]
}

/// The digits of a number hold no tab.
proof fn lemma_digits_without_tab(n: nat)
    ensures
        !encode_utf8(text::digits(n)).contains(TAB),
{
    text::lemma_digits(n);
    text::lemma_ascii(text::digits(n));
}

/// A text that can stand as a field holds no tab.
proof fn lemma_field_without_tab(value: Seq<char>)
    requires
        is_field(value),
    ensures
        !encode_utf8(value).contains(TAB),
{
    if encode_utf8(value).contains(TAB) {
        let i = encode_utf8(value).index_of(TAB);
        assert(is_separator(encode_utf8(value)[i]));
    }
}

/// A word of letters, and the same word with a tab behind it.
proof fn lemma_word(word: Seq<char>)
    requires
        forall|i: int| 0 <= i < word.len() ==> 'a' <= #[trigger] word[i] <= 'z',
    ensures
        !encode_utf8(word).contains(TAB),
        encode_utf8(word.push('\t')) == encode_utf8(word).push(TAB),
{
    assert(is_ascii_chars(word));
    text::lemma_ascii(word);
    assert(is_ascii_chars(word.push('\t')));
    text::lemma_ascii(word.push('\t'));
    assert(text::ascii(word.push('\t')) =~= text::ascii(word).push(TAB));
    assert forall|i: int| 0 <= i < word.len() implies text::ascii(word)[i] != TAB by {
        assert('a' <= word[i]);
    }
}

/// Text behind a tab.
proof fn lemma_behind_tab(before: Seq<char>, field: Seq<char>)
    ensures
        encode_utf8(before + "\t"@ + field) == encode_utf8(before).push(TAB) + encode_utf8(field),
{
    reveal_strlit("\t");
    text::lemma_encode_concat(before, "\t"@);
    text::lemma_encode_concat(before + "\t"@, field);
    assert(is_ascii_chars("\t"@));
    text::lemma_ascii("\t"@);
    assert(encode_utf8("\t"@) =~= seq![TAB]);
    assert(encode_utf8(before) + seq![TAB] =~= encode_utf8(before).push(TAB));
}

/// The driver, which splits a command at its tabs, gets back what was asked for.
pub proof fn create_command_reads_back(
    id: Seq<char>,
    name: Seq<char>,
    input_channels: u32,
    output_channels: u32,
    sample_rate: u32,
    existing: nat,
)
    requires
        create_error(id, name, input_channels, output_channels, sample_rate, existing) is None,
    ensures
        fields::split(
            encode_utf8(create_command(id, name, input_channels, output_channels, sample_rate)),
            TAB,
        ) == create_fields(id, name, input_channels, output_channels, sample_rate),
{
    let parts = create_fields(id, name, input_channels, output_channels, sample_rate);
    let a = text::digits(input_channels as nat);
    let b = text::digits(output_channels as nat);
    let c = text::digits(sample_rate as nat);
    reveal_strlit("create");
    reveal_strlit("create\t");
    lemma_word("create"@);
    assert("create\t"@ =~= "create"@.push('\t'));
    lemma_field_without_tab(id);
    lemma_field_without_tab(name);
    lemma_digits_without_tab(input_channels as nat);
    lemma_digits_without_tab(output_channels as nat);
    lemma_digits_without_tab(sample_rate as nat);
    let first = "create\t"@ + id;
    let second = first + "\t"@ + name;
    let third = second + "\t"@ + a;
    let fourth = third + "\t"@ + b;
    text::lemma_encode_concat("create\t"@, id);
    lemma_behind_tab(first, name);
    lemma_behind_tab(second, a);
    lemma_behind_tab(third, b);
    lemma_behind_tab(fourth, c);
    assert(parts.take(5).drop_last() =~= parts.take(4));
    assert(parts.take(4).drop_last() =~= parts.take(3));
    assert(parts.take(3).drop_last() =~= parts.take(2));
    assert(parts.take(2).drop_last() =~= parts.take(1));
    assert(parts.drop_last() =~= parts.take(5));
    assert(fields::join(parts.take(1), TAB) == encode_utf8("create"@));
    assert(fields::join(parts.take(2), TAB) == encode_utf8(first));
    assert(fields::join(parts.take(3), TAB) == encode_utf8(second));
    assert(fields::join(parts.take(4), TAB) == encode_utf8(third));
    assert(fields::join(parts.take(5), TAB) == encode_utf8(fourth));
    fields::split_inverts_join(parts, TAB);
}

} // verus!
